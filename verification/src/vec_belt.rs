//! An append-only buffer that stores its elements in a chain of fragments and
//! hands them all out, in append order, when cleared.
//!
//! Appending never moves elements already stored: when the last fragment has
//! no room left, the elements that fit fill it up and the rest start a new
//! fragment. Clearing merges the fragments into one.

use std::collections::VecDeque;
use std::ops::Deref;

use vstd::layout::{align_of, layout_for_type_is_valid, size_of};
use vstd::prelude::*;

verus! {

broadcast use vstd::seq::group_seq_axioms;

/// Size and alignment of a block of memory.
#[derive(Clone, Copy, Debug, PartialEq, Eq, Structural)]
pub struct MemLayout {
    /// Size in bytes.
    pub size: usize,
    /// Alignment in bytes.
    pub align: usize,
}

/// A layout whose size would exceed what a block may hold.
#[derive(Clone, Copy, Debug, PartialEq, Eq, Structural)]
pub struct LayoutError;

/// Largest size a block with the given alignment may have once rounded up.
pub open spec fn max_size_for_align(align: nat) -> int {
    isize::MAX as int - (align as int - 1)
}

/// `x` rounded up to a multiple of `a > 0`.
pub open spec fn round_up(x: nat, a: nat) -> nat {
    let y = x + a - 1;
    (y - y % (a as int)) as nat
}

/// Layout of a header of the given size and alignment followed by an array of
/// `cap` elements of the given size and alignment, padded to the whole
/// alignment; `None` where the array or the whole block is too large.
pub open spec fn header_array_layout(
    hdr_size: nat,
    hdr_align: nat,
    elem_size: nat,
    elem_align: nat,
    cap: nat,
) -> Option<(nat, nat)> {
    if elem_size != 0 && cap * elem_size > max_size_for_align(elem_align) {
        None
    } else {
        let offset = round_up(hdr_size, elem_align);
        let align = if hdr_align < elem_align {
            elem_align
        } else {
            hdr_align
        };
        let size = offset + cap * elem_size;
        if size > max_size_for_align(align) {
            None
        } else {
            Some((round_up(size, align), align))
        }
    }
}

/// Layout of a fragment of `cap` elements: a two-word link to the next
/// fragment followed by the elements.
pub open spec fn fragment_layout<T>(cap: nat) -> Option<(nat, nat)> {
    header_array_layout(2 * size_of::<usize>(), align_of::<usize>(), size_of::<T>(), align_of::<T>(), cap)
}

/// `x` rounded up to a multiple of `a`.
fn round_up_exec(x: usize, a: usize) -> (r: usize)
    requires
        a > 0,
        x + a - 1 <= usize::MAX,
    ensures
        r == round_up(x as nat, a as nat),
        x <= r,
        r <= x + a - 1,
{
    let y = x + (a - 1);
    proof {
        lemma_round_up_ge(x as int, a as int);
    }
    y - y % a
}

/// Rounding up never goes below the value.
proof fn lemma_round_up_ge(x: int, a: int)
    requires
        x >= 0,
        a > 0,
    ensures
        (x + a - 1) - (x + a - 1) % a >= x,
        (x + a - 1) % a >= 0,
{
    vstd::arithmetic::div_mod::lemma_mod_bound(x + a - 1, a);
}

} // verus!

verus! {

/// One link of the chain: its elements and how many it can hold.
pub struct Fragment<T> {
    data: Vec<T>,
    capacity: usize,
}

impl<T> Fragment<T> {
    /// The elements held.
    pub closed spec fn items(&self) -> Seq<T> {
        self.data@
    }

    /// How many elements the fragment can hold.
    pub closed spec fn cap(&self) -> nat {
        self.capacity as nat
    }

    /// Memory layout of a fragment holding `capacity` elements, or an error
    /// where it would be too large.
    pub fn layout(capacity: usize) -> (r: Result<MemLayout, LayoutError>)
        ensures
            match fragment_layout::<T>(capacity as nat) {
                Some((size, align)) => r == Ok::<MemLayout, LayoutError>(
                    MemLayout { size: size as usize, align: align as usize },
                ) && size <= usize::MAX && align <= usize::MAX,
                None => r == Err::<MemLayout, LayoutError>(LayoutError),
            },
    {
        layout_for_type_is_valid::<T>();
        layout_for_type_is_valid::<usize>();
        let elem_size = std::mem::size_of::<T>();
        let elem_align = std::mem::align_of::<T>();
        let word = std::mem::size_of::<usize>();
        let hdr_align = std::mem::align_of::<usize>();
        let hdr_size = word + word;
        if elem_align - 1 > isize::MAX as usize {
            return Err(LayoutError);
        }
        let max_elem = (isize::MAX as usize) - (elem_align - 1);
        let array = match capacity.checked_mul(elem_size) {
            Some(v) => v,
            None => {
                return Err(LayoutError);
            },
        };
        if elem_size != 0 && array > max_elem {
            return Err(LayoutError);
        }
        let offset = round_up_exec(hdr_size, elem_align);
        let align = if hdr_align < elem_align {
            elem_align
        } else {
            hdr_align
        };
        let size = offset + array;
        if align - 1 > isize::MAX as usize {
            return Err(LayoutError);
        }
        let max_all = (isize::MAX as usize) - (align - 1);
        if size > max_all {
            return Err(LayoutError);
        }
        let padded = round_up_exec(size, align);
        Ok(MemLayout { size: padded, align })
    }

    /// An empty fragment that can hold `capacity` elements.
    pub fn new(capacity: usize) -> (r: Result<Fragment<T>, LayoutError>)
        ensures
            match r {
                Ok(f) => f.items().len() == 0 && f.cap() == capacity && fragment_layout::<T>(
                    capacity as nat,
                ) is Some,
                Err(_) => fragment_layout::<T>(capacity as nat) is None,
            },
    {
        match Self::layout(capacity) {
            Ok(_) => Ok(Fragment { data: Vec::new(), capacity }),
            Err(e) => Err(e),
        }
    }
}

} // verus!

verus! {

/// The elements of a chain of fragments, first fragment first.
pub open spec fn chain_items<T>(frags: Seq<Fragment<T>>) -> Seq<T>
    decreases frags.len(),
{
    if frags.len() == 0 {
        Seq::empty()
    } else {
        chain_items(frags.drop_last()) + frags.last().items()
    }
}

/// Adding a fragment at the end adds its elements at the end.
proof fn lemma_chain_push<T>(frags: Seq<Fragment<T>>, f: Fragment<T>)
    ensures
        chain_items(frags.push(f)) == chain_items(frags) + f.items(),
{
    assert(frags.push(f).drop_last() =~= frags);
}

/// An append-only buffer made of a chain of fragments.
///
/// Elements are appended at the end of the last fragment; a batch that does
/// not fit fills the last fragment and continues in a new one, at least
/// `chunk_len` elements large.
pub struct VecBelt<T> {
    chunk_len: usize,
    total_len: usize,
    fragments: Vec<Fragment<T>>,
}

impl<T> View for VecBelt<T> {
    type V = Seq<T>;

    /// The elements, in the order they were appended.
    closed spec fn view(&self) -> Seq<T> {
        chain_items(self.fragments@)
    }
}

impl<T> VecBelt<T> {
    /// The chain is never empty, every fragment holds at most its capacity and
    /// can be laid out, every fragment but the last is full, and the stored
    /// length counts every element.
    pub closed spec fn wf(&self) -> bool {
        &&& self.fragments@.len() >= 1
        &&& forall|i: int|
            0 <= i < self.fragments@.len() ==> {
                &&& (#[trigger] self.fragments@[i]).items().len() <= self.fragments@[i].cap()
                &&& fragment_layout::<T>(self.fragments@[i].cap()) is Some
            }
        &&& forall|i: int|
            0 <= i < self.fragments@.len() - 1 ==> (#[trigger] self.fragments@[i]).items().len()
                == self.fragments@[i].cap()
        &&& self.total_len == chain_items(self.fragments@).len()
    }

    /// Smallest capacity of a fragment started by an append.
    pub closed spec fn chunk_len(&self) -> nat {
        self.chunk_len as nat
    }

    /// How many elements the last fragment holds.
    pub closed spec fn tail_len(&self) -> nat {
        self.fragments@.last().items().len()
    }

    /// How many elements the last fragment can hold.
    pub closed spec fn tail_cap(&self) -> nat {
        self.fragments@.last().cap()
    }

    /// How many fragments the chain has.
    pub closed spec fn fragment_count(&self) -> nat {
        self.fragments@.len()
    }

    /// An empty belt whose fragments hold at least `chunk_len` elements.
    pub fn new(chunk_len: usize) -> (r: Self)
        requires
            fragment_layout::<T>(chunk_len as nat) is Some,
        ensures
            r.wf(),
            r@ == Seq::<T>::empty(),
            r.chunk_len() == chunk_len,
            r.tail_len() == 0,
            r.tail_cap() == chunk_len,
            r.fragment_count() == 1,
    {
        let head = match Fragment::new(chunk_len) {
            Ok(f) => f,
            Err(_) => {
                proof {
                    assert(false);
                }
                Fragment { data: Vec::new(), capacity: chunk_len }
            },
        };
        let mut fragments = Vec::new();
        fragments.push(head);
        let r = VecBelt { chunk_len, total_len: 0, fragments };
        proof {
            assert(r.fragments@.drop_last() =~= Seq::<Fragment<T>>::empty());
            assert(chain_items(r.fragments@.drop_last()) =~= Seq::<T>::empty());
            assert(chain_items(r.fragments@) =~= Seq::<T>::empty());
        }
        r
    }

    /// The number of elements appended since the belt was made or cleared.
    pub fn len(&mut self) -> (r: usize)
        requires
            old(self).wf(),
        ensures
            *final(self) == *old(self),
            r == old(self)@.len(),
    {
        self.total_len
    }
}

} // verus!

verus! {

/// A batch of elements that a [`VecBelt`] can take in one append.
///
/// The batch is split at a point chosen by the belt: the elements before it
/// go to the end of one vector, the rest to the end of another.
pub trait TransferBelt: Sized {
    /// The element type.
    type Item;

    /// The elements of the batch, in order.
    spec fn items(&self) -> Seq<Self::Item>;

    /// How many elements the batch holds.
    fn len(&self) -> (r: usize)
        ensures
            r == self.items().len(),
    ;

    /// Moves the first `fit` elements to the end of `left` and the others to
    /// the end of `right`.
    fn transfer(self, fit: usize, left: &mut Vec<Self::Item>, right: &mut Vec<Self::Item>)
        requires
            fit <= self.items().len(),
        ensures
            final(left)@ == old(left)@ + self.items().subrange(0, fit as int),
            final(right)@ == old(right)@ + self.items().subrange(fit as int, self.items().len() as int),
    ;
}

/// Moves the elements of `items` to the ends of `left` and `right`, split at `fit`.
fn split_vec_into<T>(items: Vec<T>, fit: usize, left: &mut Vec<T>, right: &mut Vec<T>)
    requires
        fit <= items@.len(),
    ensures
        final(left)@ == old(left)@ + items@.subrange(0, fit as int),
        final(right)@ == old(right)@ + items@.subrange(fit as int, items@.len() as int),
{
    let mut head = items;
    let mut rest = head.split_off(fit);
    left.append(&mut head);
    right.append(&mut rest);
}

/// Copies `src[from..to]` to the end of `dst`.
fn copy_range_into<T: Copy>(src: &[T], from: usize, to: usize, dst: &mut Vec<T>)
    requires
        from <= to <= src@.len(),
    ensures
        final(dst)@ == old(dst)@ + src@.subrange(from as int, to as int),
{
    let mut i = from;
    while i < to
        invariant
            from <= i <= to <= src@.len(),
            dst@ == old(dst)@ + src@.subrange(from as int, i as int),
        decreases to - i,
    {
        dst.push(src[i]);
        proof {
            assert(src@.subrange(from as int, i + 1) =~= src@.subrange(from as int, i as int).push(
                src@[i as int],
            ));
        }
        i = i + 1;
    }
}

/// `Vec::from` on an array: a vector of the array's elements, in order.
#[verifier::external_body]
fn vec_from_array<T, const N: usize>(items: [T; N]) -> (r: Vec<T>)
    ensures
        r@ == items@,
{
    Vec::from(items)
}

impl<T> TransferBelt for Vec<T> {
    type Item = T;

    open spec fn items(&self) -> Seq<T> {
        self@
    }

    fn len(&self) -> (r: usize) {
        Vec::len(self)
    }

    fn transfer(self, fit: usize, left: &mut Vec<T>, right: &mut Vec<T>) {
        split_vec_into(self, fit, left, right);
    }
}

impl<T, const N: usize> TransferBelt for [T; N] {
    type Item = T;

    open spec fn items(&self) -> Seq<T> {
        self@
    }

    fn len(&self) -> (r: usize) {
        N
    }

    fn transfer(self, fit: usize, left: &mut Vec<T>, right: &mut Vec<T>) {
        let items = vec_from_array(self);
        split_vec_into(items, fit, left, right);
    }
}

impl<T> TransferBelt for Box<[T]> {
    type Item = T;

    open spec fn items(&self) -> Seq<T> {
        (**self)@
    }

    fn len(&self) -> (r: usize) {
        (**self).len()
    }

    fn transfer(self, fit: usize, left: &mut Vec<T>, right: &mut Vec<T>) {
        let items = self.into_vec();
        split_vec_into(items, fit, left, right);
    }
}

impl<'a, T: Copy> TransferBelt for &'a [T] {
    type Item = T;

    open spec fn items(&self) -> Seq<T> {
        (**self)@
    }

    fn len(&self) -> (r: usize) {
        (**self).len()
    }

    fn transfer(self, fit: usize, left: &mut Vec<T>, right: &mut Vec<T>) {
        copy_range_into(self, 0, fit, left);
        copy_range_into(self, fit, self.len(), right);
    }
}

impl<'a, T: Copy> TransferBelt for &'a mut [T] {
    type Item = T;

    open spec fn items(&self) -> Seq<T> {
        (**self)@
    }

    fn len(&self) -> (r: usize) {
        (**self).len()
    }

    fn transfer(self, fit: usize, left: &mut Vec<T>, right: &mut Vec<T>) {
        let shared: &[T] = self;
        copy_range_into(shared, 0, fit, left);
        copy_range_into(shared, fit, shared.len(), right);
    }
}

} // verus!

verus! {

/// The larger of two numbers.
pub open spec fn max_nat(a: nat, b: nat) -> nat {
    if a < b {
        b
    } else {
        a
    }
}

impl<T> VecBelt<T> {
    /// Appends the elements of `transfer` after those already stored and
    /// returns the index of the first of them.
    ///
    /// Where the last fragment has no room for all of them, it is filled up
    /// and the rest start a new fragment of `chunk_len` elements, or more if
    /// the belt as a whole or the rest needs more.
    pub fn append<B: TransferBelt<Item = T>>(&mut self, transfer: B) -> (r: usize)
        requires
            old(self).wf(),
            old(self)@.len() + transfer.items().len() <= usize::MAX,
            old(self).tail_len() + transfer.items().len() <= isize::MAX,
            old(self).tail_len() + transfer.items().len() > old(self).tail_cap() ==> fragment_layout::<T>(
                max_nat(old(self).chunk_len(), old(self)@.len() + transfer.items().len()),
            ) is Some,
        ensures
            final(self).wf(),
            r == old(self)@.len(),
            final(self)@ == old(self)@ + transfer.items(),
            final(self).chunk_len() == old(self).chunk_len(),
            old(self).tail_len() + transfer.items().len() <= old(self).tail_cap() ==> {
                &&& final(self).fragment_count() == old(self).fragment_count()
                &&& final(self).tail_len() == old(self).tail_len() + transfer.items().len()
                &&& final(self).tail_cap() == old(self).tail_cap()
            },
            old(self).tail_len() + transfer.items().len() > old(self).tail_cap() ==> {
                &&& final(self).fragment_count() == old(self).fragment_count() + 1
                &&& final(self).tail_len() == old(self).tail_len() + transfer.items().len()
                    - old(self).tail_cap()
                &&& final(self).tail_cap() == max_nat(
                    old(self).chunk_len(),
                    old(self)@.len() + transfer.items().len(),
                )
            },
    {
        let ghost items = transfer.items();
        let ghost frags0 = self.fragments@;
        let additional = transfer.len();
        let index = self.total_len;
        let new_total = index + additional;
        let mut tail = match self.fragments.pop() {
            Some(f) => f,
            None => {
                proof {
                    assert(false);
                }
                return index;
            },
        };
        let ghost rest = self.fragments@;
        proof {
            assert(rest =~= frags0.drop_last());
            assert(tail == frags0.last());
        }
        let len = tail.data.len();
        let new_len = len + additional;
        if new_len <= tail.capacity {
            let mut spill: Vec<T> = Vec::new();
            transfer.transfer(additional, &mut tail.data, &mut spill);
            self.fragments.push(tail);
            proof {
                assert(items.subrange(0, additional as int) =~= items);
                lemma_chain_push(rest, tail);
                assert(self.fragments@ =~= rest.push(tail));
                assert forall|i: int| 0 <= i < self.fragments@.len() - 1 implies (
                #[trigger] self.fragments@[i]).items().len() == self.fragments@[i].cap() by {
                    assert(self.fragments@[i] == frags0[i]);
                }
                assert forall|i: int| 0 <= i < self.fragments@.len() implies {
                    &&& (#[trigger] self.fragments@[i]).items().len() <= self.fragments@[i].cap()
                    &&& fragment_layout::<T>(self.fragments@[i].cap()) is Some
                } by {
                    if i < self.fragments@.len() - 1 {
                        assert(self.fragments@[i] == frags0[i]);
                    } else {
                        assert(tail.capacity == frags0.last().capacity);
                    }
                }
            }
        } else {
            let fit = tail.capacity - len;
            let cut = new_len - tail.capacity;
            let wide = if self.chunk_len < new_total {
                new_total
            } else {
                self.chunk_len
            };
            let cap = if wide < cut {
                cut
            } else {
                wide
            };
            let mut next = match Fragment::new(cap) {
                Ok(f) => f,
                Err(_) => {
                    proof {
                        assert(cut <= new_total) by {
                            assert(len <= index) by {
                                assert(chain_items(frags0) == chain_items(frags0.drop_last())
                                    + frags0.last().items());
                            }
                        }
                        assert(false);
                    }
                    return index;
                },
            };
            proof {
                assert(len <= index) by {
                    assert(chain_items(frags0) == chain_items(frags0.drop_last())
                        + frags0.last().items());
                }
            }
            let ghost old_tail = tail;
            transfer.transfer(fit, &mut tail.data, &mut next.data);
            self.fragments.push(tail);
            self.fragments.push(next);
            proof {
                lemma_chain_push(rest, tail);
                lemma_chain_push(rest.push(tail), next);
                assert(self.fragments@ =~= rest.push(tail).push(next));
                assert(old_tail.items() + items =~= tail.items() + next.items()) by {
                    assert(items =~= items.subrange(0, fit as int) + items.subrange(
                        fit as int,
                        items.len() as int,
                    ));
                }
                assert(chain_items(frags0) == chain_items(rest) + old_tail.items());
                assert(chain_items(self.fragments@) =~= chain_items(frags0) + items);
                assert forall|i: int| 0 <= i < self.fragments@.len() - 1 implies (
                #[trigger] self.fragments@[i]).items().len() == self.fragments@[i].cap() by {
                    if i < rest.len() {
                        assert(self.fragments@[i] == frags0[i]);
                    }
                }
                assert forall|i: int| 0 <= i < self.fragments@.len() implies {
                    &&& (#[trigger] self.fragments@[i]).items().len() <= self.fragments@[i].cap()
                    &&& fragment_layout::<T>(self.fragments@[i].cap()) is Some
                } by {
                    if i < rest.len() {
                        assert(self.fragments@[i] == frags0[i]);
                    } else if i == rest.len() {
                        assert(old_tail == frags0.last());
                    }
                }
            }
        }
        self.total_len = new_total;
        index
    }
}

} // verus!

verus! {

/// The elements of a chain start with those of its first fragment.
proof fn lemma_chain_first<T>(frags: Seq<Fragment<T>>)
    requires
        frags.len() >= 1,
    ensures
        chain_items(frags) == frags[0].items() + chain_items(frags.drop_first()),
    decreases frags.len(),
{
    if frags.len() == 1 {
        assert(frags.drop_first() =~= Seq::<Fragment<T>>::empty());
        assert(frags.drop_last() =~= Seq::<Fragment<T>>::empty());
        assert(chain_items(frags.drop_last()) =~= Seq::<T>::empty());
        assert(chain_items(frags) =~= frags[0].items());
        assert(chain_items(frags.drop_first()) =~= Seq::<T>::empty());
        assert(frags[0].items() + Seq::<T>::empty() =~= frags[0].items());
    } else {
        let dl = frags.drop_last();
        lemma_chain_first(dl);
        assert(frags.drop_first().drop_last() =~= dl.drop_first());
        assert(frags.drop_first().last() == frags.last());
        assert(chain_items(frags.drop_first()) == chain_items(dl.drop_first()) + frags.last().items());
        assert(chain_items(frags) =~= frags[0].items() + chain_items(frags.drop_first()));
    }
}

/// Everything a cleared [`VecBelt`] held, handed to the consumer of
/// [`VecBelt::clear`].
pub struct ConsumeSlice<T> {
    items: Vec<T>,
}

impl<T> View for ConsumeSlice<T> {
    type V = Seq<T>;

    /// The elements, in append order.
    closed spec fn view(&self) -> Seq<T> {
        self.items@
    }
}

impl<T> ConsumeSlice<T> {
    /// The elements, as a slice.
    pub fn as_slice(&self) -> (r: &[T])
        ensures
            r@ == self@,
    {
        self.items.as_slice()
    }

    /// An iterator that takes the elements out, from either end.
    pub fn into_iter(self) -> (r: ConsumeIter<T>)
        ensures
            r@ == self@,
    {
        let mut items = self.items;
        let ghost all = items@;
        let mut rest: VecDeque<T> = VecDeque::new();
        while items.len() > 0
            invariant
                items@ + rest@ == all,
            decreases items@.len(),
        {
            let ghost before = items@;
            let x = items.pop().unwrap();
            rest.push_front(x);
            proof {
                assert(before =~= items@.push(x));
                assert(items@ + rest@ =~= before + seq![x].drop_first() + rest@.drop_first()) by {
                    assert(rest@.drop_first() + Seq::<T>::empty() =~= rest@.drop_first());
                }
                assert(items@ + rest@ =~= all);
            }
        }
        proof {
            assert(rest@ =~= all);
        }
        ConsumeIter { rest }
    }
}

impl<T> Deref for ConsumeSlice<T> {
    type Target = [T];

    fn deref(&self) -> (r: &[T])
        ensures
            r@ == self@,
    {
        self.items.as_slice()
    }
}

/// Takes the elements of a [`ConsumeSlice`] out one by one, from the front or
/// from the back.
pub struct ConsumeIter<T> {
    rest: VecDeque<T>,
}

impl<T> View for ConsumeIter<T> {
    type V = Seq<T>;

    /// The elements not taken out yet, in order.
    closed spec fn view(&self) -> Seq<T> {
        self.rest@
    }
}

impl<T> ConsumeIter<T> {
    /// How many elements are left.
    pub fn slice_len(&self) -> (r: usize)
        ensures
            r == self@.len(),
    {
        self.rest.len()
    }

    /// How many elements are left.
    pub fn len(&self) -> (r: usize)
        ensures
            r == self@.len(),
    {
        self.rest.len()
    }

    /// Exact bounds on how many elements are left.
    pub fn size_hint(&self) -> (r: (usize, Option<usize>))
        ensures
            r.0 == self@.len(),
            r.1 == Some(self@.len() as usize),
    {
        let n = self.rest.len();
        (n, Some(n))
    }

    /// Takes out the first element left, if any.
    pub fn next(&mut self) -> (r: Option<T>)
        ensures
            old(self)@.len() == 0 ==> r == None::<T> && final(self)@ == old(self)@,
            old(self)@.len() > 0 ==> r == Some(old(self)@[0]) && final(self)@ == old(self)@.drop_first(),
    {
        let r = self.rest.pop_front();
        proof {
            if old(self)@.len() > 0 {
                assert(self@ =~= old(self)@.drop_first());
            }
        }
        r
    }

    /// Takes out the last element left, if any.
    pub fn next_back(&mut self) -> (r: Option<T>)
        ensures
            old(self)@.len() == 0 ==> r == None::<T> && final(self)@ == old(self)@,
            old(self)@.len() > 0 ==> r == Some(old(self)@.last()) && final(self)@
                == old(self)@.drop_last(),
    {
        let r = self.rest.pop_back();
        proof {
            if old(self)@.len() > 0 {
                assert(self@ =~= old(self)@.drop_last());
            }
        }
        r
    }
}

impl<T> VecBelt<T> {
    /// Empties the belt and hands everything it held, in append order, to
    /// `consumer`, whose result is returned.
    ///
    /// A belt of several fragments is merged into one fragment that can hold
    /// every element it held.
    pub fn clear<R, F: FnOnce(ConsumeSlice<T>) -> R>(&mut self, consumer: F) -> (r: R)
        requires
            old(self).wf(),
            old(self).fragment_count() > 1 ==> fragment_layout::<T>(old(self)@.len()) is Some,
            forall|s: ConsumeSlice<T>| s@ == old(self)@ ==> consumer.requires((s,)),
        ensures
            final(self).wf(),
            final(self)@ == Seq::<T>::empty(),
            final(self).chunk_len() == old(self).chunk_len(),
            final(self).fragment_count() == 1,
            final(self).tail_len() == 0,
            old(self).fragment_count() == 1 ==> final(self).tail_cap() == old(self).tail_cap(),
            old(self).fragment_count() > 1 ==> final(self).tail_cap() == old(self)@.len(),
            exists|s: ConsumeSlice<T>| s@ == old(self)@ && consumer.ensures((s,), r),
    {
        let ghost all = self@;
        let total = self.total_len;
        let mut frags: Vec<Fragment<T>> = Vec::new();
        std::mem::swap(&mut frags, &mut self.fragments);
        let ghost frags0 = frags@;
        let (items, capacity) = if frags.len() == 1 {
            let head = frags.pop().unwrap();
            proof {
                assert(frags0.drop_last() =~= Seq::<Fragment<T>>::empty());
                assert(chain_items(frags0.drop_last()) =~= Seq::<T>::empty());
                assert(chain_items(frags0) =~= head.items());
            }
            (head.data, head.capacity)
        } else {
            let mut merged: Vec<T> = Vec::new();
            while frags.len() > 0
                invariant
                    merged@ + chain_items(frags@) == all,
                decreases frags@.len(),
            {
                let ghost before = frags@;
                proof {
                    lemma_chain_first(before);
                }
                let mut f = frags.remove(0);
                proof {
                    assert(frags@ =~= before.drop_first());
                }
                merged.append(&mut f.data);
                proof {
                    assert(merged@ + chain_items(frags@) =~= all);
                }
            }
            proof {
                assert(chain_items(frags@) =~= Seq::<T>::empty());
                assert(merged@ =~= all);
            }
            (merged, total)
        };
        let mut head = Fragment { data: Vec::new(), capacity };
        self.fragments.push(head);
        self.total_len = 0;
        proof {
            assert(self.fragments@.drop_last() =~= Seq::<Fragment<T>>::empty());
            assert(chain_items(self.fragments@.drop_last()) =~= Seq::<T>::empty());
            assert(chain_items(self.fragments@) =~= Seq::<T>::empty());
            if frags0.len() == 1 {
                assert(frags0[0] == frags0.last());
            }
        }
        let slice = ConsumeSlice { items };
        consumer(slice)
    }
}

} // verus!

verus! {

/// The batch an append stores is found, in what a later clear hands out, at
/// the index the append returned: appending `batch` to a belt holding
/// `before` returns `before.len()`, and whatever is appended after it,
/// `later`, the batch occupies the following `batch.len()` positions.
pub proof fn law_batch_position<T>(before: Seq<T>, batch: Seq<T>, later: Seq<T>)
    ensures
        (before + batch + later).subrange(before.len() as int, (before.len() + batch.len()) as int)
            == batch,
        (before + batch + later).len() == before.len() + batch.len() + later.len(),
{
    assert((before + batch + later).subrange(before.len() as int, (before.len() + batch.len()) as int)
        =~= batch);
}

} // verus!

verus! {

/// The elements of a sequence of batches, batch after batch.
pub open spec fn concat_batches<T>(batches: Seq<Seq<T>>) -> Seq<T>
    decreases batches.len(),
{
    if batches.len() == 0 {
        Seq::empty()
    } else {
        concat_batches(batches.drop_last()) + batches.last()
    }
}

/// The elements of a sequence of batches split at a batch boundary.
proof fn lemma_concat_split<T>(batches: Seq<Seq<T>>, i: int)
    requires
        0 <= i <= batches.len(),
    ensures
        concat_batches(batches) == concat_batches(batches.take(i)) + concat_batches(batches.skip(i)),
    decreases batches.len(),
{
    if i == batches.len() {
        assert(batches.take(i) =~= batches);
        assert(batches.skip(i) =~= Seq::<Seq<T>>::empty());
        assert(concat_batches(batches.skip(i)) =~= Seq::<T>::empty());
        assert(concat_batches(batches) + Seq::<T>::empty() =~= concat_batches(batches));
    } else {
        let d = batches.drop_last();
        lemma_concat_split(d, i);
        assert(d.take(i) =~= batches.take(i));
        assert(batches.skip(i).drop_last() =~= d.skip(i));
        assert(batches.skip(i).last() == batches.last());
        assert(concat_batches(batches) =~= concat_batches(batches.take(i)) + concat_batches(batches.skip(i)));
    }
}

/// Appending batches one after another to an empty belt and then clearing
/// it: the clear hands out every batch, in append order, and the `i`-th
/// append, which returns the number of elements appended before it, finds
/// its batch at that index of what the clear hands out.
pub proof fn law_appends_then_clear<T>(batches: Seq<Seq<T>>, i: int)
    requires
        0 <= i < batches.len(),
    ensures
        ({
            let at = concat_batches(batches.take(i)).len();
            concat_batches(batches).subrange(at as int, (at + batches[i].len()) as int) == batches[i]
        }),
{
    lemma_concat_split(batches, i);
    let rest = batches.skip(i);
    lemma_concat_split(rest, 1);
    assert(rest.take(1) =~= seq![batches[i]]);
    assert(seq![batches[i]].drop_last() =~= Seq::<Seq<T>>::empty());
    assert(concat_batches(seq![batches[i]].drop_last()) =~= Seq::<T>::empty());
    assert(seq![batches[i]].last() == batches[i]);
    assert(Seq::<T>::empty() + batches[i] =~= batches[i]);
    assert(concat_batches(seq![batches[i]]) =~= batches[i]);
    law_batch_position(concat_batches(batches.take(i)), batches[i], concat_batches(rest.skip(1)));
    assert(concat_batches(batches) =~= concat_batches(batches.take(i)) + batches[i] + concat_batches(rest.skip(1)));
}

/// What is left of a consuming iterator over `s` after calls of `next`
/// (`true`) and `next_back` (`false`), in order, each as its contract
/// states.
pub open spec fn left_after<T>(s: Seq<T>, calls: Seq<bool>) -> Seq<T>
    decreases calls.len(),
{
    if calls.len() == 0 {
        s
    } else {
        let l = left_after(s, calls.drop_last());
        if l.len() == 0 {
            l
        } else if calls.last() {
            l.drop_first()
        } else {
            l.drop_last()
        }
    }
}

/// How many of the calls are `next`.
pub open spec fn fronts(calls: Seq<bool>) -> nat
    decreases calls.len(),
{
    if calls.len() == 0 {
        0
    } else {
        fronts(calls.drop_last()) + if calls.last() {
            1nat
        } else {
            0nat
        }
    }
}

/// After `a` calls of `next` and `b` calls of `next_back` on an iterator over
/// `n` elements, with `a + b <= n` (so each call returned an element), what
/// is left is the elements from `a` to `n - b`, `n - a - b` of them.
pub proof fn law_consume_counts<T>(s: Seq<T>, calls: Seq<bool>)
    requires
        calls.len() <= s.len(),
    ensures
        left_after(s, calls) == s.subrange(fronts(calls) as int, s.len() - (calls.len() - fronts(calls))),
        left_after(s, calls).len() == s.len() - calls.len(),
    decreases calls.len(),
{
    if calls.len() > 0 {
        let d = calls.drop_last();
        law_consume_counts(s, d);
        lemma_fronts_bound(d);
        lemma_fronts_bound(calls);
        let a = fronts(d) as int;
        let b = d.len() - a;
        let l = left_after(s, d);
        assert(l == s.subrange(a, s.len() - b));
        if calls.last() {
            assert(l.drop_first() =~= s.subrange(a + 1, s.len() - b));
        } else {
            assert(l.drop_last() =~= s.subrange(a, s.len() - b - 1));
        }
    }
}

/// `next` calls are at most all calls.
proof fn lemma_fronts_bound(calls: Seq<bool>)
    ensures
        fronts(calls) <= calls.len(),
    decreases calls.len(),
{
    if calls.len() > 0 {
        lemma_fronts_bound(calls.drop_last());
    }
}

} // verus!

verus! {

/// Appending batches one after another to a new belt and then clearing it.
/// `views` are the belt's contents from the new belt on, one after each
/// append, and `returned` what each append returned, each as the contracts of
/// [`VecBelt::new`] and [`VecBelt::append`] state. The clear then hands out
/// (see [`VecBelt::clear`]) every batch, in append order, and each append
/// returned the number of elements appended before it, the index at which
/// its batch lies in what the clear hands out.
pub proof fn law_belt_round<T>(views: Seq<Seq<T>>, batches: Seq<Seq<T>>, returned: Seq<int>)
    requires
        views.len() == batches.len() + 1,
        returned.len() == batches.len(),
        views[0] == Seq::<T>::empty(),
        forall|i: int|
            0 <= i < batches.len() ==> #[trigger] views[i + 1] == views[i] + batches[i] && returned[i]
                == views[i].len(),
    ensures
        views.last() == concat_batches(batches),
        forall|i: int|
            0 <= i < batches.len() ==> {
                &&& #[trigger] returned[i] == concat_batches(batches.take(i)).len()
                &&& views.last().subrange(returned[i], returned[i] + batches[i].len()) == batches[i]
            },
{
    lemma_views_concat(views, batches, batches.len() as int);
    assert(batches.take(batches.len() as int) =~= batches);
    assert forall|i: int| 0 <= i < batches.len() implies {
        &&& #[trigger] returned[i] == concat_batches(batches.take(i)).len()
        &&& views.last().subrange(returned[i], returned[i] + batches[i].len()) == batches[i]
    } by {
        lemma_views_concat(views, batches, i);
        assert(views[i + 1] == views[i] + batches[i]);
        law_appends_then_clear(batches, i);
    }
}

/// After `k` appends the belt holds the first `k` batches.
proof fn lemma_views_concat<T>(views: Seq<Seq<T>>, batches: Seq<Seq<T>>, k: int)
    requires
        views.len() == batches.len() + 1,
        0 <= k <= batches.len(),
        views[0] == Seq::<T>::empty(),
        forall|i: int| 0 <= i < batches.len() ==> #[trigger] views[i + 1] == views[i] + batches[i],
    ensures
        views[k] == concat_batches(batches.take(k)),
    decreases k,
{
    if k == 0 {
        assert(batches.take(0) =~= Seq::<Seq<T>>::empty());
    } else {
        lemma_views_concat(views, batches, k - 1);
        let j = k - 1;
        assert(views[j + 1] == views[j] + batches[j]);
        assert(batches.take(k).drop_last() =~= batches.take(k - 1));
        assert(batches.take(k).last() == batches[k - 1]);
    }
}

/// One call of [`ConsumeIter::next`] (`front`) or [`ConsumeIter::next_back`],
/// as its contract states: from `before` left, it returned `r` and left
/// `after`.
pub open spec fn consume_step<T>(before: Seq<T>, front: bool, r: Option<T>, after: Seq<T>) -> bool {
    if before.len() == 0 {
        r == None::<T> && after == before
    } else if front {
        r == Some(before[0]) && after == before.drop_first()
    } else {
        r == Some(before.last()) && after == before.drop_last()
    }
}

/// Taking elements out of a consuming iterator over `s` by calls of `next`
/// (`true` in `calls`) and `next_back` (`false`): `left` is what is left
/// before each call and after the last one, and `results` what each call
/// returned. With at most `s.len()` calls, every call returned an element;
/// after `a` calls of `next` and `b` of `next_back`, the elements from `a` to
/// `s.len() - b` are left, `s.len() - a - b` of them, which is what `len`,
/// `slice_len` and both bounds of `size_hint` then report; and one more call
/// returns nothing exactly when that number is zero.
pub proof fn law_consume_round<T>(s: Seq<T>, calls: Seq<bool>, left: Seq<Seq<T>>, results: Seq<Option<T>>)
    requires
        calls.len() <= s.len(),
        left.len() == calls.len() + 1,
        results.len() == calls.len(),
        left[0] == s,
        forall|i: int|
            0 <= i < calls.len() ==> consume_step(left[i], calls[i], results[i], #[trigger] left[i + 1]),
    ensures
        forall|i: int| 0 <= i < calls.len() ==> (#[trigger] results[i]) is Some,
        left.last() == s.subrange(fronts(calls) as int, s.len() - (calls.len() - fronts(calls))),
        left.last().len() == s.len() - fronts(calls) - (calls.len() - fronts(calls)),
        forall|front: bool, r: Option<T>, after: Seq<T>|
            consume_step(left.last(), front, r, after) ==> (r is None <==> s.len() == calls.len()),
{
    lemma_left_after(s, calls, left, results, calls.len() as int);
    assert(calls.take(calls.len() as int) =~= calls);
    law_consume_counts(s, calls);
    assert forall|i: int| 0 <= i < calls.len() implies (#[trigger] results[i]) is Some by {
        lemma_left_after(s, calls, left, results, i);
        law_consume_counts(s, calls.take(i));
        assert(consume_step(left[i], calls[i], results[i], left[i + 1]));
    }
}

/// After the first `k` calls, what is left is [`left_after`] them.
proof fn lemma_left_after<T>(s: Seq<T>, calls: Seq<bool>, left: Seq<Seq<T>>, results: Seq<Option<T>>, k: int)
    requires
        left.len() == calls.len() + 1,
        results.len() == calls.len(),
        left[0] == s,
        forall|i: int|
            0 <= i < calls.len() ==> consume_step(left[i], calls[i], results[i], #[trigger] left[i + 1]),
        0 <= k <= calls.len(),
    ensures
        left[k] == left_after(s, calls.take(k)),
    decreases k,
{
    if k == 0 {
        assert(calls.take(0) =~= Seq::<bool>::empty());
    } else {
        lemma_left_after(s, calls, left, results, k - 1);
        assert(calls.take(k).drop_last() =~= calls.take(k - 1));
        assert(calls.take(k).last() == calls[k - 1]);
        let j = k - 1;
        assert(consume_step(left[j], calls[j], results[j], left[j + 1]));
    }
}

} // verus!
