//! Which drawers are asked to draw: every drawer visible in some view, once,
//! in the order the views first show it.

use fixedbitset::FixedBitSet;
use vstd::prelude::*;

use crate::bits::{bit_marks, bit_set, bits_contains, bits_grow_and_insert, bits_with_capacity};

verus! {

/// The visible entities of all views, view after view.
pub open spec fn all_visible(views: Seq<Vec<u32>>) -> Seq<u32>
    decreases views.len(),
{
    if views.len() == 0 {
        Seq::empty()
    } else {
        all_visible(views.drop_last()) + views.last()@
    }
}

/// Each entity of a sequence once, where it first occurs.
pub open spec fn first_seen(s: Seq<u32>) -> Seq<u32>
    decreases s.len(),
{
    if s.len() == 0 {
        Seq::empty()
    } else if s.drop_last().contains(s.last()) {
        first_seen(s.drop_last())
    } else {
        first_seen(s.drop_last()).push(s.last())
    }
}

/// The entities of `first_seen(s)` are those of `s`.
proof fn lemma_first_seen_members(s: Seq<u32>)
    ensures
        forall|x: u32| first_seen(s).contains(x) <==> s.contains(x),
    decreases s.len(),
{
    if s.len() > 0 {
        let d = s.drop_last();
        lemma_first_seen_members(d);
        assert forall|x: u32| s.contains(x) <==> (d.contains(x) || x == s.last()) by {
            if s.contains(x) {
                let k = choose|k: int| 0 <= k < s.len() && s[k] == x;
                if k < s.len() - 1 {
                    assert(d[k] == x);
                }
            }
            if d.contains(x) {
                let k = choose|k: int| 0 <= k < d.len() && d[k] == x;
                assert(s[k] == x);
            }
        }
        let f = first_seen(d);
        let l = s.last();
        if !d.contains(l) {
            assert forall|x: u32| f.push(l).contains(x) <==> (f.contains(x) || x == l) by {
                if f.push(l).contains(x) {
                    let k = choose|k: int| 0 <= k < f.push(l).len() && f.push(l)[k] == x;
                    if k < f.len() {
                        assert(f[k] == x);
                    }
                }
                if f.contains(x) {
                    let k = choose|k: int| 0 <= k < f.len() && f[k] == x;
                    assert(f.push(l)[k] == x);
                }
                if x == l {
                    assert(f.push(l)[f.len() as int] == x);
                }
            }
        }
    }
}

/// The drawers to draw: the entities visible in the views, each once, in
/// the order first seen over the views in turn.
pub fn drawers_to_draw(views: &Vec<Vec<u32>>) -> (r: Vec<u32>)
    requires
        forall|v: int, k: int| 0 <= v < views@.len() && 0 <= k < views@[v]@.len() ==> (#[trigger] views@[v]@[k]) < usize::MAX,
    ensures
        r@ == first_seen(all_visible(views@)),
{
    let mut seen: FixedBitSet = bits_with_capacity(0);
    let mut out: Vec<u32> = Vec::new();
    let mut v: usize = 0;
    while v < views.len()
        invariant
            forall|v2: int, k2: int| 0 <= v2 < views@.len() && 0 <= k2 < views@[v2]@.len() ==> (#[trigger] views@[v2]@[k2]) < usize::MAX,
            v <= views@.len(),
            out@ == first_seen(all_visible(views@.subrange(0, v as int))),
            forall|x: usize| #![trigger bit_set(seen, x)] bit_set(seen, x) <==> (x <= u32::MAX && all_visible(views@.subrange(0, v as int)).contains(x as u32)),
        decreases views@.len() - v,
    {
        let ghost before = all_visible(views@.subrange(0, v as int));
        proof {
            assert(views@.subrange(0, v + 1).drop_last() =~= views@.subrange(0, v as int));
        }
        let entities = &views[v];
        let mut k: usize = 0;
        while k < entities.len()
            invariant
                v < views@.len(),
                *entities == views@[v as int],
                forall|k2: int| 0 <= k2 < entities@.len() ==> (#[trigger] entities@[k2]) < usize::MAX,
                k <= entities@.len(),
                out@ == first_seen(before + entities@.subrange(0, k as int)),
                forall|x: usize| #![trigger bit_set(seen, x)] bit_set(seen, x) <==> (x <= u32::MAX && (before + entities@.subrange(0, k as int)).contains(x as u32)),
            decreases entities@.len() - k,
        {
            let e = entities[k];
            let ghost s = before + entities@.subrange(0, k as int);
            let ghost s1 = before + entities@.subrange(0, k + 1);
            proof {
                assert(s1.drop_last() =~= s);
                assert(s1.last() == e);
                lemma_first_seen_members(s);
                assert forall|x: u32| s1.contains(x) <==> (s.contains(x) || x == e) by {
                    if s1.contains(x) {
                        let j = choose|j: int| 0 <= j < s1.len() && s1[j] == x;
                        if j < s.len() {
                            assert(s[j] == x);
                        }
                    }
                    if s.contains(x) {
                        let j = choose|j: int| 0 <= j < s.len() && s[j] == x;
                        assert(s1[j] == x);
                    }
                    if x == e {
                        assert(s1[s1.len() - 1] == x);
                    }
                }
            }
            if !bits_contains(&seen, e as usize) {
                let ghost prev = seen;
                bits_grow_and_insert(&mut seen, e as usize);
                proof {
                    assert forall|x: usize| #![trigger bit_set(seen, x)] bit_set(seen, x) <==> (bit_set(prev, x) || x == e as usize) by {
                        if x < bit_marks(seen).len() {
                            assert(bit_marks(seen)[x as int] == (x == e as usize || (x < bit_marks(prev).len()
                                && bit_marks(prev)[x as int])));
                        }
                    }
                }
                out.push(e);
            }
            k = k + 1;
        }
        proof {
            assert(entities@.subrange(0, entities@.len() as int) =~= entities@);
            assert(all_visible(views@.subrange(0, v + 1)) =~= before + entities@);
        }
        v = v + 1;
    }
    proof {
        assert(views@.subrange(0, views@.len() as int) =~= views@);
    }
    out
}

/// Every drawer visible in some view is drawn, and none twice.
pub proof fn law_drawn_once(views: Seq<Vec<u32>>)
    ensures
        first_seen(all_visible(views)).no_duplicates(),
        forall|x: u32| first_seen(all_visible(views)).contains(x) <==> all_visible(views).contains(x),
{
    lemma_first_seen_distinct(all_visible(views));
    lemma_first_seen_members(all_visible(views));
}

/// `first_seen` holds no entity twice.
proof fn lemma_first_seen_distinct(s: Seq<u32>)
    ensures
        first_seen(s).no_duplicates(),
    decreases s.len(),
{
    if s.len() > 0 {
        let d = s.drop_last();
        lemma_first_seen_distinct(d);
        lemma_first_seen_members(d);
        let f = first_seen(d);
        let l = s.last();
        if !d.contains(l) {
            assert forall|i: int, j: int| 0 <= i < j < f.push(l).len() implies f.push(l)[i] != f.push(l)[j] by {
                assert(f.push(l)[i] == f[i]);
                if j < f.len() {
                    assert(f.push(l)[j] == f[j]);
                } else {
                    assert(f.contains(f[i]));
                }
            }
        }
    }
}

} // verus!
