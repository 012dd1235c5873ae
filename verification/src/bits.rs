//! The bit sets of the `fixedbitset` crate, as the structure pass and the
//! drawer queue use them to mark entities.

use fixedbitset::FixedBitSet;
use vstd::prelude::*;

verus! {

#[verifier::external_type_specification]
#[verifier::external_body]
pub struct ExFixedBitSet(FixedBitSet);

/// The bits of a bit set, unset or set, one for each index below its length.
pub uninterp spec fn bit_marks(b: FixedBitSet) -> Seq<bool>;

/// Whether bit `x` of a bit set is set; bits past its length are not.
pub open spec fn bit_set(b: FixedBitSet, x: usize) -> bool {
    x < bit_marks(b).len() && bit_marks(b)[x as int]
}

/// `FixedBitSet::with_capacity`: `n` bits, all unset.
#[verifier::external_body]
pub(crate) fn bits_with_capacity(n: usize) -> (r: FixedBitSet)
    ensures
        bit_marks(r) == Seq::new(n as nat, |i: int| false),
{
    FixedBitSet::with_capacity(n)
}

/// `FixedBitSet::put`: sets bit `i`, returning whether it was set.
#[verifier::external_body]
pub(crate) fn bits_put(b: &mut FixedBitSet, i: usize) -> (r: bool)
    requires
        i < bit_marks(*old(b)).len(),
    ensures
        r == bit_marks(*old(b))[i as int],
        bit_marks(*final(b)) == bit_marks(*old(b)).update(i as int, true),
{
    b.put(i)
}

/// `FixedBitSet::contains`: whether bit `i` is set; bits past the length
/// are not.
#[verifier::external_body]
pub(crate) fn bits_contains(b: &FixedBitSet, i: usize) -> (r: bool)
    ensures
        r == bit_set(*b, i),
{
    b.contains(i)
}

/// `FixedBitSet::grow_and_insert`: lengthens the set, with unset bits, to
/// hold bit `i`, and sets it.
#[verifier::external_body]
pub(crate) fn bits_grow_and_insert(b: &mut FixedBitSet, i: usize)
    requires
        i < usize::MAX,
    ensures
        bit_marks(*final(b)).len() == if bit_marks(*old(b)).len() > i {
            bit_marks(*old(b)).len()
        } else {
            (i + 1) as nat
        },
        forall|j: int|
            0 <= j < bit_marks(*final(b)).len() ==> #[trigger] bit_marks(*final(b))[j] == (j == i || (j
                < bit_marks(*old(b)).len() && bit_marks(*old(b))[j])),
{
    b.grow_and_insert(i)
}

} // verus!
