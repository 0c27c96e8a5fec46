use vstd::prelude::*;
use bitvector::BitVector;

verus! {

#[verifier::external_type_specification]
#[verifier::external_body]
pub struct ExBitVector(BitVector);

/// The set of bit positions that a bit vector holds.
pub uninterp spec fn members_of(v: BitVector) -> Set<usize>;

/// The capacity of a bit vector: 64 positions for each of its words, the
/// number `BitVector::capacity` reports.
pub uninterp spec fn capacity_of(v: BitVector) -> nat;

/// Relies on `BitVector::new`: a vector that holds no position, with enough
/// words for `bits` positions (`bits + 63` must not overflow when it counts
/// them).
#[verifier::external_body]
pub(crate) fn new_bits(bits: usize) -> (r: BitVector)
    requires
        bits + 63 <= usize::MAX,
    ensures
        members_of(r) == Set::<usize>::empty(),
        capacity_of(r) >= bits,
{
    BitVector::new(bits)
}

/// Relies on `BitVector::contains`: whether `bit` is held.
#[verifier::external_body]
pub(crate) fn contains_bit(v: &BitVector, bit: usize) -> (r: bool)
    ensures
        r == members_of(*v).contains(bit),
{
    v.contains(bit)
}

/// Relies on `BitVector::insert` for a position below the capacity, so that
/// the vector never grows: `bit` is added, and the result says whether `bit` was
/// absent before.
#[verifier::external_body]
pub(crate) fn insert_bit(v: &mut BitVector, bit: usize) -> (r: bool)
    requires
        (bit as nat) < capacity_of(*old(v)),
    ensures
        members_of(*final(v)) == members_of(*old(v)).insert(bit),
        capacity_of(*final(v)) == capacity_of(*old(v)),
        r == !members_of(*old(v)).contains(bit),
{
    v.insert(bit)
}

/// Relies on `BitVector::remove` for a position below the capacity (past
/// its words the index is out of bounds): `bit` is dropped, and the
/// result says whether `bit` was held before.
#[verifier::external_body]
pub(crate) fn remove_bit(v: &mut BitVector, bit: usize) -> (r: bool)
    requires
        (bit as nat) < capacity_of(*old(v)),
    ensures
        members_of(*final(v)) == members_of(*old(v)).remove(bit),
        capacity_of(*final(v)) == capacity_of(*old(v)),
        r == members_of(*old(v)).contains(bit),
{
    v.remove(bit)
}

/// Relies on iterating a `BitVector`: every held position once, in increasing
/// order.
#[verifier::external_body]
pub(crate) fn member_list(v: &BitVector) -> (r: Vec<usize>)
    ensures
        r@.to_set() == members_of(*v),
        forall|i: int, j: int| 0 <= i < j < r@.len() ==> r@[i] < r@[j],
{
    v.iter().collect()
}

} // verus!
