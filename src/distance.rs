//! The distance capability that identifiers provide, and the bucket an
//! identifier belongs in.

use vstd::prelude::*;

verus! {

/// The number of significant bits of `v` (zero for zero).
pub open spec fn bit_length(v: nat) -> nat
    decreases v,
{
    if v == 0 {
        0
    } else {
        1 + bit_length(v / 2)
    }
}

/// The number of leading zero bits of `v` in a field of `width` bits.
pub open spec fn leading_zeros_in(v: nat, width: nat) -> nat {
    if bit_length(v) >= width {
        0
    } else {
        (width - bit_length(v)) as nat
    }
}

/// Identifiers that can be placed in a k-buckets table.
///
/// The distance between two identifiers is modelled as an unsigned integer of
/// `spec_num_bits()` bits; two identifiers are the same peer exactly when their
/// distance is zero.
pub trait KBucketsPeerId: Sized {
    /// Distance between two peer identifiers.
    type Distance;

    /// The bit-width of a distance.
    spec fn spec_num_bits() -> nat;

    /// The distance between two identifiers, as an unsigned integer.
    spec fn spec_distance(a: Self, b: Self) -> nat;

    /// The unsigned integer that a distance value stands for.
    spec fn distance_value(d: Self::Distance) -> nat;

    /// The distance is symmetric, and it is zero exactly between equal
    /// identifiers.
    proof fn lemma_distance(a: Self, b: Self)
        ensures
            Self::spec_distance(a, b) == Self::spec_distance(b, a),
            Self::spec_distance(a, a) == 0,
            Self::spec_distance(a, b) == 0 ==> a == b,
    ;

    /// Computes the XOR of this value and another one.
    fn distance_with(&self, other: &Self) -> (r: Self::Distance)
        ensures
            Self::distance_value(r) == Self::spec_distance(*self, *other),
    ;

    /// Returns the number of bits that are necessary to store the distance
    /// between peer IDs.
    fn num_bits() -> (r: usize)
        ensures
            r as nat == Self::spec_num_bits(),
            r > 0,
    ;

    /// Returns the number of leading zeroes of a distance.
    fn leading_zeros(distance: Self::Distance) -> (r: u32)
        ensures
            r as nat == leading_zeros_in(Self::distance_value(distance), Self::spec_num_bits()),
    ;

    /// Whether distance `a` is no greater than distance `b`.
    fn distance_le(a: &Self::Distance, b: &Self::Distance) -> (r: bool)
        ensures
            r == (Self::distance_value(*a) <= Self::distance_value(*b)),
    ;

    /// Whether two identifiers name the same peer.
    fn same_id(&self, other: &Self) -> (r: bool)
        ensures
            r == (Self::spec_distance(*self, *other) == 0),
            r == (*self == *other),
    ;

    /// A copy of this identifier.
    fn clone_id(&self) -> (r: Self)
        ensures
            r == *self,
    ;
}

/// The bucket of `other` in a table whose local identifier is `local`:
/// `(num_bits - 1) - leading_zeros(distance)`, or `None` when that is negative,
/// which happens exactly when `other` is the local identifier.
pub open spec fn bucket_index<Id: KBucketsPeerId>(local: Id, other: Id) -> Option<nat> {
    let lz = leading_zeros_in(Id::spec_distance(local, other), Id::spec_num_bits());
    if lz + 1 <= Id::spec_num_bits() {
        Some((Id::spec_num_bits() - 1 - lz) as nat)
    } else {
        None
    }
}

/// A bucket exists for `other` exactly when it is not `local`, and its index
/// is below the bit-width.
pub proof fn lemma_bucket_index<Id: KBucketsPeerId>(local: Id, other: Id)
    requires
        Id::spec_num_bits() > 0,
    ensures
        bucket_index(local, other) is None <==> Id::spec_distance(local, other) == 0,
        bucket_index(local, other) is None <==> local == other,
        bucket_index(local, other) is Some ==> bucket_index(local, other).unwrap()
            < Id::spec_num_bits(),
{
    Id::lemma_distance(local, other);
    Id::lemma_distance(local, local);
    let v = Id::spec_distance(local, other);
    if v != 0 {
        assert(bit_length(v) >= 1);
    }
}

/// Returns the index of the bucket that should hold `id`, or `None` when `id` is
/// the local identifier.
pub fn bucket_num<Id: KBucketsPeerId>(my_id: &Id, id: &Id) -> (r: Option<usize>)
    ensures
        r matches Some(i) ==> bucket_index(*my_id, *id) == Some(i as nat),
        r is None ==> bucket_index(*my_id, *id) is None,
        r is None <==> *id == *my_id,
        r matches Some(i) ==> i < Id::spec_num_bits(),
{
    let bits = Id::num_bits();
    proof {
        lemma_bucket_index(*my_id, *id);
    }
    let lz = Id::leading_zeros(my_id.distance_with(id));
    let top = bits - 1;
    if (lz as usize) <= top {
        Some(top - lz as usize)
    } else {
        None
    }
}

} // verus!
