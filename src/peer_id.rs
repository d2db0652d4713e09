//! A peer identifier made of a 512-bit digest, with the distance computed
//! by the `bigint` crate.

use vstd::prelude::*;
use bigint::U512;
use crate::distance::{bit_length, leading_zeros_in, KBucketsPeerId};

verus! {

/// The unsigned integer that bytes stand for, most significant byte first.
pub open spec fn be_value(s: Seq<u8>) -> nat
    decreases s.len(),
{
    if s.len() == 0 {
        0
    } else {
        be_value(s.drop_last()) * 256 + s.last() as nat
    }
}

/// Byte-wise exclusive or of two sequences of bytes of the same length.
pub open spec fn xor_bytes(a: Seq<u8>, b: Seq<u8>) -> Seq<u8> {
    Seq::new(a.len(), |i: int| a[i] ^ b[i])
}

/// These read bytes as big-endian integers through `U512::from_big_endian`,
/// which lays the bytes into words as a little-endian target does: the
/// contracts below hold on little-endian targets.
///
/// Relies on `U512::from(&[u8])`, `^` and `U512::to_big_endian`: the digests
/// are read as 512-bit big-endian integers, and their exclusive or is written
/// back in the same form, which is the byte-wise exclusive or.
#[verifier::external_body]
fn u512_xor(a: &[u8], b: &[u8]) -> (r: [u8; 64])
    requires
        a@.len() == 64,
        b@.len() == 64,
    ensures
        r@ == xor_bytes(a@, b@),
{
    let mut out = [0u8; 64];
    (U512::from(a) ^ U512::from(b)).to_big_endian(&mut out);
    out
}

/// Relies on `U512::from(&[u8])` and `U512::leading_zeros`: the number of
/// leading zero bits of the 512-bit big-endian integer.
#[verifier::external_body]
fn u512_leading_zeros(d: &[u8]) -> (r: u32)
    requires
        d@.len() == 64,
    ensures
        r as nat == leading_zeros_in(be_value(d@), 512),
{
    U512::from(d).leading_zeros()
}

/// Relies on `U512::from(&[u8])` and the order of `U512`, which is the order
/// of the integers.
#[verifier::external_body]
fn u512_le(a: &[u8], b: &[u8]) -> (r: bool)
    requires
        a@.len() == 64,
        b@.len() == 64,
    ensures
        r == (be_value(a@) <= be_value(b@)),
{
    U512::from(a) <= U512::from(b)
}

/// A peer identifier: a 512-bit digest.
#[derive(Debug, Clone, Copy, PartialEq, Eq)]
pub struct PeerId {
    digest: [u8; 64],
}

proof fn lemma_be_value_zero(s: Seq<u8>)
    requires
        forall|i: int| 0 <= i < s.len() ==> s[i] == 0,
    ensures
        be_value(s) == 0,
    decreases s.len(),
{
    if s.len() > 0 {
        lemma_be_value_zero(s.drop_last());
    }
}

proof fn lemma_be_value_zero_bytes(s: Seq<u8>)
    requires
        be_value(s) == 0,
    ensures
        forall|i: int| 0 <= i < s.len() ==> s[i] == 0,
    decreases s.len(),
{
    if s.len() > 0 {
        lemma_be_value_zero_bytes(s.drop_last());
        assert forall|i: int| 0 <= i < s.len() implies s[i] == 0 by {
            if i < s.len() - 1 {
                assert(s[i] == s.drop_last()[i]);
            }
        }
    }
}

impl PeerId {
    /// The digest of this identifier.
    pub closed spec fn spec_digest(&self) -> Seq<u8> {
        self.digest@
    }

    /// The identifier with the given digest.
    pub fn new(digest: [u8; 64]) -> (r: PeerId)
        ensures
            r.spec_digest() == digest@,
            r.spec_digest().len() == 64,
    {
        PeerId { digest }
    }

    /// The digest of this identifier.
    pub fn digest(&self) -> (r: &[u8])
        ensures
            r@ == self.spec_digest(),
            r@.len() == 64,
    {
        self.digest.as_slice()
    }
}

impl KBucketsPeerId for PeerId {
    type Distance = [u8; 64];

    open spec fn spec_num_bits() -> nat {
        512
    }

    open spec fn spec_distance(a: PeerId, b: PeerId) -> nat {
        be_value(xor_bytes(a.spec_digest(), b.spec_digest()))
    }

    open spec fn distance_value(d: [u8; 64]) -> nat {
        be_value(d@)
    }

    proof fn lemma_distance(a: PeerId, b: PeerId) {
        assert(xor_bytes(a.digest@, b.digest@) =~= xor_bytes(b.digest@, a.digest@)) by {
            assert forall|i: int| 0 <= i < 64 implies #[trigger] (a.digest@[i] ^ b.digest@[i]) == (
            b.digest@[i] ^ a.digest@[i]) by {
                let x = a.digest@[i];
                let y = b.digest@[i];
                assert(x ^ y == y ^ x) by (bit_vector);
            }
        }
        let z = xor_bytes(a.digest@, a.digest@);
        assert forall|i: int| 0 <= i < z.len() implies z[i] == 0 by {
            let x = a.digest@[i];
            assert(x ^ x == 0) by (bit_vector);
        }
        lemma_be_value_zero(z);
        if be_value(xor_bytes(a.digest@, b.digest@)) == 0 {
            let d = xor_bytes(a.digest@, b.digest@);
            lemma_be_value_zero_bytes(d);
            assert forall|i: int| 0 <= i < 64 implies a.digest[i] == b.digest[i] by {
                let x = a.digest@[i];
                let y = b.digest@[i];
                assert(d[i] == 0);
                assert(x ^ y == 0 ==> x == y) by (bit_vector);
            }
            assert(a.digest =~= b.digest);
        }
    }

    /// The exclusive or of the two digests.
    fn distance_with(&self, other: &Self) -> (r: [u8; 64]) {
        u512_xor(self.digest.as_slice(), other.digest.as_slice())
    }

    fn num_bits() -> (r: usize) {
        512
    }

    fn leading_zeros(distance: [u8; 64]) -> (r: u32) {
        u512_leading_zeros(distance.as_slice())
    }

    fn distance_le(a: &[u8; 64], b: &[u8; 64]) -> (r: bool) {
        u512_le(a.as_slice(), b.as_slice())
    }

    fn same_id(&self, other: &Self) -> (r: bool) {
        let d = self.distance_with(other);
        let lz = u512_leading_zeros(d.as_slice());
        proof {
            let v = be_value(d@);
            if v != 0 {
                assert(bit_length(v) >= 1);
            }
            Self::lemma_distance(*self, *other);
            Self::lemma_distance(*self, *self);
        }
        lz == 512
    }

    fn clone_id(&self) -> (r: PeerId) {
        PeerId { digest: self.digest }
    }
}

} // verus!
