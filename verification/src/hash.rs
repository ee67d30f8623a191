//! Hash primitives: the field-element node hash, the empty-subtree hash, and
//! the commitment leaf payload.

use vstd::prelude::*;

verus! {

/// The hash of an internal tree node, domain-separated by its height.
///
/// The value is computed by an outside hash function of the height and the
/// four child hashes alone; nothing further is assumed of it.
pub uninterp spec fn node_hash(height: int, a: Seq<u8>, b: Seq<u8>, c: Seq<u8>, d: Seq<u8>) -> Seq<u8>;

/// Whether a 32-byte string is the canonical little-endian encoding of a
/// field element.
pub uninterp spec fn fq_canonical(bytes: Seq<u8>) -> bool;

/// The hash standing for an empty subtree: all zero bytes, the canonical
/// encoding of the zero field element.
pub open spec fn blank_hash() -> Seq<u8> {
    Seq::new(32, |i: int| 0u8)
}

/// An opaque field-element hash value, stored as its canonical 32-byte
/// little-endian encoding.
#[derive(Clone, Copy, Debug, PartialEq, Eq)]
pub struct Hash {
    pub bytes: [u8; 32],
}

impl View for Hash {
    type V = Seq<u8>;

    open spec fn view(&self) -> Seq<u8> {
        self.bytes@
    }
}

impl Default for Hash {
    /// The hash denoting an empty subtree, used to pad missing children.
    fn default() -> (r: Hash)
        ensures
            r@ == blank_hash(),
    {
        let bytes = [0u8; 32];
        proof {
            broadcast use vstd::array::group_array_axioms;

            assert(bytes@ =~= blank_hash());
        }
        Hash { bytes }
    }
}

impl Hash {
    /// The hash of a leaf holding a commitment: the commitment's own field
    /// element, embedded unchanged.
    pub fn of(commitment: Commitment) -> (r: Hash)
        ensures
            r@ == commitment@,
    {
        Hash { bytes: commitment.bytes }
    }

    /// Whether two hashes hold the same value.
    pub fn value_eq(&self, other: &Hash) -> (r: bool)
        ensures
            r == (self@ == other@),
    {
        bytes32_eq(&self.bytes, &other.bytes)
    }
}

/// A note commitment: an opaque 32-byte field-element value, the payload of
/// a witnessed leaf.
#[derive(Clone, Copy, Debug, PartialEq, Eq)]
pub struct Commitment {
    pub bytes: [u8; 32],
}

impl View for Commitment {
    type V = Seq<u8>;

    open spec fn view(&self) -> Seq<u8> {
        self.bytes@
    }
}

impl Commitment {
    pub fn new(bytes: [u8; 32]) -> (r: Commitment)
        ensures
            r@ == bytes@,
    {
        Commitment { bytes }
    }

    /// Whether two commitments hold the same value.
    pub fn value_eq(&self, other: &Commitment) -> (r: bool)
        ensures
            r == (self@ == other@),
    {
        bytes32_eq(&self.bytes, &other.bytes)
    }
}

/// Byte-for-byte equality of two 32-byte strings.
pub fn bytes32_eq(a: &[u8; 32], b: &[u8; 32]) -> (r: bool)
    ensures
        r == (a@ == b@),
{
    let mut i: usize = 0;
    while i < 32
        invariant
            0 <= i <= 32,
            forall|j: int| 0 <= j < i ==> a@[j] == b@[j],
        decreases 32 - i,
    {
        if a[i] != b[i] {
            assert(a@[i as int] != b@[i as int]);
            return false;
        }
        i = i + 1;
    }
    proof {
        assert(a@ =~= b@);
    }
    true
}

/// Relies on `poseidon377::hash_4` and `decaf377::Fq`'s byte conversions:
/// the result is a fixed function of the height and the four child hashes,
/// domain-separated by the height.
#[verifier::external_body]
pub(crate) fn hash_node(height: u8, a: &Hash, b: &Hash, c: &Hash, d: &Hash) -> (r: Hash)
    ensures
        r@ == node_hash(height as int, a@, b@, c@, d@),
        fq_canonical(r@),
{
    let fa = decaf377::Fq::from_le_bytes_mod_order(&a.bytes);
    let fb = decaf377::Fq::from_le_bytes_mod_order(&b.bytes);
    let fc = decaf377::Fq::from_le_bytes_mod_order(&c.bytes);
    let fd = decaf377::Fq::from_le_bytes_mod_order(&d.bytes);
    let separator = decaf377::Fq::from(height as u64);
    let out = poseidon377::hash_4(&separator, (fa, fb, fc, fd));
    Hash { bytes: out.to_bytes() }
}

/// Relies on `decaf377::Fq::from_bytes_checked`: it accepts exactly the
/// 32-byte strings that are canonical encodings of field elements. The
/// all-zero string is one: it is the canonical encoding of zero.
#[verifier::external_body]
pub(crate) fn fq_bytes_canonical(bytes: &[u8; 32]) -> (r: bool)
    ensures
        r == fq_canonical(bytes@),
        bytes@ == blank_hash() ==> r,
{
    decaf377::Fq::from_bytes_checked(bytes).is_ok()
}

} // verus!
