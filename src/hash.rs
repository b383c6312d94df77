//! 256-bit digests and the keyed hashing the tree is built from.

use vstd::prelude::*;

verus! {

/// A 256-bit digest. The all-zero value is the sentinel for an absent node.
#[derive(Clone, Copy, Debug, PartialEq, Eq, Hash, PartialOrd, Ord)]
pub struct HashVal(pub [u8; 32]);

impl View for HashVal {
    type V = Seq<u8>;

    open spec fn view(&self) -> Seq<u8> {
        self.0@
    }
}

/// The sentinel digest: 32 zero bytes.
pub open spec fn zero_hash() -> Seq<u8> {
    Seq::new(32, |_i: int| 0u8)
}

impl HashVal {
    /// The all-zero sentinel.
    pub fn zero() -> (r: HashVal)
        ensures
            r@ == zero_hash(),
    {
        let r = HashVal([0u8; 32]);
        assert(r@ =~= zero_hash());
        r
    }

    /// Builds a digest from exactly 32 bytes.
    pub fn from_slice(b: &[u8]) -> (r: HashVal)
        requires
            b@.len() == 32,
        ensures
            r@ == b@,
    {
        let mut a = [0u8; 32];
        let mut i: usize = 0;
        while i < 32
            invariant
                0 <= i <= 32,
                b@.len() == 32,
                a@.len() == 32,
                forall|j: int| 0 <= j < i ==> a@[j] == b@[j],
            decreases 32 - i,
        {
            a[i] = b[i];
            i = i + 1;
        }
        let r = HashVal(a);
        assert(r@ =~= b@);
        r
    }

    /// Whether two digests are equal, byte for byte.
    pub fn same(&self, o: &HashVal) -> (r: bool)
        ensures
            r == (self@ == o@),
    {
        let mut i: usize = 0;
        while i < 32
            invariant
                0 <= i <= 32,
                self@.len() == 32,
                o@.len() == 32,
                forall|j: int| 0 <= j < i ==> self@[j] == o@[j],
            decreases 32 - i,
        {
            if self.0[i] != o.0[i] {
                return false;
            }
            i = i + 1;
        }
        assert(self@ =~= o@);
        true
    }

    /// Whether this is the sentinel.
    pub fn is_zero(&self) -> (r: bool)
        ensures
            r == (self@ == zero_hash()),
    {
        let z = HashVal::zero();
        self.same(&z)
    }
}

/// The keyed digest that `tmelcrypt::hash_keyed` gives for a key and a value.
pub uninterp spec fn keyed_hash_of(key: Seq<u8>, val: Seq<u8>) -> Seq<u8>;

/// The digest that `tmelcrypt::hash_single` gives for a byte string.
pub uninterp spec fn single_hash_of(val: Seq<u8>) -> Seq<u8>;

/// Relies on `tmelcrypt::hash_keyed`: a keyed BLAKE3 digest, a function of key and value alone.
#[verifier::external_body]
pub(crate) fn hash_keyed(key: &[u8], val: &[u8]) -> (r: HashVal)
    ensures
        r@ == keyed_hash_of(key@, val@),
{
    HashVal(tmelcrypt::hash_keyed(key, val).0)
}

/// Relies on `tmelcrypt::hash_single`: a BLAKE3 digest, a function of its input alone.
#[verifier::external_body]
pub(crate) fn hash_single(val: &[u8]) -> (r: HashVal)
    ensures
        r@ == single_hash_of(val@),
{
    HashVal(tmelcrypt::hash_single(val).0)
}

/// Relies on `stdcode::serialize` of a `tmelcrypt::HashVal`: bincode writes
/// the 32 bytes of the digest as they are, into a `Vec` with no size limit,
/// so it never fails.
#[verifier::external_body]
pub(crate) fn encode_hash(h: &HashVal) -> (r: Option<Vec<u8>>)
    ensures
        r is Some,
        r matches Some(v) ==> v@ == h@,
{
    stdcode::serialize(&tmelcrypt::HashVal(h.0)).ok()
}

} // verus!
