//! 64-byte digests, which also serve as addresses.

use vstd::prelude::*;

verus! {

/// A 64-byte digest: a block hash, a transaction signature hash, or an address.
#[derive(Clone, Copy, Debug, Hash, Eq)]
pub struct Digest {
    pub bytes: [u8; 64],
}

impl View for Digest {
    type V = Seq<u8>;

    open spec fn view(&self) -> Seq<u8> {
        self.bytes@
    }
}

impl PartialEq for Digest {
    fn eq(&self, other: &Digest) -> (r: bool) {
        let mut i: usize = 0;
        while i < 64
            invariant
                i <= 64,
                forall|j: int| 0 <= j < i ==> self.bytes@[j] == other.bytes@[j],
            decreases 64 - i,
        {
            if self.bytes[i] != other.bytes[i] {
                return false;
            }
            i = i + 1;
        }
        proof {
            assert(self.bytes@ =~= other.bytes@);
            lemma_digest_ext(*self, *other);
        }
        true
    }
}

impl vstd::std_specs::cmp::PartialEqSpecImpl for Digest {
    open spec fn obeys_eq_spec() -> bool {
        true
    }

    open spec fn eq_spec(&self, other: &Digest) -> bool {
        *self == *other
    }
}

impl Digest {
    /// The digest with the given bytes.
    pub fn new(bytes: [u8; 64]) -> (r: Digest)
        ensures
            r@ == bytes@,
    {
        Digest { bytes }
    }

    /// The digest of zero bytes.
    pub fn zero() -> (r: Digest)
        ensures
            r@ == Seq::new(64, |i: int| 0u8),
    {
        let r = Digest { bytes: [0u8; 64] };
        assert(r@ =~= Seq::new(64, |i: int| 0u8));
        r
    }

    /// The bytes of the digest.
    pub fn as_bytes(&self) -> (r: &[u8; 64])
        ensures
            r@ == self@,
    {
        &self.bytes
    }

    /// The digest at `at` in a byte string.
    pub fn from_slice(s: &[u8], at: usize) -> (r: Digest)
        requires
            at + 64 <= s@.len(),
        ensures
            r@ == s@.subrange(at as int, at + 64),
    {
        let len: usize = s.len();
        let mut bytes: [u8; 64] = [0u8; 64];
        let mut i: usize = 0;
        while i < 64
            invariant
                i <= 64,
                at + 64 <= len == s@.len(),
                forall|j: int| 0 <= j < i ==> bytes@[j] == s@[at + j],
            decreases 64 - i,
        {
            bytes[i] = s[at + i];
            i = i + 1;
        }
        assert(bytes@ =~= s@.subrange(at as int, at + 64));
        Digest { bytes }
    }
}

/// Two digests with the same bytes are the same digest.
pub proof fn lemma_digest_ext(a: Digest, b: Digest)
    requires
        a@ == b@,
    ensures
        a == b,
{
    assert(a.bytes =~= b.bytes);
}

/// An array that begins with the first `n` bytes of `s`.
pub open spec fn array_of(s: Seq<u8>, n: nat) -> [u8; 64]
    decreases n,
{
    if n == 0 {
        vstd::array::spec_array_fill_for_copy_type::<u8, 64>(0u8)
    } else {
        vstd::array::spec_array_update(array_of(s, (n - 1) as nat), n - 1, s[n - 1])
    }
}

proof fn lemma_array_of(s: Seq<u8>, n: nat)
    requires
        n <= 64,
    ensures
        forall|i: int| 0 <= i < n ==> #[trigger] array_of(s, n)@[i] == s[i],
    decreases n,
{
    if n > 0 {
        lemma_array_of(s, (n - 1) as nat);
        let before = array_of(s, (n - 1) as nat);
        assert(array_of(s, n)@ == before@.update(n - 1, s[n - 1]));
    }
}

/// The digest with the given bytes.
pub open spec fn digest_of(bytes: Seq<u8>) -> Digest {
    Digest { bytes: array_of(bytes, 64) }
}

/// 64 bytes make up one digest.
pub proof fn lemma_digest_of(d: Digest)
    ensures
        digest_of(d@) == d,
{
    lemma_array_of(d@, 64);
    assert(digest_of(d@)@ =~= d@);
    lemma_digest_ext(digest_of(d@), d);
}

/// Every 64 bytes make up a digest.
pub proof fn lemma_digest_bytes(bytes: Seq<u8>)
    requires
        bytes.len() == 64,
    ensures
        digest_of(bytes)@ == bytes,
{
    lemma_array_of(bytes, 64);
    assert(digest_of(bytes)@ =~= bytes);
}

/// What the hash function can give for the bytes.
pub open spec fn hashed<H: Fn(&Vec<u8>) -> Digest>(hash: H, bytes: Seq<u8>, r: Digest) -> bool {
    exists|b: Vec<u8>| b@ == bytes && #[trigger] hash.ensures((&b,), r)
}

} // verus!
