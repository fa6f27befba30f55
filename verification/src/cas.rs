//! The content-addressed blob store: bytes are keyed by the lower-case hex
//! of their BLAKE3 digest, so identical content is stored once, and every
//! read is checked against its key.

use vstd::prelude::*;
use crate::hexcode::{hex_encode, hex_of, is_hex_char};
use crate::text::{chars_of, str_eq, string_of};

verus! {

/// The BLAKE3 digest of a byte string.
pub uninterp spec fn blake3_digest(data: Seq<u8>) -> Seq<u8>;

/// `blake3::hash`: the 32-byte digest of `data`.
#[verifier::external_body]
fn blake3_hash(data: &[u8]) -> (r: [u8; 32])
    ensures
        r@ == blake3_digest(data@),
{
    *blake3::hash(data).as_bytes()
}

/// The key of a blob: the lower-case hex of its BLAKE3 digest.
pub open spec fn content_key(data: Seq<u8>) -> Seq<char> {
    hex_of(blake3_digest(data))
}

/// A key worth looking up: 64 hex digits of either case.
pub open spec fn lookup_key_ok(hash: Seq<char>) -> bool {
    hash.len() == 64 && forall|i: int| 0 <= i < hash.len() ==> is_hex_char(#[trigger] hash[i])
}

/// The blob store rooted at a directory.
#[derive(Debug, Clone)]
pub struct Cas {
    dir: String,
    fsync: bool,
}

impl Cas {
    pub fn new(dir: String, fsync: bool) -> (c: Self)
        ensures
            c.dir_spec() == dir@,
            c.fsync_spec() == fsync,
    {
        Cas { dir, fsync }
    }

    pub closed spec fn dir_spec(&self) -> Seq<char> {
        self.dir@
    }

    pub closed spec fn fsync_spec(&self) -> bool {
        self.fsync
    }

    /// The store's root directory.
    pub fn dir(&self) -> (s: &str)
        ensures
            s@ == self.dir_spec(),
    {
        self.dir.as_str()
    }

    /// Whether writes are synced to disk.
    pub fn fsync(&self) -> (b: bool)
        ensures
            b == self.fsync_spec(),
    {
        self.fsync
    }

    /// The key under which `data` is stored.
    pub fn key_of(data: &[u8]) -> (k: String)
        ensures
            k@ == content_key(data@),
    {
        let d = blake3_hash(data);
        hex_encode(&d)
    }

    /// The fan-out directory of a key: its first two characters.
    pub fn shard(hash: &str) -> (s: String)
        requires
            hash@.len() >= 2,
        ensures
            s@ == hash@.take(2),
    {
        let cs = chars_of(hash);
        string_of(&cs.as_slice()[0..2])
    }

    /// Whether a requested key is worth looking up (`get` answers "absent"
    /// for any other).
    pub fn lookup_key(hash: &str) -> (b: bool)
        ensures
            b == lookup_key_ok(hash@),
    {
        let cs = chars_of(hash);
        if cs.len() != 64 {
            return false;
        }
        let mut i: usize = 0;
        while i < 64
            invariant
                i <= 64,
                cs@ == hash@,
                cs@.len() == 64,
                forall|j: int| 0 <= j < i ==> is_hex_char(#[trigger] cs@[j]),
            decreases 64 - i,
        {
            let c = cs[i];
            if !(('0' <= c && c <= '9') || ('a' <= c && c <= 'f') || ('A' <= c && c <= 'F')) {
                return false;
            }
            i += 1;
        }
        true
    }

    /// Whether stored bytes still match their key (integrity check on read).
    pub fn verifies(hash: &str, data: &[u8]) -> (b: bool)
        ensures
            b == (content_key(data@) == hash@),
    {
        let k = Self::key_of(data);
        str_eq(k.as_str(), hash)
    }
}

/// The key of any blob is a lookup key, and the blob verifies against it.
pub proof fn law_key_is_lookup_key(digest: Seq<u8>)
    requires
        digest.len() == 32,
    ensures
        lookup_key_ok(hex_of(digest)),
{
    lemma_hex_digits(digest);
}

proof fn lemma_hex_digits(b: Seq<u8>)
    ensures
        hex_of(b).len() == 2 * b.len(),
        forall|i: int| 0 <= i < hex_of(b).len() ==> is_hex_char(#[trigger] hex_of(b)[i]),
    decreases b.len(),
{
    if b.len() > 0 {
        lemma_hex_digits(b.drop_first());
        let h = hex_of(b);
        let first = seq![crate::hexcode::hex_digit(b[0] / 16), crate::hexcode::hex_digit(b[0] % 16)];
        assert forall|i: int| 0 <= i < h.len() implies is_hex_char(#[trigger] h[i]) by {
            if i >= 2 {
                assert(h[i] == hex_of(b.drop_first())[i - 2]);
            } else {
                assert(h[i] == first[i]);
            }
        }
    }
}

} // verus!
