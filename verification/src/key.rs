//! Key capabilities for the hash table.
//!
//! A key type must offer a deterministic hash and an equality test, both
//! pinned to the key's abstract value (its view). A lookup type stands for
//! an owned key of a possibly different type: it hashes the same way and can
//! be compared against owned keys, which gives borrowed-key lookup.
use vstd::prelude::*;

verus! {

use vstd::utf8::encode_utf8;
use vstd::utf8::encode_utf8_decode_utf8;

/// An owned key of the table: hashable and comparable, with both operations
/// determined by the key's abstract value `Self::V`.
pub trait HashKey: View + Sized {
    /// The hash of a key, as a function of its abstract value alone.
    spec fn hash_of(key: Self::V) -> u64;

    /// Computes the key's hash.
    fn hash_code(&self) -> (h: u64)
        ensures
            h == Self::hash_of(self@),
    ;

    /// Decides equality of abstract values.
    fn key_eq(&self, other: &Self) -> (r: bool)
        ensures
            r == (self@ == other@),
    ;
}

/// A lookup key for tables keyed by `K`: a value of a different type that
/// stands for an owned key, hashing the same way and comparable against
/// owned keys.
pub trait LookupKey<K: HashKey>: Sized {
    /// The abstract value of the owned key this lookup key stands for.
    spec fn lookup_view(&self) -> K::V;

    /// Computes the hash the owned key would have.
    fn lookup_hash(&self) -> (h: u64)
        ensures
            h == K::hash_of(self.lookup_view()),
    ;

    /// Decides whether this lookup key stands for the given owned key.
    fn matches_key(&self, key: &K) -> (r: bool)
        ensures
            r == (self.lookup_view() == key@),
    ;
}

/// Every owned key is a lookup key for itself.
impl<K: HashKey> LookupKey<K> for K {
    open spec fn lookup_view(&self) -> K::V {
        self.view()
    }

    fn lookup_hash(&self) -> (h: u64) {
        self.hash_code()
    }

    fn matches_key(&self, key: &K) -> (r: bool) {
        self.key_eq(key)
    }
}

pub const FNV_OFFSET: u64 = 0xcbf2_9ce4_8422_2325;

pub const FNV_PRIME: u64 = 0x0000_0100_0000_01b3;

/// The Fowler-Noll-Vo hash of a byte sequence.
pub open spec fn fnv64(bytes: Seq<u8>) -> u64
    decreases bytes.len(),
{
    if bytes.len() == 0 {
        FNV_OFFSET
    } else {
        (fnv64(bytes.drop_last()) ^ (bytes.last() as u64)).wrapping_mul(FNV_PRIME)
    }
}

/// The hash of a character sequence: the byte hash of its UTF-8 encoding.
pub open spec fn str_hash(s: Seq<char>) -> u64 {
    fnv64(encode_utf8(s))
}

/// Computes `fnv64` over a byte slice.
fn fnv64_bytes(bytes: &[u8]) -> (h: u64)
    ensures
        h == fnv64(bytes@),
{
    let mut h: u64 = FNV_OFFSET;
    let n = bytes.len();
    let mut i: usize = 0;
    while i < n
        invariant
            i <= n,
            n == bytes@.len(),
            h == fnv64(bytes@.take(i as int)),
        decreases n - i,
    {
        h = (h ^ (bytes[i] as u64)).wrapping_mul(FNV_PRIME);
        proof {
            assert(bytes@.take(i + 1).drop_last() =~= bytes@.take(i as int));
            assert(bytes@.take(i + 1).last() == bytes@[i as int]);
        }
        i = i + 1;
    }
    proof {
        assert(bytes@.take(n as int) =~= bytes@);
    }
    h
}

/// Computes `str_hash` of a string slice.
fn hash_str(s: &str) -> (h: u64)
    ensures
        h == str_hash(s@),
{
    fnv64_bytes(s.as_bytes())
}

/// Decides equality of the character sequences of two string slices by
/// comparing their UTF-8 bytes.
fn str_eq(a: &str, b: &str) -> (r: bool)
    ensures
        r == (a@ == b@),
{
    proof {
        encode_utf8_decode_utf8(a@);
        encode_utf8_decode_utf8(b@);
    }
    let ab = a.as_bytes();
    let bb = b.as_bytes();
    if ab.len() != bb.len() {
        return false;
    }
    let n = ab.len();
    let mut i: usize = 0;
    while i < n
        invariant
            i <= n,
            n == ab@.len() == bb@.len(),
            ab@ == encode_utf8(a@),
            bb@ == encode_utf8(b@),
            vstd::utf8::decode_utf8(encode_utf8(a@)) == a@,
            vstd::utf8::decode_utf8(encode_utf8(b@)) == b@,
            forall|j: int| 0 <= j < i ==> ab@[j] == bb@[j],
        decreases n - i,
    {
        if ab[i] != bb[i] {
            return false;
        }
        i = i + 1;
    }
    proof {
        assert(ab@ =~= bb@);
    }
    true
}

impl HashKey for u64 {
    open spec fn hash_of(key: u64) -> u64 {
        key.wrapping_mul(0x9e37_79b9_7f4a_7c15)
    }

    fn hash_code(&self) -> (h: u64) {
        self.wrapping_mul(0x9e37_79b9_7f4a_7c15)
    }

    fn key_eq(&self, other: &Self) -> (r: bool) {
        *self == *other
    }
}

impl HashKey for u32 {
    open spec fn hash_of(key: u32) -> u64 {
        (key as u64).wrapping_mul(0x9e37_79b9_7f4a_7c15)
    }

    fn hash_code(&self) -> (h: u64) {
        (*self as u64).wrapping_mul(0x9e37_79b9_7f4a_7c15)
    }

    fn key_eq(&self, other: &Self) -> (r: bool) {
        *self == *other
    }
}

impl HashKey for usize {
    open spec fn hash_of(key: usize) -> u64 {
        (key as u64).wrapping_mul(0x9e37_79b9_7f4a_7c15)
    }

    fn hash_code(&self) -> (h: u64) {
        (*self as u64).wrapping_mul(0x9e37_79b9_7f4a_7c15)
    }

    fn key_eq(&self, other: &Self) -> (r: bool) {
        *self == *other
    }
}

impl HashKey for String {
    open spec fn hash_of(key: Seq<char>) -> u64 {
        str_hash(key)
    }

    fn hash_code(&self) -> (h: u64) {
        hash_str(self.as_str())
    }

    fn key_eq(&self, other: &Self) -> (r: bool) {
        str_eq(self.as_str(), other.as_str())
    }
}

impl<'s> HashKey for &'s str {
    open spec fn hash_of(key: Seq<char>) -> u64 {
        str_hash(key)
    }

    fn hash_code(&self) -> (h: u64) {
        hash_str(*self)
    }

    fn key_eq(&self, other: &Self) -> (r: bool) {
        str_eq(*self, *other)
    }
}

/// A string slice can look up entries of a `String`-keyed table.
impl<'s> LookupKey<String> for &'s str {
    open spec fn lookup_view(&self) -> Seq<char> {
        self.view()
    }

    fn lookup_hash(&self) -> (h: u64) {
        hash_str(*self)
    }

    fn matches_key(&self, key: &String) -> (r: bool) {
        str_eq(*self, key.as_str())
    }
}

} // verus!
