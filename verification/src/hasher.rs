//! Hashing of keys.
//!
//! A [`HashBuilder`] is a pair of 64-bit seeds. Every key type that can live
//! in the map implements [`MapKey`], which ties the executable hash to a
//! specification-level function of the key's abstract view alone, so that
//! equal keys are guaranteed to hash equally under the same builder.

use vstd::prelude::*;
use vstd::string::StrSliceExecFns;

verus! {

/// A seeded hash builder: an opaque function from keys to 64-bit hashes,
/// determined by the two seed words.
#[derive(Clone, Copy)]
pub struct HashBuilder {
    pub k0: u64,
    pub k1: u64,
}

impl HashBuilder {
    /// Builds a hasher from two seed words.
    pub fn with_seeds(k0: u64, k1: u64) -> (r: HashBuilder)
        ensures
            r.k0 == k0 && r.k1 == k1,
    {
        HashBuilder { k0, k1 }
    }
}

impl Default for HashBuilder {
    /// The default builder uses fixed seeds.
    fn default() -> (r: Self)
        ensures
            r.k0 == 0x9e3779b97f4a7c15u64 && r.k1 == 0x6a09e667f3bcc909u64,
    {
        HashBuilder { k0: 0x9e3779b97f4a7c15u64, k1: 0x6a09e667f3bcc909u64 }
    }
}

/// A 64-bit finalizer: xors the seeds into the word and stirs the bits with
/// two rounds of xor-shift-multiply so that consecutive inputs spread over
/// both the high bits (segment selection) and the low bits (probe start).
pub open spec fn mix64(z: u64, k0: u64, k1: u64) -> u64 {
    let a = z ^ k0;
    let b = (a ^ (a >> 30u64)).wrapping_mul(0xbf58476d1ce4e5b9u64);
    let c = (b ^ (b >> 27u64)).wrapping_mul(0x94d049bb133111ebu64);
    (c ^ (c >> 31u64)) ^ k1
}

/// Executable form of [`mix64`].
pub fn mix64_exec(z: u64, k0: u64, k1: u64) -> (h: u64)
    ensures
        h == mix64(z, k0, k1),
{
    let a = z ^ k0;
    let b = (a ^ (a >> 30u64)).wrapping_mul(0xbf58476d1ce4e5b9u64);
    let c = (b ^ (b >> 27u64)).wrapping_mul(0x94d049bb133111ebu64);
    (c ^ (c >> 31u64)) ^ k1
}

/// A key that the map can store.
///
/// The three executable methods are specified against the key's abstract
/// view, so that two keys with equal views behave identically: they compare
/// equal and hash to the same 64-bit value under any given builder.
pub trait MapKey: View + Sized {
    /// The hash of a key view under a builder. Each implementation fixes
    /// this function; the map only relies on it being a function of the
    /// view and the seeds.
    spec fn hash_of(k: Self::V, b: HashBuilder) -> u64;

    /// Equality of keys, decided by their views.
    fn key_eq(&self, other: &Self) -> (r: bool)
        ensures
            r == (self@ == other@),
    ;

    /// The executable hash, equal to [`MapKey::hash_of`] on the key's view.
    fn key_hash(&self, b: &HashBuilder) -> (h: u64)
        ensures
            h == Self::hash_of(self@, *b),
    ;

    /// A copy of the key with the same view.
    fn key_clone(&self) -> (k: Self)
        ensures
            k@ == self@,
    ;
}

/// The hash of a character sequence: each character is stirred into the
/// running word with one round of [`mix64`].
pub open spec fn chars_hash(s: Seq<char>, b: HashBuilder) -> u64
    decreases s.len(),
{
    if s.len() == 0 {
        0
    } else {
        mix64(chars_hash(s.drop_last(), b) ^ (s.last() as u64), b.k0, b.k1)
    }
}

/// Executable form of [`chars_hash`] over a borrowed string slice.
pub fn str_hash(s: &str, b: &HashBuilder) -> (h: u64)
    ensures
        h == chars_hash(s@, *b),
{
    let n = s.unicode_len();
    let mut h: u64 = 0;
    let mut i: usize = 0;
    while i < n
        invariant
            i <= n,
            n == s@.len(),
            h == chars_hash(s@.take(i as int), *b),
        decreases n - i,
    {
        let c = s.get_char(i);
        proof {
            assert(s@.take(i as int + 1).drop_last() =~= s@.take(i as int));
            assert(s@.take(i as int + 1).last() == s@[i as int]);
        }
        h = mix64_exec(h ^ (c as u64), b.k0, b.k1);
        i += 1;
    }
    proof {
        assert(s@.take(n as int) =~= s@);
    }
    h
}

/// Executable equality of two string slices, decided by their character
/// sequences.
pub fn str_equal(s: &str, t: &str) -> (r: bool)
    ensures
        r == (s@ == t@),
{
    let n = s.unicode_len();
    let m = t.unicode_len();
    if n != m {
        proof {
            if s@ == t@ {
                assert(s@.len() == t@.len());
            }
        }
        return false;
    }
    let mut i: usize = 0;
    while i < n
        invariant
            i <= n,
            n == s@.len(),
            n == t@.len(),
            forall|j: int| 0 <= j < i ==> s@[j] == t@[j],
        decreases n - i,
    {
        let a = s.get_char(i);
        let c = t.get_char(i);
        if a != c {
            proof {
                assert(s@[i as int] != t@[i as int]);
            }
            return false;
        }
        i += 1;
    }
    proof {
        assert(s@ =~= t@);
    }
    true
}

impl MapKey for String {
    open spec fn hash_of(k: Seq<char>, b: HashBuilder) -> u64 {
        chars_hash(k, b)
    }

    fn key_eq(&self, other: &Self) -> (r: bool) {
        str_equal(self.as_str(), other.as_str())
    }

    fn key_hash(&self, b: &HashBuilder) -> (h: u64) {
        str_hash(self.as_str(), b)
    }

    fn key_clone(&self) -> (k: Self) {
        self.clone()
    }
}

impl<'s> MapKey for &'s str {
    open spec fn hash_of(k: Seq<char>, b: HashBuilder) -> u64 {
        chars_hash(k, b)
    }

    fn key_eq(&self, other: &Self) -> (r: bool) {
        str_equal(*self, *other)
    }

    fn key_hash(&self, b: &HashBuilder) -> (h: u64) {
        str_hash(*self, b)
    }

    fn key_clone(&self) -> (k: Self) {
        *self
    }
}

impl MapKey for u64 {
    open spec fn hash_of(k: u64, b: HashBuilder) -> u64 {
        mix64(k, b.k0, b.k1)
    }

    fn key_eq(&self, other: &Self) -> (r: bool) {
        *self == *other
    }

    fn key_hash(&self, b: &HashBuilder) -> (h: u64) {
        mix64_exec(*self, b.k0, b.k1)
    }

    fn key_clone(&self) -> (k: Self) {
        *self
    }
}

impl MapKey for u32 {
    open spec fn hash_of(k: u32, b: HashBuilder) -> u64 {
        mix64(k as u64, b.k0, b.k1)
    }

    fn key_eq(&self, other: &Self) -> (r: bool) {
        *self == *other
    }

    fn key_hash(&self, b: &HashBuilder) -> (h: u64) {
        mix64_exec(*self as u64, b.k0, b.k1)
    }

    fn key_clone(&self) -> (k: Self) {
        *self
    }
}

impl MapKey for usize {
    open spec fn hash_of(k: usize, b: HashBuilder) -> u64 {
        mix64(k as u64, b.k0, b.k1)
    }

    fn key_eq(&self, other: &Self) -> (r: bool) {
        *self == *other
    }

    fn key_hash(&self, b: &HashBuilder) -> (h: u64) {
        mix64_exec(*self as u64, b.k0, b.k1)
    }

    fn key_clone(&self) -> (k: Self) {
        *self
    }
}

impl MapKey for u16 {
    open spec fn hash_of(k: u16, b: HashBuilder) -> u64 {
        mix64(k as u64, b.k0, b.k1)
    }

    fn key_eq(&self, other: &Self) -> (r: bool) {
        *self == *other
    }

    fn key_hash(&self, b: &HashBuilder) -> (h: u64) {
        mix64_exec(#[verifier::truncate] (*self as u64), b.k0, b.k1)
    }

    fn key_clone(&self) -> (k: Self) {
        *self
    }
}

impl MapKey for u8 {
    open spec fn hash_of(k: u8, b: HashBuilder) -> u64 {
        mix64(k as u64, b.k0, b.k1)
    }

    fn key_eq(&self, other: &Self) -> (r: bool) {
        *self == *other
    }

    fn key_hash(&self, b: &HashBuilder) -> (h: u64) {
        mix64_exec(#[verifier::truncate] (*self as u64), b.k0, b.k1)
    }

    fn key_clone(&self) -> (k: Self) {
        *self
    }
}

impl MapKey for i64 {
    open spec fn hash_of(k: i64, b: HashBuilder) -> u64 {
        mix64(k as u64, b.k0, b.k1)
    }

    fn key_eq(&self, other: &Self) -> (r: bool) {
        *self == *other
    }

    fn key_hash(&self, b: &HashBuilder) -> (h: u64) {
        mix64_exec(#[verifier::truncate] (*self as u64), b.k0, b.k1)
    }

    fn key_clone(&self) -> (k: Self) {
        *self
    }
}

impl MapKey for i32 {
    open spec fn hash_of(k: i32, b: HashBuilder) -> u64 {
        mix64(k as u64, b.k0, b.k1)
    }

    fn key_eq(&self, other: &Self) -> (r: bool) {
        *self == *other
    }

    fn key_hash(&self, b: &HashBuilder) -> (h: u64) {
        mix64_exec(#[verifier::truncate] (*self as u64), b.k0, b.k1)
    }

    fn key_clone(&self) -> (k: Self) {
        *self
    }
}

} // verus!
