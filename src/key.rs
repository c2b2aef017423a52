use vstd::prelude::*;
use std::collections::hash_map::DefaultHasher;
use std::hash::Hasher;
use vstd::std_specs::hash::DefaultHasherAdditionalSpecFns;

verus! {

/// A key of the map. Keys are hashed and compared by a byte representation:
/// two keys are the same key exactly when their bytes are equal, so a lookup
/// may use any key type whose bytes agree with those of the stored key
/// (a `&str` to find a `String`, for instance).
pub trait MapKey {
    /// The byte representation by which the key is hashed and compared.
    spec fn key_bytes(&self) -> Seq<u8>;

    fn as_key_bytes(&self) -> (r: &[u8])
        ensures
            r@ == self.key_bytes(),
    ;
}

impl MapKey for str {
    open spec fn key_bytes(&self) -> Seq<u8> {
        vstd::utf8::encode_utf8(self@)
    }

    fn as_key_bytes(&self) -> (r: &[u8]) {
        self.as_bytes()
    }
}

impl MapKey for String {
    open spec fn key_bytes(&self) -> Seq<u8> {
        vstd::utf8::encode_utf8(self@)
    }

    fn as_key_bytes(&self) -> (r: &[u8]) {
        self.as_str().as_bytes()
    }
}

impl<'b, T: MapKey + ?Sized> MapKey for &'b T {
    open spec fn key_bytes(&self) -> Seq<u8> {
        (**self).key_bytes()
    }

    fn as_key_bytes(&self) -> (r: &[u8]) {
        (**self).as_key_bytes()
    }
}

/// The hash of a byte representation: one write of the bytes into a fresh
/// `DefaultHasher`, then `finish`.
pub open spec fn hash_of(b: Seq<u8>) -> u64 {
    DefaultHasher::spec_finish(seq![b])
}

/// The bucket, among `n`, that the bytes `b` belong in.
pub open spec fn slot_of(b: Seq<u8>, n: nat) -> int
    recommends
        n > 0,
{
    (hash_of(b) as nat % n) as int
}

pub fn hash_bytes(b: &[u8]) -> (r: u64)
    ensures
        r == hash_of(b@),
{
    let mut h = DefaultHasher::new();
    h.write(b);
    h.finish()
}

/// The bucket among `n` for the bytes `b`.
pub fn slot_for(b: &[u8], n: usize) -> (r: usize)
    requires
        n > 0,
    ensures
        r == slot_of(b@, n as nat),
        r < n,
{
    let h = hash_bytes(b);
    (h % (n as u64)) as usize
}

/// Byte-by-byte equality of two byte strings.
pub fn bytes_eq(a: &[u8], b: &[u8]) -> (r: bool)
    ensures
        r == (a@ == b@),
{
    if a.len() != b.len() {
        return false;
    }
    let mut i: usize = 0;
    while i < a.len()
        invariant
            a@.len() == b@.len(),
            i <= a@.len(),
            forall|j: int| 0 <= j < i ==> a@[j] == b@[j],
        decreases a@.len() - i,
    {
        if a[i] != b[i] {
            return false;
        }
        i = i + 1;
    }
    assert(a@ =~= b@);
    true
}

/// Whether two keys, possibly of different types, are the same key.
pub fn same_key<A: MapKey + ?Sized, B: MapKey + ?Sized>(a: &A, b: &B) -> (r: bool)
    ensures
        r == (a.key_bytes() == b.key_bytes()),
{
    bytes_eq(a.as_key_bytes(), b.as_key_bytes())
}

} // verus!
