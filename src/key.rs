use vstd::prelude::*;

verus! {

/// Big-endian bytes of `x`, `n` of them: the last byte is `x % 256`.
pub open spec fn be_bytes(x: nat, n: nat) -> Seq<u8>
    decreases n,
{
    if n == 0 {
        Seq::empty()
    } else {
        be_bytes(x / 256, (n - 1) as nat).push((x % 256) as u8)
    }
}

fn be_bytes_of(x: u128, n: usize) -> (r: Vec<u8>)
    ensures
        r@ == be_bytes(x as nat, n as nat),
    decreases n,
{
    if n == 0 {
        Vec::new()
    } else {
        let mut r = be_bytes_of(x / 256, n - 1);
        r.push((x % 256) as u8);
        r
    }
}

/// A key type with the byte string under which the tree stores it: lexicographic order on
/// the bytes is the intended order of the keys.
pub trait ArtKey {
    spec fn key_bytes(&self) -> Seq<u8>;

    fn bytes(&self) -> (r: Vec<u8>)
        ensures
            r@ == self.key_bytes(),
    ;
}

impl ArtKey for u8 {
    open spec fn key_bytes(&self) -> Seq<u8> {
        be_bytes(*self as nat, 1)
    }

    fn bytes(&self) -> (r: Vec<u8>) {
        be_bytes_of(*self as u128, 1)
    }
}

impl ArtKey for u16 {
    open spec fn key_bytes(&self) -> Seq<u8> {
        be_bytes(*self as nat, 2)
    }

    fn bytes(&self) -> (r: Vec<u8>) {
        be_bytes_of(*self as u128, 2)
    }
}

impl ArtKey for u32 {
    open spec fn key_bytes(&self) -> Seq<u8> {
        be_bytes(*self as nat, 4)
    }

    fn bytes(&self) -> (r: Vec<u8>) {
        be_bytes_of(*self as u128, 4)
    }
}

impl ArtKey for u64 {
    open spec fn key_bytes(&self) -> Seq<u8> {
        be_bytes(*self as nat, 8)
    }

    fn bytes(&self) -> (r: Vec<u8>) {
        be_bytes_of(*self as u128, 8)
    }
}

impl ArtKey for u128 {
    open spec fn key_bytes(&self) -> Seq<u8> {
        be_bytes(*self as nat, 16)
    }

    fn bytes(&self) -> (r: Vec<u8>) {
        be_bytes_of(*self, 16)
    }
}

/// A machine word is stored under as many bytes as it has.
impl ArtKey for usize {
    open spec fn key_bytes(&self) -> Seq<u8> {
        be_bytes(*self as nat, (usize::BITS / 8) as nat)
    }

    fn bytes(&self) -> (r: Vec<u8>) {
        be_bytes_of(*self as u128, (usize::BITS / 8) as usize)
    }
}

impl ArtKey for isize {
    open spec fn key_bytes(&self) -> Seq<u8> {
        be_bytes((*self as usize) as nat, (usize::BITS / 8) as nat)
    }

    fn bytes(&self) -> (r: Vec<u8>) {
        be_bytes_of((*self as usize) as u128, (usize::BITS / 8) as usize)
    }
}

/// Signed keys use the two's-complement bytes, as `to_be_bytes` gives them.
impl ArtKey for i8 {
    open spec fn key_bytes(&self) -> Seq<u8> {
        be_bytes((*self as u8) as nat, 1)
    }

    fn bytes(&self) -> (r: Vec<u8>) {
        be_bytes_of((*self as u8) as u128, 1)
    }
}

impl ArtKey for i16 {
    open spec fn key_bytes(&self) -> Seq<u8> {
        be_bytes((*self as u16) as nat, 2)
    }

    fn bytes(&self) -> (r: Vec<u8>) {
        be_bytes_of((*self as u16) as u128, 2)
    }
}

impl ArtKey for i32 {
    open spec fn key_bytes(&self) -> Seq<u8> {
        be_bytes((*self as u32) as nat, 4)
    }

    fn bytes(&self) -> (r: Vec<u8>) {
        be_bytes_of((*self as u32) as u128, 4)
    }
}

impl ArtKey for i64 {
    open spec fn key_bytes(&self) -> Seq<u8> {
        be_bytes((*self as u64) as nat, 8)
    }

    fn bytes(&self) -> (r: Vec<u8>) {
        be_bytes_of((*self as u64) as u128, 8)
    }
}

impl ArtKey for i128 {
    open spec fn key_bytes(&self) -> Seq<u8> {
        be_bytes((*self as u128) as nat, 16)
    }

    fn bytes(&self) -> (r: Vec<u8>) {
        be_bytes_of(*self as u128, 16)
    }
}

/// A string is stored under its UTF-8 bytes.
impl ArtKey for String {
    open spec fn key_bytes(&self) -> Seq<u8> {
        vstd::utf8::encode_utf8(self@)
    }

    fn bytes(&self) -> (r: Vec<u8>) {
        vstd::slice::slice_to_vec(self.as_str().as_bytes())
    }
}

/// A byte string is stored as it is.
impl ArtKey for Vec<u8> {
    open spec fn key_bytes(&self) -> Seq<u8> {
        self@
    }

    fn bytes(&self) -> (r: Vec<u8>) {
        vstd::slice::slice_to_vec(self.as_slice())
    }
}

pub proof fn lemma_be_bytes_len(x: nat, n: nat)
    ensures
        be_bytes(x, n).len() == n,
    decreases n,
{
    if n > 0 {
        lemma_be_bytes_len(x / 256, (n - 1) as nat);
    }
}

} // verus!
