//! Shared pieces of the contract bindings: prepared calls, deployment
//! requests, and 32-byte ABI word encoding.

use vstd::prelude::*;

use crate::types::{Address, ADDRESS_BYTES};

verus! {

/// A prepared contract call: the target address and the call data (the
/// 4-byte selector followed by the ABI-encoded arguments).
pub struct ContractCall {
    pub address: Address,
    pub calldata: Vec<u8>,
}

/// A prepared deployment: the ABI-encoded constructor arguments to append
/// to the contract's creation code.
pub struct ContractDeployer {
    pub constructor_calldata: Vec<u8>,
}

/// Why call data failed to decode.
#[derive(Clone, Copy, Debug, PartialEq, Eq, Structural)]
pub enum AbiError {
    /// The data matches no known selector or malforms its arguments.
    InvalidData,
}

/// The `n`-byte big-endian encoding of `v` (modulo 256^n).
pub open spec fn spec_word_bytes(v: nat, n: nat) -> Seq<u8>
    decreases n,
{
    if n == 0 {
        Seq::empty()
    } else {
        spec_word_bytes(v / 256, (n - 1) as nat) + seq![(v % 256) as u8]
    }
}

/// A 32-byte ABI word holding an unsigned number.
pub open spec fn spec_uint_word(v: nat) -> Seq<u8> {
    spec_word_bytes(v, 32)
}

/// A 32-byte ABI word holding an address: twelve zero bytes, then the
/// twenty address bytes.
pub open spec fn spec_address_word(a: Seq<u8>) -> Seq<u8> {
    Seq::new(12, |i: int| 0u8) + a
}

/// Encodes `v` as `n` big-endian bytes.
pub fn word_bytes(v: u128, n: usize) -> (r: Vec<u8>)
    ensures
        r@ == spec_word_bytes(v as nat, n as nat),
        r@.len() == n,
    decreases n,
{
    if n == 0 {
        let r: Vec<u8> = Vec::new();
        proof {
            assert(r@ =~= spec_word_bytes(v as nat, 0));
        }
        r
    } else {
        let mut r = word_bytes(v / 256, n - 1);
        r.push((v % 256) as u8);
        proof {
            assert(r@ =~= spec_word_bytes(v as nat, n as nat));
        }
        r
    }
}

/// Encodes an address as its 32-byte ABI word.
pub fn address_word(a: &Address) -> (r: Vec<u8>)
    requires
        a.wf(),
    ensures
        r@ == spec_address_word(a@),
        r@.len() == 32,
{
    let mut r: Vec<u8> = Vec::new();
    let mut i: usize = 0;
    while i < 12
        invariant
            i <= 12,
            r@.len() == i,
            forall|j: int| 0 <= j < i ==> r@[j] == 0u8,
        decreases 12 - i,
    {
        r.push(0u8);
        i = i + 1;
    }
    let bytes = a.as_bytes();
    let mut j: usize = 0;
    let ghost zeros = r@;
    while j < bytes.len()
        invariant
            j <= bytes@.len(),
            zeros.len() == 12,
            forall|q: int| 0 <= q < 12 ==> zeros[q] == 0u8,
            r@ == zeros + bytes@.take(j as int),
        decreases bytes@.len() - j,
    {
        r.push(bytes[j]);
        proof {
            assert(r@ =~= zeros + bytes@.take(j + 1));
        }
        j = j + 1;
    }
    proof {
        assert(bytes@.take(bytes@.len() as int) =~= bytes@);
        assert(zeros =~= Seq::new(12, |i: int| 0u8));
        assert(r@ =~= spec_address_word(a@));
    }
    r
}

/// Appends `src` onto `dst`.
pub fn append_bytes(dst: &mut Vec<u8>, src: &Vec<u8>)
    ensures
        final(dst)@ == old(dst)@ + src@,
{
    let ghost base = dst@;
    let mut i: usize = 0;
    while i < src.len()
        invariant
            i <= src@.len(),
            dst@ == base + src@.take(i as int),
        decreases src@.len() - i,
    {
        dst.push(src[i]);
        proof {
            assert(dst@ =~= base + src@.take(i + 1));
        }
        i = i + 1;
    }
    proof {
        assert(src@.take(src@.len() as int) =~= src@);
    }
}

/// The address held in a 32-byte ABI word: its last twenty bytes.
pub open spec fn spec_word_address(w: Seq<u8>) -> Seq<u8> {
    w.skip(12)
}

/// Extracts the address of a 32-byte ABI word slice of `data` starting at
/// `start`.
pub fn read_word_address(data: &Vec<u8>, start: usize) -> (r: Address)
    requires
        start + 32 <= data@.len(),
    ensures
        r.wf(),
        r@ == spec_word_address(data@.subrange(start as int, start + 32)),
{
    let n = data.len();
    let mut bytes: Vec<u8> = Vec::new();
    let mut i: usize = 0;
    while i < ADDRESS_BYTES
        invariant
            i <= ADDRESS_BYTES,
            n == data@.len(),
            start + 32 <= n,
            bytes@.len() == i,
            forall|j: int| 0 <= j < i ==> bytes@[j] == data@[start + 12 + j],
        decreases ADDRESS_BYTES - i,
    {
        bytes.push(data[start + 12 + i]);
        i = i + 1;
    }
    let r = Address::new(bytes);
    proof {
        assert(r@ =~= data@.subrange(start as int, start + 32).skip(12));
    }
    r
}

/// Copies the 32-byte ABI word slice of `data` starting at `start`.
pub fn read_word(data: &Vec<u8>, start: usize) -> (r: Vec<u8>)
    requires
        start + 32 <= data@.len(),
    ensures
        r@ == data@.subrange(start as int, start + 32),
        r@.len() == 32,
{
    let n = data.len();
    let mut w: Vec<u8> = Vec::new();
    let mut i: usize = 0;
    while i < 32
        invariant
            i <= 32,
            n == data@.len(),
            start + 32 <= n,
            w@.len() == i,
            forall|j: int| 0 <= j < i ==> w@[j] == data@[start + j],
        decreases 32 - i,
    {
        w.push(data[start + i]);
        i = i + 1;
    }
    proof {
        assert(w@ =~= data@.subrange(start as int, start + 32));
    }
    w
}

} // verus!
