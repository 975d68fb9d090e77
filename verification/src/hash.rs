//! The two hash primitives that the scheme is built on: the extendable-output
//! function SHAKE256 and the permutation Keccak-f[1600], on which the uniform
//! sampler builds SHAKE128 by hand.

use vstd::prelude::*;
use sha3::digest::ExtendableOutput;
use sha3::Shake256;

verus! {

/// The first `length` bytes that SHAKE256 gives out for `input`.
pub uninterp spec fn shake256_output(input: Seq<u8>, length: nat) -> Seq<u8>;

/// The 25 lanes that the permutation Keccak-f[1600] makes of the 25 lanes
/// `state`.
pub uninterp spec fn keccak_f1600(state: Seq<u64>) -> Seq<u64>;

/// `sha3::Shake256` through `digest_xof`: absorbs `input` and reads `length`
/// bytes. Believed, not proved: the bytes are those that SHAKE256 gives out
/// for this input, the same on every call, and there are `length` of them.
#[verifier::external_body]
pub(crate) fn shake256(input: &[u8], length: usize) -> (out: Vec<u8>)
    ensures
        out@ == shake256_output(input@, length as nat),
        out@.len() == length,
{
    let mut out = vec![0u8; length];
    Shake256::digest_xof(input, &mut out);
    out
}

/// `keccak::f1600`: the permutation Keccak-f[1600] of the 25 lanes. Believed,
/// not proved: the result is a function of the lanes handed in.
#[verifier::external_body]
pub(crate) fn f1600(state: [u64; 25]) -> (out: [u64; 25])
    ensures
        out@ == keccak_f1600(state@),
{
    let mut lanes = state;
    keccak::f1600(&mut lanes);
    lanes
}

/// The first `length` bytes of the SHAKE256 output for `input`: the hash
/// that derives every seed, message and shared secret of the scheme.
pub fn h(input: &[u8], length: usize) -> (out: Vec<u8>)
    ensures
        out@ == shake256_output(input@, length as nat),
        out@.len() == length,
{
    shake256(input, length)
}

/// A sequence is its first `k` entries followed by the `m` behind them,
/// where it has no more.
pub proof fn lemma_split_join(s: Seq<u8>, k: int, m: int)
    requires
        0 <= k,
        0 <= m,
        s.len() == k + m,
    ensures
        s.subrange(0, k) + s.subrange(k, k + m) == s,
{
    assert(s.subrange(0, k) + s.subrange(k, k + m) =~= s);
}

/// The 32 bytes of `bytes` from `offset` on.
pub fn block32(bytes: &[u8], offset: usize) -> (out: [u8; 32])
    requires
        offset + 32 <= bytes@.len(),
    ensures
        out@ == bytes@.subrange(offset as int, offset + 32),
{
    let mut out = [0u8; 32];
    let length = bytes.len();
    let mut i: usize = 0;
    while i < 32
        invariant
            i <= 32,
            length == bytes@.len(),
            offset + 32 <= length,
            forall|j: int| 0 <= j < i ==> out@[j] == bytes@[offset + j],
        decreases 32 - i,
    {
        out[i] = bytes[offset + i];
        i += 1;
    }
    assert(out@ =~= bytes@.subrange(offset as int, offset + 32));
    out
}

/// Appends the bytes `tail` to `bytes`.
pub fn append(bytes: &mut Vec<u8>, tail: &[u8])
    ensures
        final(bytes)@ == old(bytes)@ + tail@,
{
    let ghost before = bytes@;
    let mut i: usize = 0;
    while i < tail.len()
        invariant
            i <= tail@.len(),
            bytes@ == before + tail@.take(i as int),
        decreases tail@.len() - i,
    {
        bytes.push(tail[i]);
        assert(bytes@ =~= before + tail@.take(i + 1));
        i += 1;
    }
    assert(tail@.take(tail@.len() as int) =~= tail@);
}

} // verus!
