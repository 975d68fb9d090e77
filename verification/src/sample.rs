//! The two samplers: the uniform polynomial that a public seed expands to, by
//! rejection on the output of SHAKE128, and the small noise polynomial, by
//! the difference of the bit counts of two bytes of SHAKE256 output.

use vstd::prelude::*;
use core::marker::PhantomData;
use crate::coefficient::{Coefficient, residue};
use crate::hash::{f1600, keccak_f1600, shake256, shake256_output};
use crate::poly::{Poly, PolyState, widened};
use crate::sizes::PolySize;

verus! {

/// How many blocks of SHAKE128 output `Poly::expands` reads at most for 64
/// coefficients before it gives up.
pub const SQUEEZE_LIMIT: usize = 256;

/// The lane of eight bytes, the first being the lowest.
pub open spec fn lane_of_bytes(
    b0: u8,
    b1: u8,
    b2: u8,
    b3: u8,
    b4: u8,
    b5: u8,
    b6: u8,
    b7: u8,
) -> u64 {
    (b0 as u64) | ((b1 as u64) << 8) | ((b2 as u64) << 16) | ((b3 as u64) << 24) | ((b4 as u64)
        << 32) | ((b5 as u64) << 40) | ((b6 as u64) << 48) | ((b7 as u64) << 56)
}

/// Lane `k` of the state that SHAKE128 permutes first for the 33 bytes
/// `seed`, `block`: the bytes, the suffix 0x1f behind them, and the closing
/// bit 0x80 in the last byte of the 168 that are absorbed.
pub open spec fn absorbed_lane(seed: Seq<u8>, block: u8, k: int) -> u64 {
    if 0 <= k < 4 {
        lane_of_bytes(
            seed[8 * k],
            seed[8 * k + 1],
            seed[8 * k + 2],
            seed[8 * k + 3],
            seed[8 * k + 4],
            seed[8 * k + 5],
            seed[8 * k + 6],
            seed[8 * k + 7],
        )
    } else if k == 4 {
        (block as u64) | 0x1f00u64
    } else if k == 20 {
        0x8000_0000_0000_0000u64
    } else {
        0u64
    }
}

/// The 25 lanes that SHAKE128 permutes first for `seed`, `block`.
pub open spec fn absorbed(seed: Seq<u8>, block: u8) -> Seq<u64> {
    Seq::new(25, |k: int| absorbed_lane(seed, block, k))
}

/// The state that holds output block `k` of the sponge that starts from
/// `init`: `init` after `k + 1` permutations.
pub open spec fn squeezed(init: Seq<u64>, k: nat) -> Seq<u64>
    decreases k,
{
    if k == 0 {
        keccak_f1600(init)
    } else {
        keccak_f1600(squeezed(init, (k - 1) as nat))
    }
}

/// Candidate `c` of the 84 that one output block holds: bytes `2 c` and
/// `2 c + 1` of the 168, the first being the lower half.
pub open spec fn candidate(state: Seq<u64>, c: int) -> u16 {
    ((state[c / 4] >> ((16 * (c % 4)) as u64)) & 0xffffu64) as u16
}

/// A candidate is accepted when it is below 5 q.
pub open spec fn acceptable(r: u16) -> bool {
    r < 61445
}

/// The accepted ones among the first `c` candidates of a block, in order.
pub open spec fn accepted(state: Seq<u64>, c: nat) -> Seq<u16>
    decreases c,
{
    if c == 0 {
        Seq::empty()
    } else {
        let before = accepted(state, (c - 1) as nat);
        let r = candidate(state, c - 1);
        if acceptable(r) {
            before.push(r)
        } else {
            before
        }
    }
}

/// The accepted candidates of the first `k` output blocks, in order.
pub open spec fn stream(init: Seq<u64>, k: nat) -> Seq<u16>
    decreases k,
{
    if k == 0 {
        Seq::empty()
    } else {
        stream(init, (k - 1) as nat) + accepted(squeezed(init, (k - 1) as nat), 84)
    }
}

/// The sequence `s` cut off behind 64 entries.
pub open spec fn first_64(s: Seq<u16>) -> Seq<u16> {
    if s.len() <= 64 {
        s
    } else {
        s.take(64)
    }
}

/// The sponge that starts from `init` gives 64 accepted candidates within
/// its first `k` output blocks.
pub open spec fn fills_within(init: Seq<u64>, k: nat) -> bool {
    stream(init, k).len() >= 64
}

/// The sponge that starts from `init` gives 64 accepted candidates at all.
pub open spec fn fills(init: Seq<u64>) -> bool {
    exists|k: nat| fills_within(init, k)
}

/// The first 64 accepted candidates of the sponge that starts from `init`.
pub open spec fn block_values(init: Seq<u64>) -> Seq<u16> {
    first_64(stream(init, choose|k: nat| fills_within(init, k)))
}

/// The seed expands to a uniform polynomial of `n` coefficients: every one
/// of its blocks of 64 gets filled.
pub open spec fn uniform_defined(seed: Seq<u8>, n: nat) -> bool {
    forall|b: int| 0 <= b < n / 64 ==> fills(#[trigger] absorbed(seed, b as u8))
}

/// The seed expands to a uniform polynomial of `n` coefficients with no
/// more than `limit` output blocks read for any block of 64.
pub open spec fn uniform_within(seed: Seq<u8>, n: nat, limit: nat) -> bool {
    forall|b: int| 0 <= b < n / 64 ==> fills_within(#[trigger] absorbed(seed, b as u8), limit)
}

/// The values that the uniform polynomial of `n` coefficients stores for
/// `seed`: block `b` of 64 holds the first 64 accepted candidates of
/// SHAKE128 on the seed followed by the byte `b`.
pub open spec fn uniform_values(seed: Seq<u8>, n: nat) -> Seq<u16> {
    Seq::new(n, |i: int| block_values(absorbed(seed, (i / 64) as u8))[i % 64])
}

/// The residues of the uniform polynomial of `n` coefficients for `seed`.
pub open spec fn uniform_spec(seed: Seq<u8>, n: nat) -> Seq<int> {
    Seq::new(n, |i: int| residue(uniform_values(seed, n)[i] as int))
}

/// The number of set bits of a byte.
pub open spec fn hamming_weight(b: u8) -> int {
    (b & 1) + ((b >> 1) & 1) + ((b >> 2) & 1) + ((b >> 3) & 1) + ((b >> 4) & 1) + ((b >> 5) & 1)
        + ((b >> 6) & 1) + ((b >> 7) & 1)
}

/// The bytes that SHAKE256 absorbs for block `block` of the noise
/// polynomial with the number `nonce`.
pub open spec fn noise_input(seed: Seq<u8>, nonce: u8, block: u8) -> Seq<u8> {
    seed + seq![nonce, block]
}

/// The values that 128 bytes give for one block of 64 noise coefficients:
/// q plus the bit count of an even byte minus that of the odd byte behind it.
pub open spec fn binomial_values(buffer: Seq<u8>) -> Seq<int> {
    Seq::new(
        64,
        |j: int| 12289 + hamming_weight(buffer[2 * j]) - hamming_weight(buffer[2 * j + 1]),
    )
}

/// The values that the noise polynomial of `n` coefficients with the number
/// `nonce` stores for `seed`: q plus a difference of two bit counts each,
/// not reduced.
pub open spec fn sample_values(seed: Seq<u8>, nonce: u8, n: nat) -> Seq<int> {
    Seq::new(
        n,
        |i: int|
            binomial_values(shake256_output(noise_input(seed, nonce, (i / 64) as u8), 128))[i % 64],
    )
}

/// The residues of the noise polynomial of `n` coefficients with the number
/// `nonce` for `seed`.
pub open spec fn sample_spec(seed: Seq<u8>, nonce: u8, n: nat) -> Seq<int> {
    Seq::new(
        n,
        |i: int|
            residue(
                binomial_values(shake256_output(noise_input(seed, nonce, (i / 64) as u8), 128))[i
                    % 64],
            ),
    )
}

/// Every accepted candidate is below 5 q.
pub proof fn lemma_accepted_bound(state: Seq<u64>, c: nat)
    ensures
        forall|i: int| 0 <= i < accepted(state, c).len() ==> #[trigger] accepted(state, c)[i] < 61445,
    decreases c,
{
    if c > 0 {
        lemma_accepted_bound(state, (c - 1) as nat);
        let before = accepted(state, (c - 1) as nat);
        assert forall|i: int| 0 <= i < accepted(state, c).len() implies #[trigger] accepted(
            state,
            c,
        )[i] < 61445 by {
            if i < before.len() {
                assert(accepted(state, c)[i] == before[i]);
            }
        }
    }
}

/// Every entry of the stream of accepted candidates is below 5 q.
pub proof fn lemma_stream_bound(init: Seq<u64>, k: nat)
    ensures
        forall|i: int| 0 <= i < stream(init, k).len() ==> #[trigger] stream(init, k)[i] < 61445,
    decreases k,
{
    if k > 0 {
        lemma_stream_bound(init, (k - 1) as nat);
        lemma_accepted_bound(squeezed(init, (k - 1) as nat), 84);
        let before = stream(init, (k - 1) as nat);
        let block = accepted(squeezed(init, (k - 1) as nat), 84);
        assert forall|i: int| 0 <= i < stream(init, k).len() implies #[trigger] stream(init, k)[i]
            < 61445 by {
            if i < before.len() {
                assert(stream(init, k)[i] == before[i]);
            } else {
                assert(stream(init, k)[i] == block[i - before.len()]);
            }
        }
    }
}

/// Every value that the uniform polynomial stores is below 5 q.
pub proof fn lemma_uniform_values_bound(seed: Seq<u8>, n: nat)
    requires
        n % 64 == 0,
        uniform_defined(seed, n),
    ensures
        forall|i: int| 0 <= i < n ==> #[trigger] uniform_values(seed, n)[i] < 61445,
{
    assert forall|i: int| 0 <= i < n implies #[trigger] uniform_values(seed, n)[i] < 61445 by {
        let b = i / 64;
        assert(0 <= b < n / 64);
        let init = absorbed(seed, b as u8);
        assert(fills(init));
        let k = choose|k: nat| fills_within(init, k);
        lemma_stream_bound(init, k);
        assert(0 <= i % 64 < 64);
        assert(block_values(init)[i % 64] == stream(init, k)[i % 64]);
    }
}

/// The stream of accepted candidates only grows: what the first `j` blocks
/// give is the beginning of what the first `k` give.
pub proof fn lemma_stream_prefix(init: Seq<u64>, j: nat, k: nat)
    requires
        j <= k,
    ensures
        stream(init, j).len() <= stream(init, k).len(),
        stream(init, k).take(stream(init, j).len() as int) == stream(init, j),
    decreases k - j,
{
    if j == k {
        assert(stream(init, k).take(stream(init, k).len() as int) =~= stream(init, k));
    } else {
        lemma_stream_prefix(init, j, (k - 1) as nat);
        let a = stream(init, (k - 1) as nat);
        let b = accepted(squeezed(init, (k - 1) as nat), 84);
        assert((a + b).take(stream(init, j).len() as int) =~= a.take(stream(init, j).len() as int));
    }
}

/// Where some number of blocks fills the 64, the first 64 accepted
/// candidates do not depend on how many blocks are looked at.
pub proof fn lemma_block_values(init: Seq<u64>, k: nat)
    requires
        fills_within(init, k),
    ensures
        fills(init),
        block_values(init) == first_64(stream(init, k)),
        block_values(init).len() == 64,
{
    let c = choose|c: nat| fills_within(init, c);
    let sk = stream(init, k);
    let sc = stream(init, c);
    if c <= k {
        lemma_stream_prefix(init, c, k);
        assert(sk.take(64) =~= sk.take(sc.len() as int).take(64));
    } else {
        lemma_stream_prefix(init, k, c);
        assert(sc.take(64) =~= sc.take(sk.len() as int).take(64));
    }
    assert(sk.take(64) == sc.take(64));
    assert(first_64(sk) =~= sk.take(64));
    assert(first_64(sc) =~= sc.take(64));
}

/// Expansion within a limit is expansion.
pub proof fn lemma_uniform_within(seed: Seq<u8>, n: nat, limit: nat)
    requires
        uniform_within(seed, n, limit),
    ensures
        uniform_defined(seed, n),
{
    assert forall|b: int| 0 <= b < n / 64 implies fills(#[trigger] absorbed(seed, b as u8)) by {
        lemma_block_values(absorbed(seed, b as u8), limit);
    }
}

/// The number of set bits of a byte.
pub fn count_bits(b: u8) -> (r: i8)
    ensures
        r == hamming_weight(b),
        0 <= r <= 8,
{
    let b0 = b & 1;
    let b1 = (b >> 1) & 1;
    let b2 = (b >> 2) & 1;
    let b3 = (b >> 3) & 1;
    let b4 = (b >> 4) & 1;
    let b5 = (b >> 5) & 1;
    let b6 = (b >> 6) & 1;
    let b7 = (b >> 7) & 1;
    assert(b0 <= 1 && b1 <= 1 && b2 <= 1 && b3 <= 1 && b4 <= 1 && b5 <= 1 && b6 <= 1 && b7 <= 1)
        by (bit_vector)
        requires
            b0 == b & 1,
            b1 == (b >> 1) & 1,
            b2 == (b >> 2) & 1,
            b3 == (b >> 3) & 1,
            b4 == (b >> 4) & 1,
            b5 == (b >> 5) & 1,
            b6 == (b >> 6) & 1,
            b7 == (b >> 7) & 1,
    ;
    (b0 + b1 + b2 + b3 + b4 + b5 + b6 + b7) as i8
}

/// The 64 noise coefficients that 128 bytes of hash output give.
pub fn binomial_block(buffer: &[u8]) -> (r: Vec<Coefficient>)
    requires
        buffer@.len() == 128,
    ensures
        r@.len() == 64,
        forall|j: int| 0 <= j < 64 ==> (#[trigger] r@[j]).raw() == binomial_values(buffer@)[j],
{
    let mut r: Vec<Coefficient> = Vec::with_capacity(64);
    let mut j: usize = 0;
    while j < 64
        invariant
            buffer@.len() == 128,
            j <= 64,
            r@.len() == j,
            forall|i: int| 0 <= i < j ==> (#[trigger] r@[i]).raw() == binomial_values(buffer@)[i],
        decreases 64 - j,
    {
        let s = count_bits(buffer[2 * j]) - count_bits(buffer[2 * j + 1]);
        r.push(Coefficient::small(s));
        j += 1;
    }
    r
}

/// The state that SHAKE128 permutes first for the seed and the block.
pub fn absorb(seed: &[u8; 32], block: u8) -> (state: [u64; 25])
    ensures
        state@ == absorbed(seed@, block),
{
    let mut state = [0u64; 25];
    let mut k: usize = 0;
    while k < 4
        invariant
            k <= 4,
            forall|i: int| 0 <= i < k ==> state@[i] == absorbed_lane(seed@, block, i),
            forall|i: int| k <= i < 25 ==> state@[i] == 0,
        decreases 4 - k,
    {
        state[k] = (seed[8 * k] as u64) | ((seed[8 * k + 1] as u64) << 8) | ((seed[8 * k + 2] as u64)
            << 16) | ((seed[8 * k + 3] as u64) << 24) | ((seed[8 * k + 4] as u64) << 32) | ((seed[8
            * k + 5] as u64) << 40) | ((seed[8 * k + 6] as u64) << 48) | ((seed[8 * k + 7] as u64)
            << 56);
        k += 1;
    }
    state[4] = (block as u64) | 0x1f00u64;
    state[20] = 0x8000_0000_0000_0000u64;
    assert(state@ =~= absorbed(seed@, block));
    state
}

/// Appends to `values` the accepted candidates of one output block, up to
/// 64 values in all.
pub fn accept_candidates(state: &[u64; 25], values: &mut Vec<u16>)
    requires
        old(values)@.len() <= 64,
    ensures
        final(values)@ == first_64(old(values)@ + accepted(state@, 84)),
        final(values)@.len() <= 64,
{
    let ghost before = values@;
    let mut c: usize = 0;
    while c < 84 && values.len() < 64
        invariant
            c <= 84,
            before.len() <= 64,
            values@.len() <= 64,
            values@ == before + accepted(state@, c as nat),
        decreases 84 - c,
    {
        let lane = state[c / 4];
        let shift = (16 * (c % 4)) as u64;
        let r = #[verifier::truncate] (((lane >> shift) & 0xffffu64) as u16);
        proof {
            assert(r == candidate(state@, c as int));
            let next = accepted(state@, (c + 1) as nat);
            if acceptable(r) {
                assert(before + next =~= (before + accepted(state@, c as nat)).push(r));
            }
        }
        match Coefficient::try_new(r) {
            Some(_) => {
                values.push(r);
            },
            None => {},
        }
        c += 1;
    }
    proof {
        if c == 84 {
            assert(first_64(values@) == values@);
        } else {
            lemma_accepted_grows(state@, c as nat, 84);
            let s = before + accepted(state@, c as nat);
            let t = before + accepted(state@, 84);
            assert(s.len() == 64);
            assert(t.take(64) =~= s) by {
                assert(accepted(state@, 84).take(accepted(state@, c as nat).len() as int)
                    == accepted(state@, c as nat));
                assert forall|i: int| 0 <= i < 64 implies t[i] == s[i] by {
                    if i >= before.len() {
                        assert(accepted(state@, 84).take(
                            accepted(state@, c as nat).len() as int,
                        )[i - before.len()] == accepted(state@, 84)[i - before.len()]);
                    }
                }
            }
            assert(first_64(t) =~= s);
        }
    }
}

/// The accepted candidates of a block only grow with the number looked at.
pub proof fn lemma_accepted_grows(state: Seq<u64>, c: nat, d: nat)
    requires
        c <= d,
    ensures
        accepted(state, c).len() <= accepted(state, d).len(),
        accepted(state, d).take(accepted(state, c).len() as int) == accepted(state, c),
    decreases d - c,
{
    if c == d {
        assert(accepted(state, d).take(accepted(state, d).len() as int) =~= accepted(state, d));
    } else {
        lemma_accepted_grows(state, c, (d - 1) as nat);
        let a = accepted(state, (d - 1) as nat);
        assert(accepted(state, d).take(accepted(state, c).len() as int) =~= a.take(
            accepted(state, c).len() as int,
        ));
    }
}

/// Cutting off behind 64 entries before more are appended changes nothing
/// of the first 64.
proof fn lemma_first_64_append(a: Seq<u16>, b: Seq<u16>)
    ensures
        first_64(first_64(a) + b) == first_64(a + b),
{
    if a.len() > 64 {
        assert((a.take(64) + b).take(64) =~= (a + b).take(64));
    }
}

/// The first 64 accepted candidates of SHAKE128 on the seed and the block.
fn sample_block(seed: &[u8; 32], block: u8) -> (values: Vec<u16>)
    requires
        fills(absorbed(seed@, block)),
    ensures
        values@ == block_values(absorbed(seed@, block)),
        values@.len() == 64,
{
    let ghost init = absorbed(seed@, block);
    let ghost bound = choose|k: nat| fills_within(init, k);
    let mut state = f1600(absorb(seed, block));
    let mut values: Vec<u16> = Vec::with_capacity(64);
    let ghost mut k: nat = 0;
    accept_candidates(&state, &mut values);
    proof {
        assert(stream(init, 0) =~= Seq::<u16>::empty());
        assert(stream(init, 0) + accepted(state@, 84) =~= accepted(state@, 84));
        assert(values@ == first_64(stream(init, 1)));
    }
    while values.len() < 64
        invariant
            init == absorbed(seed@, block),
            fills_within(init, bound),
            state@ == squeezed(init, k),
            values@ == first_64(stream(init, k + 1)),
            values@.len() <= 64,
        decreases bound - k,
    {
        proof {
            assert(values@ == stream(init, k + 1));
            if bound <= k + 1 {
                lemma_stream_prefix(init, bound, k + 1);
            }
            lemma_first_64_append(
                stream(init, k + 1),
                accepted(squeezed(init, k + 1), 84),
            );
        }
        state = f1600(state);
        accept_candidates(&state, &mut values);
        proof {
            k = k + 1;
        }
    }
    proof {
        assert(stream(init, k + 1).len() >= 64);
        lemma_block_values(init, k + 1);
    }
    values
}

/// Whether SHAKE128 on the seed and the block gives 64 accepted candidates
/// within `SQUEEZE_LIMIT` output blocks.
fn block_fills(seed: &[u8; 32], block: u8) -> (r: bool)
    ensures
        r == fills_within(absorbed(seed@, block), SQUEEZE_LIMIT as nat),
{
    let ghost init = absorbed(seed@, block);
    let mut state = f1600(absorb(seed, block));
    let mut values: Vec<u16> = Vec::with_capacity(64);
    let mut k: usize = 1;
    accept_candidates(&state, &mut values);
    proof {
        assert(stream(init, 0) =~= Seq::<u16>::empty());
        assert(stream(init, 0) + accepted(state@, 84) =~= accepted(state@, 84));
        assert(values@ == first_64(stream(init, 1)));
    }
    while values.len() < 64 && k < SQUEEZE_LIMIT
        invariant
            init == absorbed(seed@, block),
            1 <= k <= SQUEEZE_LIMIT,
            state@ == squeezed(init, (k - 1) as nat),
            values@ == first_64(stream(init, k as nat)),
            values@.len() <= 64,
        decreases SQUEEZE_LIMIT - k,
    {
        proof {
            lemma_first_64_append(
                stream(init, k as nat),
                accepted(squeezed(init, k as nat), 84),
            );
        }
        state = f1600(state);
        accept_candidates(&state, &mut values);
        k += 1;
    }
    proof {
        if values.len() == 64 {
            lemma_stream_prefix(init, k as nat, SQUEEZE_LIMIT as nat);
        }
    }
    values.len() == 64
}

impl<N: PolySize> Poly<N> {
    /// Whether the seed expands to a uniform polynomial with no more than
    /// `SQUEEZE_LIMIT` output blocks read for any block of 64 coefficients.
    /// Where it does, `random` ends.
    pub fn expands(seed: &[u8; 32]) -> (r: bool)
        ensures
            r == uniform_within(seed@, N::spec_length(), SQUEEZE_LIMIT as nat),
            r ==> uniform_defined(seed@, N::spec_length()),
    {
        proof {
            N::lemma_length();
        }
        let blocks = N::length() / 64;
        let mut b: usize = 0;
        while b < blocks
            invariant
                blocks == N::spec_length() / 64,
                blocks <= 16,
                b <= blocks,
                forall|i: int|
                    0 <= i < b ==> fills_within(
                        #[trigger] absorbed(seed@, i as u8),
                        SQUEEZE_LIMIT as nat,
                    ),
            decreases blocks - b,
        {
            if !block_fills(seed, b as u8) {
                return false;
            }
            b += 1;
        }
        proof {
            lemma_uniform_within(seed@, N::spec_length(), SQUEEZE_LIMIT as nat);
        }
        true
    }

    /// The uniform polynomial that the seed expands to, with the marks
    /// given. The seed must be one that expands: the sampler reads on until
    /// every block of 64 coefficients is filled.
    pub fn random(seed: &[u8; 32], state: PolyState) -> (p: Self)
        requires
            uniform_defined(seed@, N::spec_length()),
        ensures
            p.stored() == widened(uniform_values(seed@, N::spec_length())),
            forall|i: int| 0 <= i < N::spec_length() ==> #[trigger] p.stored()[i] < 61445,
            p@ == uniform_spec(seed@, N::spec_length()),
            p.spec_state() == state,
    {
        proof {
            N::lemma_length();
        }
        let n = N::length();
        let blocks = n / 64;
        let mut c: Vec<Coefficient> = Vec::with_capacity(n);
        let mut b: usize = 0;
        while b < blocks
            invariant
                n == N::spec_length(),
                n == 512 || n == 1024,
                blocks == n / 64,
                b <= blocks,
                c@.len() == 64 * b,
                uniform_defined(seed@, n as nat),
                forall|i: int|
                    0 <= i < 64 * b ==> (#[trigger] c@[i]).raw() == uniform_values(seed@, n as nat)[i],
            decreases blocks - b,
        {
            assert(fills(absorbed(seed@, b as u8)));
            let values = sample_block(seed, b as u8);
            let mut j: usize = 0;
            while j < 64
                invariant
                    n == N::spec_length(),
                    n == 512 || n == 1024,
                    blocks == n / 64,
                    b < blocks,
                    j <= 64,
                    c@.len() == 64 * b + j,
                    values@ == block_values(absorbed(seed@, b as u8)),
                    values@.len() == 64,
                    forall|i: int|
                        0 <= i < 64 * b + j ==> (#[trigger] c@[i]).raw() == uniform_values(
                            seed@,
                            n as nat,
                        )[i],
                decreases 64 - j,
            {
                proof {
                    let i = 64 * b + j;
                    assert(i / 64 == b as int && i % 64 == j as int);
                }
                c.push(Coefficient::new(values[j]));
                j += 1;
            }
            b += 1;
        }
        let p = Poly { coefficients: c, state, length: PhantomData };
        assert(p@ =~= uniform_spec(seed@, N::spec_length()));
        assert(p.stored() =~= widened(uniform_values(seed@, N::spec_length())));
        proof {
            lemma_uniform_values_bound(seed@, N::spec_length());
        }
        p
    }

    /// The uniform polynomial that the seed expands to, or nothing where the
    /// seed does not expand within `SQUEEZE_LIMIT` output blocks for a block.
    pub fn try_random(seed: &[u8; 32], state: PolyState) -> (r: Option<Self>)
        ensures
            r is Some <==> uniform_within(seed@, N::spec_length(), SQUEEZE_LIMIT as nat),
            r is Some ==> r->Some_0.stored() == widened(uniform_values(seed@, N::spec_length())),
            r is Some ==> r->Some_0@ == uniform_spec(seed@, N::spec_length()),
            r is Some ==> r->Some_0.spec_state() == state,
    {
        if Self::expands(seed) {
            Some(Self::random(seed, state))
        } else {
            None
        }
    }

    /// The small noise polynomial with the number `nonce` that the seed
    /// gives, with the marks given, which must be those of a small one.
    pub fn random_small(seed: &[u8; 32], nonce: u8, state: PolyState) -> (p: Self)
        requires
            !state.size,
        ensures
            p.stored() == sample_values(seed@, nonce, N::spec_length()),
            p@ == sample_spec(seed@, nonce, N::spec_length()),
            p.spec_state() == state,
    {
        proof {
            N::lemma_length();
        }
        let n = N::length();
        let blocks = n / 64;
        let mut c: Vec<Coefficient> = Vec::with_capacity(n);
        let mut input: Vec<u8> = Vec::with_capacity(34);
        crate::hash::append(&mut input, seed.as_slice());
        input.push(nonce);
        input.push(0);
        let mut b: usize = 0;
        while b < blocks
            invariant
                n == N::spec_length(),
                n == 512 || n == 1024,
                blocks == n / 64,
                b <= blocks,
                c@.len() == 64 * b,
                input@.len() == 34,
                input@.take(33) == seed@.push(nonce),
                forall|i: int|
                    0 <= i < 64 * b ==> (#[trigger] c@[i]).value() == sample_spec(
                        seed@,
                        nonce,
                        n as nat,
                    )[i],
                forall|i: int|
                    0 <= i < 64 * b ==> (#[trigger] c@[i]).raw() == sample_values(
                        seed@,
                        nonce,
                        n as nat,
                    )[i],
            decreases blocks - b,
        {
            input.set(33, b as u8);
            proof {
                assert(input@ =~= noise_input(seed@, nonce, b as u8)) by {
                    assert forall|i: int| 0 <= i < 33 implies input@[i] == seed@.push(nonce)[i] by {
                        assert(input@.take(33)[i] == input@[i]);
                    }
                }
                assert(input@.take(33) =~= seed@.push(nonce));
            }
            let buffer = shake256(input.as_slice(), 128);
            let mut block = binomial_block(buffer.as_slice());
            proof {
                assert forall|i: int| 64 * b <= i < 64 * b + 64 implies (#[trigger] block@[i - 64
                    * b]).value() == sample_spec(seed@, nonce, n as nat)[i] && block@[i - 64
                    * b].raw() == sample_values(seed@, nonce, n as nat)[i] by {
                    assert(i / 64 == b as int && i % 64 == i - 64 * b);
                }
            }
            c.append(&mut block);
            b += 1;
        }
        let p = Poly { coefficients: c, state, length: PhantomData };
        assert(p@ =~= sample_spec(seed@, nonce, N::spec_length()));
        assert(p.stored() =~= sample_values(seed@, nonce, N::spec_length()));
        p
    }
}

} // verus!
