//! The tables of the number-theoretic transform for both polynomial
//! lengths: the powers of the roots of unity in Montgomery form, computed
//! from the roots.

use vstd::prelude::*;
use vstd::arithmetic::div_mod::*;
use vstd::arithmetic::power2::*;
use crate::coefficient::residue;
use crate::fourier::{lemma_power_range, power};
use crate::ntt::{
    bit_reverse,
    lemma_bit_reverse_bound,
    lemma_bit_reverse_involution,
    reverse_index,
};
use crate::sizes::layer_count;

verus! {

/// The root gamma for the length `n`: its power with the exponent `n` is
/// minus one. Omega, the root of the butterflies, is its square.
pub open spec fn gamma(n: nat) -> int {
    if n == 512 {
        10968
    } else {
        7
    }
}

/// The inverse of gamma for the length `n`.
pub open spec fn gamma_inverse(n: nat) -> int {
    if n == 512 {
        3656
    } else {
        8778
    }
}

/// The inverse of the length `n` modulo q.
pub open spec fn length_inverse(n: nat) -> int {
    if n == 512 {
        12265
    } else {
        12277
    }
}

/// The Montgomery form of the residue `v`: `v` times the radix 2^18, which
/// is 4075 modulo q.
pub open spec fn montgomery_form(v: int) -> u16 {
    residue(v * 4075) as u16
}

/// The table of the powers of gamma in bit-reversed order for the length
/// `n`, in Montgomery form.
pub open spec fn gammas_bitrev(n: nat) -> Seq<u16> {
    Seq::new(
        n,
        |i: int| montgomery_form(power(gamma(n), bit_reverse(i as nat, layer_count(n)))),
    )
}

/// The table of the powers of the inverse of gamma, each divided by the
/// length `n`, in Montgomery form.
pub open spec fn gammas_inv(n: nat) -> Seq<u16> {
    Seq::new(
        n,
        |i: int| montgomery_form(residue(length_inverse(n) * power(gamma_inverse(n), i as nat))),
    )
}

/// The table of the powers of the inverse of omega in bit-reversed order
/// for the length `n`, in Montgomery form.
pub open spec fn omegas_inv_bitrev(n: nat) -> Seq<u16> {
    Seq::new(
        n / 2,
        |k: int|
            montgomery_form(
                power(
                    residue(gamma_inverse(n) * gamma_inverse(n)),
                    bit_reverse(k as nat, (layer_count(n) - 1) as nat),
                ),
            ),
    )
}

/// The Montgomery form of a residue.
fn to_montgomery(v: u32) -> (r: u16)
    requires
        v < 12289,
    ensures
        r == montgomery_form(v as int),
{
    assert(v * 4075 <= 12288 * 4075) by (nonlinear_arith)
        requires
            v <= 12288,
    ;
    ((v * 4075) % 12289) as u16
}

/// A table of `count` entries that holds at the bit-reversed index of `e`
/// the Montgomery form of the power `e` of `root`.
fn bit_reversed_powers(root: u32, count: usize, bits: usize) -> (t: Vec<u16>)
    requires
        root < 12289,
        bits <= 10,
        count == pow2(bits as nat),
    ensures
        t@.len() == count,
        forall|i: int|
            0 <= i < count ==> #[trigger] t@[i] == montgomery_form(
                power(root as int, bit_reverse(i as nat, bits as nat)),
            ),
{
    proof {
        lemma2_to64();
    }
    let mut t: Vec<u16> = Vec::with_capacity(count);
    let mut k: usize = 0;
    while k < count
        invariant
            k <= count,
            t@.len() == k,
        decreases count - k,
    {
        t.push(0);
        k += 1;
    }
    let mut e: usize = 0;
    let mut p: u32 = 1;
    while e < count
        invariant
            root < 12289,
            bits <= 10,
            count == pow2(bits as nat),
            t@.len() == count,
            e <= count,
            p == power(root as int, e as nat),
            forall|d: int|
                0 <= d < e ==> t@[#[trigger] bit_reverse(d as nat, bits as nat) as int]
                    == montgomery_form(power(root as int, d as nat)),
        decreases count - e,
    {
        let i = reverse_index(e, bits);
        let ghost before = t@;
        proof {
            lemma_bit_reverse_bound(e as nat, bits as nat);
            lemma_power_range(root as int, e as nat);
        }
        t.set(i, to_montgomery(p));
        proof {
            assert forall|d: int| 0 <= d < e + 1 implies t@[#[trigger] bit_reverse(
                d as nat,
                bits as nat,
            ) as int] == montgomery_form(power(root as int, d as nat)) by {
                lemma_bit_reverse_bound(d as nat, bits as nat);
                lemma_bit_reverse_involution(d as nat, bits as nat);
                lemma_bit_reverse_involution(e as nat, bits as nat);
                if d < e {
                    assert(bit_reverse(d as nat, bits as nat) != i);
                    assert(t@[bit_reverse(d as nat, bits as nat) as int] == before[bit_reverse(
                        d as nat,
                        bits as nat,
                    ) as int]);
                }
            }
        }
        assert(root * p <= 12288 * 12288) by (nonlinear_arith)
            requires
                root <= 12288,
                p <= 12288,
        ;
        p = (root * p) % 12289;
        e += 1;
    }
    proof {
        assert forall|i: int| 0 <= i < count implies #[trigger] t@[i] == montgomery_form(
            power(root as int, bit_reverse(i as nat, bits as nat)),
        ) by {
            lemma_bit_reverse_bound(i as nat, bits as nat);
            lemma_bit_reverse_involution(i as nat, bits as nat);
        }
    }
    t
}

/// The table of the powers of gamma for the length `n`.
pub fn gammas_bitrev_table(n: usize) -> (t: Vec<u16>)
    requires
        n == 512 || n == 1024,
    ensures
        t@ == gammas_bitrev(n as nat),
        t@.len() == n,
{
    proof {
        lemma2_to64();
    }
    let t = if n == 512 {
        bit_reversed_powers(10968, 512, 9)
    } else {
        bit_reversed_powers(7, 1024, 10)
    };
    assert(t@ =~= gammas_bitrev(n as nat));
    t
}

/// The table of the scaled powers of the inverse of gamma for the length
/// `n`.
pub fn gammas_inv_table(n: usize) -> (t: Vec<u16>)
    requires
        n == 512 || n == 1024,
    ensures
        t@ == gammas_inv(n as nat),
        t@.len() == n,
{
    let root: u32 = if n == 512 {
        3656
    } else {
        8778
    };
    let scale: u32 = if n == 512 {
        12265
    } else {
        12277
    };
    let mut t: Vec<u16> = Vec::with_capacity(n);
    let mut i: usize = 0;
    let mut p: u32 = 1;
    while i < n
        invariant
            n == 512 || n == 1024,
            root == gamma_inverse(n as nat),
            scale == length_inverse(n as nat),
            i <= n,
            t@.len() == i,
            p == power(root as int, i as nat),
            forall|d: int|
                0 <= d < i ==> #[trigger] t@[d] == montgomery_form(
                    residue(scale * power(root as int, d as nat)),
                ),
        decreases n - i,
    {
        proof {
            lemma_power_range(root as int, i as nat);
        }
        assert(scale * p <= 12277 * 12288 && root * p <= 8778 * 12288) by (nonlinear_arith)
            requires
                scale <= 12277,
                root <= 8778,
                p <= 12288,
        ;
        t.push(to_montgomery((scale * p) % 12289));
        p = (root * p) % 12289;
        i += 1;
    }
    assert(t@ =~= gammas_inv(n as nat));
    t
}

/// The table of the powers of the inverse of omega for the length `n`.
pub fn omegas_inv_bitrev_table(n: usize) -> (t: Vec<u16>)
    requires
        n == 512 || n == 1024,
    ensures
        t@ == omegas_inv_bitrev(n as nat),
        2 * t@.len() == n,
{
    proof {
        lemma2_to64();
    }
    let t = if n == 512 {
        bit_reversed_powers((3656 * 3656) % 12289, 256, 8)
    } else {
        bit_reversed_powers((8778 * 8778) % 12289, 512, 9)
    };
    assert(t@ =~= omegas_inv_bitrev(n as nat));
    t
}

} // verus!
