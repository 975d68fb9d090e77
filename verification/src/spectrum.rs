//! The layers of butterflies as a discrete Fourier transform.

use vstd::prelude::*;
use vstd::arithmetic::div_mod::*;
use vstd::arithmetic::power2::*;
use crate::butterfly::{
    dft,
    layer,
    lemma_bit_reverse_halves,
    lemma_network_unfold_first,
    lemma_stride_network,
    network,
    network_doubled,
    reversed,
    stride,
};
use crate::coefficient::residue;
use crate::fourier::{
    congruent,
    is_root,
    lemma_congruent_add,
    lemma_congruent_mul,
    lemma_congruent_residue,
    lemma_power_add,
    lemma_power_minus_one,
    lemma_power_mul,
    lemma_root_square,
    lemma_sum_congruent,
    lemma_sum_halves,
    power,
    sum,
};
use crate::ntt::{bit_reverse, lemma_bit_reverse_bound, lemma_bit_reverse_involution};

verus! {

/// Minus one times a number is congruent to the number negated.
pub proof fn lemma_congruent_negate(a: int)
    ensures
        congruent(a * 12288, -a),
{
    lemma_mod_multiples_vanish(a, -a, 12289);
    assert(a * 12288 == 12289 * a + (-a));
}

/// A pair of terms of the sum for an even index folds into one term of the
/// sum of half the length.
proof fn lemma_fold_even(xm: int, xh: int, full: int, shifted: int, ym: int)
    requires
        congruent(shifted, full),
        congruent(ym, xm + xh),
    ensures
        congruent(xm * full + xh * shifted, ym * full),
{
    lemma_congruent_mul(xh, xh, shifted, full);
    lemma_congruent_add(xm * full, xm * full, xh * shifted, xh * full);
    assert(xm * full + xh * full == (xm + xh) * full) by (nonlinear_arith);
    lemma_congruent_mul(ym, xm + xh, full, full);
}

/// A pair of terms of the sum for an odd index folds into one term of the
/// sum of half the length.
proof fn lemma_fold_odd(xm: int, xh: int, full: int, shifted: int, ym: int, even: int, factor: int)
    requires
        congruent(shifted, full * 12288),
        congruent(full, even * factor),
        congruent(ym, factor * residue(xm - xh)),
    ensures
        congruent(xm * full + xh * shifted, ym * even),
{
    let difference = residue(xm - xh);
    lemma_congruent_mul(xh, xh, shifted, full * 12288);
    assert(xh * (full * 12288) == (xh * full) * 12288) by (nonlinear_arith);
    lemma_congruent_negate(xh * full);
    lemma_congruent_add(xm * full, xm * full, xh * shifted, -(xh * full));
    assert(xm * full + (-(xh * full)) == (xm - xh) * full) by (nonlinear_arith);
    lemma_congruent_residue(xm - xh);
    lemma_congruent_mul(xm - xh, difference, full, even * factor);
    lemma_congruent_mul(ym, factor * difference, even, even);
    assert(difference * (even * factor) == (factor * difference) * even) by (nonlinear_arith);
}

/// The power of a root of unity for an exponent that is a multiple of `k`,
/// with the multiplier raised by half the order: the power for the
/// multiplier itself, times one for even `k` and minus one for odd `k`.
proof fn lemma_power_shift(rho: int, bits: nat, m: nat, k: nat)
    requires
        is_root(rho, bits),
        bits >= 1,
    ensures
        k % 2 == 0 ==> congruent(
            power(rho, (m + pow2((bits - 1) as nat)) * k),
            power(rho, m * k),
        ),
        k % 2 == 1 ==> congruent(
            power(rho, (m + pow2((bits - 1) as nat)) * k),
            power(rho, m * k) * 12288,
        ),
{
    let h = pow2((bits - 1) as nat);
    assert((m + h) * k == m * k + h * k) by (nonlinear_arith);
    lemma_power_add(rho, m * k, h * k);
    lemma_power_mul(rho, h, k);
    lemma_power_minus_one(k);
    let full = power(rho, m * k);
    if k % 2 == 0 {
        assert(full * 1 == full);
    }
}

/// The power of a root with the exponent `m (2 t + c)` is the power of its
/// square with the exponent `m t`, times the power of the root with the
/// exponent `m` where `c` is one.
proof fn lemma_power_split(rho: int, bits: nat, m: nat, t: nat, c: nat)
    requires
        is_root(rho, bits),
        bits >= 1,
        c == 0 || c == 1,
    ensures
        c == 0 ==> power(rho, m * (2 * t + c)) == power(residue(rho * rho), m * t),
        c == 1 ==> congruent(
            power(rho, m * (2 * t + c)),
            power(residue(rho * rho), m * t) * power(rho, m),
        ),
{
    lemma_root_square(rho, bits);
    assert(power(residue(rho * rho), m * t) == power(rho, 2 * (m * t)));
    if c == 0 {
        assert(m * (2 * t + 0) == 2 * (m * t)) by (nonlinear_arith);
    } else {
        assert(m * (2 * t + 1) == 2 * (m * t) + m) by (nonlinear_arith);
        lemma_power_add(rho, 2 * (m * t), m);
    }
}

/// The factors for the transform of the full length are those for the
/// transform of half the length with the square of the root.
proof fn lemma_factors_of_square(w: Seq<int>, rho: int, bits: nat)
    requires
        is_root(rho, bits),
        bits >= 1,
        forall|i: int|
            0 <= i < pow2((bits - 1) as nat) ==> #[trigger] w[i] == power(
                rho,
                bit_reverse(i as nat, (bits - 1) as nat),
            ),
    ensures
        forall|i: int|
            0 <= i < pow2((bits - 2) as nat) && bits >= 2 ==> #[trigger] w[i] == power(
                residue(rho * rho),
                bit_reverse(i as nat, (bits - 2) as nat),
            ),
{
    lemma_root_square(rho, bits);
    assert forall|i: int| 0 <= i < pow2((bits - 2) as nat) && bits >= 2 implies #[trigger] w[i]
        == power(residue(rho * rho), bit_reverse(i as nat, (bits - 2) as nat)) by {
        lemma_pow2_unfold((bits - 1) as nat);
        lemma_bit_reverse_halves(i as nat, (bits - 1) as nat);
    }
}

/// The entries that one term of the folded sum is made of.
proof fn lemma_folded_entries(a: Seq<int>, w: Seq<int>, bits: nat, m: nat, c: int)
    requires
        bits >= 1,
        a.len() == pow2(bits),
        m < pow2((bits - 1) as nat),
        c == 0 || c == 1,
    ensures
        ({
            let i = bit_reverse(m, (bits - 1) as nat) as int;
            let x = reversed(a, bits);
            let y = reversed(stride(layer(a, w, 1), c), (bits - 1) as nat);
            &&& 0 <= i < pow2((bits - 1) as nat)
            &&& bit_reverse(i as nat, (bits - 1) as nat) == m
            &&& c == 0 ==> y[m as int] == residue(x[m as int] + x[m as int + pow2((bits - 1) as nat)])
            &&& c == 1 ==> y[m as int] == residue(
                w[i] * residue(x[m as int] - x[m as int + pow2((bits - 1) as nat)]),
            )
        }),
{
    let lower = (bits - 1) as nat;
    let h = pow2(lower);
    let i = bit_reverse(m, lower) as int;
    lemma_pow2_unfold(bits);
    lemma_bit_reverse_bound(m, lower);
    lemma_bit_reverse_halves(m, bits);
    lemma_bit_reverse_involution(m, lower);
    let x = reversed(a, bits);
    let b = layer(a, w, 1);
    assert(x[m as int] == a[2 * i]);
    assert(x[m as int + h] == a[2 * i + 1]);
    assert((2 * i) / 1 == 2 * i && (2 * i + 1) / 1 == 2 * i + 1);
    assert((2 * i + 1) / 2 == i);
    assert(b[2 * i] == residue(a[2 * i] + a[2 * i + 1]));
    assert(b[2 * i + 1] == residue(w[i] * residue(a[2 * i] - a[2 * i + 1])));
    assert(stride(b, c)[i] == b[2 * i + c]);
}

/// The layers of butterflies compute the discrete Fourier transform of
/// their input read in bit-reversed order, where the factors are the powers
/// of the root in bit-reversed order.
pub proof fn lemma_network_is_dft(a: Seq<int>, w: Seq<int>, rho: int, bits: nat, k: int)
    requires
        a.len() == pow2(bits),
        is_root(rho, bits),
        forall|i: int|
            0 <= i < pow2((bits - 1) as nat) && bits >= 1 ==> #[trigger] w[i] == power(
                rho,
                bit_reverse(i as nat, (bits - 1) as nat),
            ),
        0 <= k < pow2(bits),
    ensures
        congruent(network(a, w, bits)[k], dft(reversed(a, bits), rho, k)),
    decreases bits,
{
    lemma2_to64();
    let x = reversed(a, bits);
    if bits == 0 {
        let term = |m: int| x[m] * power(rho, (m * k) as nat);
        assert(bit_reverse(0, 0) == 0);
        assert(sum(term, 0) == 0);
        assert(sum(term, 1) == sum(term, 0) + term(0));
        assert(x[0] * 1 == x[0]);
        assert(network(a, w, 0) == a);
    } else {
        let lower = (bits - 1) as nat;
        let h = pow2(lower);
        lemma_pow2_unfold(bits);
        lemma_pow2_pos(lower);
        let square = residue(rho * rho);
        lemma_root_square(rho, bits);
        let b = layer(a, w, 1);
        let c = k % 2;
        let half = k / 2;
        lemma_fundamental_div_mod(k, 2);
        lemma_network_unfold_first(a, w, lower);
        lemma_stride_network(b, w, lower, lower, c);
        let part = stride(b, c);
        assert(network(a, w, bits)[k] == network(part, w, lower)[half]) by {
            assert(stride(network_doubled(b, w, lower), c)[half] == network_doubled(b, w, lower)[2
                * half + c]);
        }
        lemma_factors_of_square(w, rho, bits);
        lemma_network_is_dft(part, w, square, lower, half);
        let y = reversed(part, lower);
        let term = |m: int| x[m] * power(rho, (m * k) as nat);
        let folded = |m: int| term(m) + term(m + h);
        lemma_sum_halves(term, h);
        let small = |m: int| y[m] * power(square, (m * half) as nat);
        assert forall|m: int| 0 <= m < h implies congruent(#[trigger] folded(m), small(m)) by {
            lemma_folded_entries(a, w, bits, m as nat, c);
            lemma_power_shift(rho, bits, m as nat, k as nat);
            lemma_power_split(rho, bits, m as nat, half as nat, c as nat);
            let i = bit_reverse(m as nat, lower) as int;
            let full = power(rho, (m * k) as nat);
            let shifted = power(rho, ((m + h) * k) as nat);
            let even = power(square, (m * half) as nat);
            assert(k == 2 * half + c);
            lemma_congruent_residue(x[m] + x[m + h]);
            lemma_congruent_residue(w[i] * residue(x[m] - x[m + h]));
            if c == 0 {
                lemma_fold_even(x[m], x[m + h], full, shifted, y[m]);
            } else {
                lemma_fold_odd(x[m], x[m + h], full, shifted, y[m], even, w[i]);
            }
        }
        lemma_sum_congruent(folded, small, h);
        assert(dft(x, rho, k) == sum(term, 2 * h));
        assert(dft(y, square, half) == sum(small, h));
    }
}

} // verus!
