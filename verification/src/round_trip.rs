//! The law of the round trip: the transform, a bit reversal, the inverse
//! transform and a bit reversal give a polynomial back.

use vstd::prelude::*;
use vstd::arithmetic::div_mod::*;
use vstd::arithmetic::power2::*;
use crate::butterfly::{
    dft,
    lemma_bit_reverse_halves,
    lemma_transform_is_network,
    reversed,
    twiddles,
};
use crate::coefficient::residue;
use crate::fourier::{
    congruent,
    is_root,
    lemma_congruent_mul,
    lemma_congruent_residue,
    lemma_power_add,
    lemma_power_one,
    lemma_power_product,
    lemma_power_range,
    lemma_root_square,
    lemma_sum_congruent,
    power,
    sum,
};
use crate::inversion::lemma_inversion;
use crate::ntt::{
    bit_reverse,
    inv_ntt_spec,
    lemma_bit_reverse_bound,
    lemma_bit_reverse_involution,
    montgomery_product,
    multiply_spec,
    ntt_spec,
    reverse_bits_spec,
    transform_spec,
};
use crate::sizes::layer_count;
use crate::spectrum::lemma_network_is_dft;
use crate::tables::{
    gamma,
    gamma_inverse,
    gammas_bitrev,
    gammas_inv,
    length_inverse,
    montgomery_form,
    omegas_inv_bitrev,
};

verus! {

/// The tables for the length `n` hold, in Montgomery form, the powers of
/// gamma in bit-reversed order, the powers of the inverse of gamma divided
/// by the length, and the powers of the inverse of omega, the square of
/// gamma, in bit-reversed order.
pub open spec fn tables_hold_powers(n: nat) -> bool {
    let bits = layer_count(n);
    let sigma = gamma_inverse(n);
    &&& gammas_bitrev(n).len() == n
    &&& gammas_inv(n).len() == n
    &&& 2 * omegas_inv_bitrev(n).len() == n
    &&& forall|i: int|
        0 <= i < n ==> residue(#[trigger] gammas_bitrev(n)[i] * 576) == power(
            gamma(n),
            bit_reverse(i as nat, bits),
        )
    &&& forall|i: int|
        0 <= i < n ==> residue(#[trigger] gammas_inv(n)[i] * 576) == residue(
            length_inverse(n) * power(sigma, i as nat),
        )
    &&& forall|k: int|
        0 <= k < n / 2 ==> residue(#[trigger] omegas_inv_bitrev(n)[k] * 576) == power(
            residue(sigma * sigma),
            bit_reverse(k as nat, (bits - 1) as nat),
        )
}

/// What the Montgomery form of a residue stands for is the residue.
proof fn lemma_montgomery_form(v: int)
    requires
        0 <= v < 12289,
    ensures
        residue(montgomery_form(v) * 576) == v,
{
    let m = residue(v * 4075);
    lemma_mul_mod_noop_left(v * 4075, 576, 12289);
    assert((v * 4075) * 576 == 12289 * (191 * v) + v) by (nonlinear_arith);
    lemma_mod_multiples_vanish(191 * v, v, 12289);
    lemma_small_mod(v as nat, 12289);
}

/// The tables hold the powers of the roots.
pub proof fn lemma_tables_hold_powers(n: nat)
    requires
        n == 512 || n == 1024,
    ensures
        tables_hold_powers(n),
{
    let bits = layer_count(n);
    let sigma = gamma_inverse(n);
    assert forall|i: int| 0 <= i < n implies residue(#[trigger] gammas_bitrev(n)[i] * 576)
        == power(gamma(n), bit_reverse(i as nat, bits)) by {
        lemma_power_range(gamma(n), bit_reverse(i as nat, bits));
        lemma_montgomery_form(power(gamma(n), bit_reverse(i as nat, bits)));
    }
    assert forall|i: int| 0 <= i < n implies residue(#[trigger] gammas_inv(n)[i] * 576)
        == residue(length_inverse(n) * power(sigma, i as nat)) by {
        lemma_montgomery_form(residue(length_inverse(n) * power(sigma, i as nat)));
    }
    assert forall|k: int| 0 <= k < n / 2 implies residue(#[trigger] omegas_inv_bitrev(n)[k] * 576)
        == power(residue(sigma * sigma), bit_reverse(k as nat, (bits - 1) as nat)) by {
        lemma_power_range(residue(sigma * sigma), bit_reverse(k as nat, (bits - 1) as nat));
        lemma_montgomery_form(
            power(residue(sigma * sigma), bit_reverse(k as nat, (bits - 1) as nat)),
        );
    }
}

/// The square of a power is the power with twice the exponent.
proof fn lemma_power_doubling(b: int, e: nat, v: int)
    requires
        power(b, e) == v,
    ensures
        power(b, 2 * e) == residue(v * v),
{
    lemma_power_add(b, e, e);
    lemma_power_range(b, 2 * e);
    lemma_small_mod(power(b, 2 * e) as nat, 12289);
}

/// Gamma and its inverse are roots of unity of the order `2 n`, and their
/// squares are roots of unity of the order `n`.
pub proof fn lemma_roots(n: nat)
    requires
        n == 512 || n == 1024,
    ensures
        pow2(layer_count(n)) == n,
        is_root(gamma(n), layer_count(n) + 1),
        is_root(gamma_inverse(n), layer_count(n) + 1),
        is_root(residue(gamma(n) * gamma(n)), layer_count(n)),
        is_root(residue(gamma_inverse(n) * gamma_inverse(n)), layer_count(n)),
        residue(gamma(n) * gamma_inverse(n)) == 1,
        residue(
            residue(gamma(n) * gamma(n)) * residue(gamma_inverse(n) * gamma_inverse(n)),
        ) == 1,
        residue(n * length_inverse(n)) == 1,
{
    lemma2_to64();
    let g = gamma(n);
    let s = gamma_inverse(n);
    assert(power(g, 0) == 1);
    assert(power(g, 1) == residue(g * power(g, 0)));
    assert(power(s, 0) == 1);
    assert(power(s, 1) == residue(s * power(s, 0)));
    if n == 512 {
        lemma_power_doubling(g, 1, 10968);
        lemma_power_doubling(g, 2, 3);
        lemma_power_doubling(g, 4, 9);
        lemma_power_doubling(g, 8, 81);
        lemma_power_doubling(g, 16, 6561);
        lemma_power_doubling(g, 32, 10643);
        lemma_power_doubling(g, 64, 5736);
        lemma_power_doubling(g, 128, 4043);
        lemma_power_doubling(g, 256, 1479);
        lemma_power_doubling(s, 1, 3656);
        lemma_power_doubling(s, 2, 8193);
        lemma_power_doubling(s, 4, 2731);
        lemma_power_doubling(s, 8, 11227);
        lemma_power_doubling(s, 16, 9545);
        lemma_power_doubling(s, 32, 8668);
        lemma_power_doubling(s, 64, 11567);
        lemma_power_doubling(s, 128, 5146);
        lemma_power_doubling(s, 256, 10810);
        assert(power(g, 512) == 12288);
        assert(power(s, 512) == 12288);
    } else {
        lemma_power_doubling(g, 1, 7);
        lemma_power_doubling(g, 2, 49);
        lemma_power_doubling(g, 4, 2401);
        lemma_power_doubling(g, 8, 1260);
        lemma_power_doubling(g, 16, 2319);
        lemma_power_doubling(g, 32, 7468);
        lemma_power_doubling(g, 64, 3542);
        lemma_power_doubling(g, 128, 10984);
        lemma_power_doubling(g, 256, 7143);
        lemma_power_doubling(g, 512, 10810);
        lemma_power_doubling(s, 1, 8778);
        lemma_power_doubling(s, 2, 1254);
        lemma_power_doubling(s, 4, 11813);
        lemma_power_doubling(s, 8, 5374);
        lemma_power_doubling(s, 16, 726);
        lemma_power_doubling(s, 32, 10938);
        lemma_power_doubling(s, 64, 6429);
        lemma_power_doubling(s, 128, 4134);
        lemma_power_doubling(s, 256, 8246);
        lemma_power_doubling(s, 512, 1479);
        assert(power(g, 1024) == 12288);
        assert(power(s, 1024) == 12288);
    }
    lemma_root_square(g, layer_count(n) + 1);
    lemma_root_square(s, layer_count(n) + 1);
}

/// What a Montgomery reduction of the product with a table entry stands
/// for: the product with the factor that the entry stands for.
proof fn lemma_montgomery_factor(w: u16, x: int)
    ensures
        congruent(montgomery_product(w, x), residue(w * 576) * x),
{
    lemma_mul_mod_noop_left(w * 576, x, 12289);
    assert(w * x * 576 == (w * 576) * x) by (nonlinear_arith);
    lemma_congruent_residue(w * x * 576);
}

/// The last step of the round trip for one coefficient: the factor of the
/// inverse table takes the length and the power of gamma out again.
proof fn lemma_scale_back(z: int, t: int, y: int, u: int, s: int, g: int, pb: int, n: int, x: int)
    requires
        congruent(z, t * y),
        t == residue(u * s),
        congruent(y, n * x),
        congruent(x, g * pb),
        residue(n * u) == 1,
        congruent(s * g, 1),
    ensures
        congruent(z, pb),
{
    lemma_congruent_residue(u * s);
    lemma_congruent_mul(n, n, x, g * pb);
    lemma_congruent_mul(t, u * s, y, n * (g * pb));
    assert((u * s) * (n * (g * pb)) == (n * u) * ((s * g) * pb)) by (nonlinear_arith);
    lemma_congruent_mul(s * g, 1, pb, pb);
    assert(1 * pb == pb);
    lemma_congruent_mul(n * u, 1, (s * g) * pb, pb);
}

/// The value of the forward transform at `k`: the discrete Fourier
/// transform, with omega, of the polynomial read in bit-reversed order with
/// coefficient `m` times the power `m` of gamma.
proof fn lemma_forward(p: Seq<int>, k: int)
    requires
        p.len() == 512 || p.len() == 1024,
        0 <= k < p.len(),
    ensures
        ntt_spec(p).len() == p.len(),
        congruent(
            ntt_spec(p)[k],
            dft(
                reversed(multiply_spec(p, gammas_bitrev(p.len())), layer_count(p.len())),
                residue(gamma(p.len()) * gamma(p.len())),
                k,
            ),
        ),
{
    let n = p.len();
    let bits = layer_count(n);
    let table = gammas_bitrev(n);
    let a = multiply_spec(p, table);
    let w = twiddles(table);
    let omega = residue(gamma(n) * gamma(n));
    lemma_roots(n);
    lemma_tables_hold_powers(n);
    lemma_transform_is_network(a, table, bits);
    lemma_root_square(gamma(n), bits + 1);
    assert forall|i: int| 0 <= i < pow2((bits - 1) as nat) implies #[trigger] w[i] == power(
        omega,
        bit_reverse(i as nat, (bits - 1) as nat),
    ) by {
        lemma_pow2_unfold(bits);
        lemma_bit_reverse_halves(i as nat, bits);
        assert(w[i] == residue(table[i] * 576));
    }
    lemma_network_is_dft(a, w, omega, bits, k);
}

/// The value at `j` of the butterflies of the inverse transform on a
/// polynomial in bit-reversed order: the discrete Fourier transform of the
/// polynomial with the inverse of omega.
proof fn lemma_backward(a: Seq<int>, j: int)
    requires
        a.len() == 512 || a.len() == 1024,
        0 <= j < a.len(),
    ensures
        congruent(
            transform_spec(
                reverse_bits_spec(a),
                omegas_inv_bitrev(a.len()),
                layer_count(a.len()),
            )[j],
            dft(a, residue(gamma_inverse(a.len()) * gamma_inverse(a.len())), j),
        ),
{
    let n = a.len();
    let bits = layer_count(n);
    let table = omegas_inv_bitrev(n);
    let b = reverse_bits_spec(a);
    let w = twiddles(table);
    let tau = residue(gamma_inverse(n) * gamma_inverse(n));
    lemma_roots(n);
    lemma_tables_hold_powers(n);
    lemma_transform_is_network(b, table, bits);
    assert forall|i: int| 0 <= i < pow2((bits - 1) as nat) implies #[trigger] w[i] == power(
        tau,
        bit_reverse(i as nat, (bits - 1) as nat),
    ) by {
        lemma_pow2_unfold(bits);
        assert(w[i] == residue(table[i] * 576));
    }
    lemma_network_is_dft(b, w, tau, bits, j);
    assert(reversed(b, bits) =~= a) by {
        assert forall|m: int| 0 <= m < n implies reversed(b, bits)[m] == a[m] by {
            lemma_bit_reverse_bound(m as nat, bits);
            lemma_bit_reverse_involution(m as nat, bits);
        }
    }
}

/// The transform, a bit reversal, the inverse transform and a bit reversal
/// give a polynomial back.
pub proof fn lemma_ntt_round_trip(p: Seq<int>)
    requires
        p.len() == 512 || p.len() == 1024,
        forall|i: int| 0 <= i < p.len() ==> 0 <= #[trigger] p[i] < 12289,
    ensures
        reverse_bits_spec(inv_ntt_spec(reverse_bits_spec(ntt_spec(p)))) == p,
{
    let n = p.len();
    let bits = layer_count(n);
    lemma_roots(n);
    lemma_tables_hold_powers(n);
    let g = gamma(n);
    let s = gamma_inverse(n);
    let omega = residue(g * g);
    let tau = residue(s * s);
    let forward = ntt_spec(p);
    let x = reversed(multiply_spec(p, gammas_bitrev(n)), bits);
    let butterflies = transform_spec(reverse_bits_spec(forward), omegas_inv_bitrev(n), bits);
    let back = inv_ntt_spec(reverse_bits_spec(forward));
    assert(ntt_spec(p).len() == n) by {
        lemma_forward(p, 0);
    }
    assert(back == multiply_spec(butterflies, gammas_inv(n)));
    assert(butterflies.len() == n) by {
        lemma_transform_is_network(reverse_bits_spec(forward), omegas_inv_bitrev(n), bits);
    }
    assert forall|j: int| 0 <= j < n implies congruent(#[trigger] back[j], p[bit_reverse(
        j as nat,
        bits,
    ) as int]) by {
        let i = bit_reverse(j as nat, bits) as int;
        lemma_bit_reverse_bound(j as nat, bits);
        lemma_bit_reverse_involution(j as nat, bits);
        // the butterflies of the inverse transform sum up the forward transform
        lemma_backward(forward, j);
        let outer = |k: int| forward[k] * power(tau, (k * j) as nat);
        let nested = |k: int|
            sum(|m: int| x[m] * power(omega, (m * k) as nat), n) * power(tau, (k * j) as nat);
        assert forall|k: int| 0 <= k < n implies congruent(#[trigger] outer(k), nested(k)) by {
            lemma_forward(p, k);
            lemma_congruent_mul(
                forward[k],
                dft(x, omega, k),
                power(tau, (k * j) as nat),
                power(tau, (k * j) as nat),
            );
        }
        lemma_sum_congruent(outer, nested, n);
        lemma_inversion(x, omega, tau, bits, j as nat);
        assert(dft(forward, tau, j) == sum(outer, n));
        assert(congruent(butterflies[j], n * x[j]));
        // the multiplication by the inverse table
        lemma_montgomery_factor(gammas_inv(n)[j], butterflies[j]);
        lemma_montgomery_factor(gammas_bitrev(n)[i], p[i]);
        lemma_power_product(g, s, j as nat);
        lemma_power_one(j as nat);
        assert(power(s, j as nat) * power(g, j as nat) == power(g, j as nat) * power(s, j as nat))
            by (nonlinear_arith);
        assert(x[j] == montgomery_product(gammas_bitrev(n)[i], p[i]));
        lemma_scale_back(
            back[j],
            residue(gammas_inv(n)[j] * 576),
            butterflies[j],
            length_inverse(n),
            power(s, j as nat),
            power(g, j as nat),
            p[i],
            n as int,
            x[j],
        );
    }
    let last = reverse_bits_spec(back);
    assert forall|i: int| 0 <= i < n implies #[trigger] last[i] == p[i] by {
        let j = bit_reverse(i as nat, bits) as int;
        lemma_bit_reverse_bound(i as nat, bits);
        lemma_bit_reverse_involution(i as nat, bits);
        assert(congruent(back[j], p[i]));
        lemma_small_mod(p[i] as nat, 12289);
        lemma_small_mod(back[j] as nat, 12289);
    }
    assert(last =~= p);
}

} // verus!
