//! The inversion of the discrete Fourier transform: the sums of the powers
//! of a root of unity vanish, so that the transform with the inverse root
//! gives the input back, times the length.

use vstd::prelude::*;
use vstd::arithmetic::div_mod::*;
use vstd::arithmetic::power2::*;
use crate::coefficient::residue;
use crate::fourier::{
    congruent,
    is_root,
    lemma_congruent_add,
    lemma_congruent_mul,
    lemma_power_add,
    lemma_power_minus_one,
    lemma_power_mul,
    lemma_power_one,
    lemma_power_product,
    lemma_power_range,
    lemma_root_square,
    lemma_sum_congruent,
    lemma_sum_equal,
    lemma_sum_exchange,
    lemma_sum_halves,
    lemma_sum_scale,
    lemma_sum_single,
    power,
    sum,
};

verus! {

/// The sum of the first `n` powers of `r`.
pub open spec fn geometric(r: int, n: nat) -> int {
    sum(|k: int| power(r, k as nat), n)
}

/// The sum of twice as many powers is the sum of the powers times one plus
/// the power that the second half begins with.
proof fn lemma_geometric_double(r: int, h: nat)
    ensures
        congruent(geometric(r, 2 * h), (1 + power(r, h)) * geometric(r, h)),
{
    let f = |k: int| power(r, k as nat);
    let folded = |k: int| f(k) + f(k + h);
    let scaled = |k: int| (1 + power(r, h)) * f(k);
    lemma_sum_halves(f, h);
    assert forall|k: int| 0 <= k < h implies congruent(#[trigger] folded(k), scaled(k)) by {
        lemma_power_add(r, k as nat, h);
        assert((k + h) as nat == k as nat + h);
        lemma_congruent_add(f(k), f(k), f(k + h), f(k) * power(r, h));
        assert(f(k) + f(k) * power(r, h) == (1 + power(r, h)) * f(k)) by (nonlinear_arith);
    }
    lemma_sum_congruent(folded, scaled, h);
    lemma_sum_scale(1 + power(r, h), f, h);
}

/// The sum of all powers of a power of a root of unity other than one
/// vanishes.
pub proof fn lemma_geometric_zero(rho: int, bits: nat, e: nat)
    requires
        is_root(rho, bits),
        0 < e < pow2(bits),
    ensures
        congruent(geometric(power(rho, e), pow2(bits)), 0),
    decreases bits,
{
    lemma2_to64();
    assert(bits >= 1);
    let h = pow2((bits - 1) as nat);
    lemma_pow2_unfold(bits);
    let r = power(rho, e);
    lemma_geometric_double(r, h);
    if e % 2 == 1 {
        lemma_power_mul(rho, e, h);
        lemma_power_mul(rho, h, e);
        assert(e * h == h * e) by (nonlinear_arith);
        lemma_power_minus_one(e);
        assert(power(r, h) == 12288);
        assert((1 + 12288) * geometric(r, h) == 12289 * geometric(r, h));
        lemma_mod_multiples_basic(geometric(r, h), 12289);
        assert(12289 * geometric(r, h) == geometric(r, h) * 12289) by (nonlinear_arith);
    } else {
        let half = e / 2;
        let square = residue(rho * rho);
        lemma_root_square(rho, bits);
        assert(2 * half == e);
        assert(power(square, half) == r);
        lemma_geometric_zero(square, (bits - 1) as nat, half);
        lemma_congruent_mul(1 + power(r, h), 1 + power(r, h), geometric(r, h), 0);
        assert((1 + power(r, h)) * 0 == 0);
    }
}

/// The sum of `n` powers of one is `n`.
proof fn lemma_geometric_one(n: nat)
    ensures
        geometric(1, n) == n,
    decreases n,
{
    let f = |k: int| power(1, k as nat);
    if n > 0 {
        lemma_geometric_one((n - 1) as nat);
        lemma_power_one((n - 1) as nat);
        assert(geometric(1, n) == sum(f, (n - 1) as nat) + f(n - 1));
    } else {
        assert(sum(f, 0) == 0);
    }
}

/// A power of a root times the same or a lower power of its inverse is the
/// power with the difference of the exponents.
proof fn lemma_power_cancel(rho: int, sigma: int, m: nat, j: nat)
    requires
        0 <= rho < 12289,
        0 <= sigma < 12289,
        residue(rho * sigma) == 1,
        j <= m,
    ensures
        residue(power(rho, m) * power(sigma, j)) == power(rho, (m - j) as nat),
{
    let low = power(rho, (m - j) as nat);
    lemma_power_add(rho, (m - j) as nat, j);
    lemma_power_product(rho, sigma, j);
    lemma_power_one(j);
    // power(rho, m) is congruent to low * power(rho, j)
    lemma_congruent_mul(power(rho, m), low * power(rho, j), power(sigma, j), power(sigma, j));
    assert((low * power(rho, j)) * power(sigma, j) == low * (power(rho, j) * power(sigma, j)))
        by (nonlinear_arith);
    lemma_congruent_mul(low, low, power(rho, j) * power(sigma, j), 1);
    assert(low * 1 == low);
    lemma_power_range(rho, (m - j) as nat);
    lemma_small_mod(low as nat, 12289);
}

/// The powers of a root of unity and of its inverse are orthogonal: the sum
/// of their products is the length where the two exponents agree and
/// vanishes where they differ.
pub proof fn lemma_orthogonal(rho: int, sigma: int, bits: nat, m: nat, j: nat)
    requires
        is_root(rho, bits),
        is_root(sigma, bits),
        residue(rho * sigma) == 1,
        m < pow2(bits),
        j < pow2(bits),
    ensures
        congruent(
            sum(|k: int| power(rho, (m * k) as nat) * power(sigma, (k * j) as nat), pow2(bits)),
            if m == j {
                pow2(bits) as int
            } else {
                0
            },
        ),
{
    let n = pow2(bits);
    let term = |k: int| power(rho, (m * k) as nat) * power(sigma, (k * j) as nat);
    let r = residue(power(rho, m) * power(sigma, j));
    let plain = |k: int| power(r, k as nat);
    assert forall|k: int| 0 <= k < n implies congruent(#[trigger] term(k), plain(k)) by {
        assert(m * k >= 0 && k * j >= 0 && k * j == j * k) by (nonlinear_arith)
            requires
                m >= 0,
                k >= 0,
                j >= 0,
        ;
        lemma_power_mul(rho, m, k as nat);
        lemma_power_mul(sigma, j, k as nat);
        lemma_power_product(power(rho, m), power(sigma, j), k as nat);
    }
    lemma_sum_congruent(term, plain, n);
    assert(sum(plain, n) == geometric(r, n));
    assert(residue(sigma * rho) == 1) by {
        assert(sigma * rho == rho * sigma) by (nonlinear_arith);
    }
    if m == j {
        lemma_power_cancel(rho, sigma, m, m);
        assert(power(rho, 0) == 1);
        lemma_geometric_one(n);
    } else if j < m {
        lemma_power_cancel(rho, sigma, m, j);
        lemma_geometric_zero(rho, bits, (m - j) as nat);
    } else {
        lemma_power_cancel(sigma, rho, j, m);
        assert(power(rho, m) * power(sigma, j) == power(sigma, j) * power(rho, m))
            by (nonlinear_arith);
        lemma_geometric_zero(sigma, bits, (j - m) as nat);
    }
}

/// The transform with the inverse root undoes the transform: the sums over
/// the sums of a transform, weighted with the powers of the inverse root,
/// give the input back, times the length.
pub proof fn lemma_inversion(x: Seq<int>, rho: int, sigma: int, bits: nat, j: nat)
    requires
        x.len() == pow2(bits),
        is_root(rho, bits),
        is_root(sigma, bits),
        residue(rho * sigma) == 1,
        j < pow2(bits),
    ensures
        congruent(
            sum(
                |k: int|
                    sum(|m: int| x[m] * power(rho, (m * k) as nat), pow2(bits)) * power(
                        sigma,
                        (k * j) as nat,
                    ),
                pow2(bits),
            ),
            pow2(bits) * x[j as int],
        ),
{
    let n = pow2(bits);
    let f = |m: int, k: int| x[m] * (power(rho, (m * k) as nat) * power(sigma, (k * j) as nat));
    let outer = |k: int|
        sum(|m: int| x[m] * power(rho, (m * k) as nat), n) * power(sigma, (k * j) as nat);
    let rows = |k: int| sum(|m: int| f(m, k), n);
    assert forall|k: int| 0 <= k < n implies #[trigger] outer(k) == rows(k) by {
        let c = power(sigma, (k * j) as nat);
        let inner = |m: int| x[m] * power(rho, (m * k) as nat);
        lemma_sum_scale(c, inner, n);
        let scaled = |m: int| c * inner(m);
        let row = |m: int| f(m, k);
        assert forall|m: int| 0 <= m < n implies #[trigger] scaled(m) == row(m) by {
            assert(c * (x[m] * power(rho, (m * k) as nat)) == x[m] * (power(rho, (m * k) as nat)
                * c)) by (nonlinear_arith);
        }
        lemma_sum_equal(scaled, row, n);
        assert(sum(inner, n) * c == c * sum(inner, n)) by (nonlinear_arith);
    }
    lemma_sum_equal(outer, rows, n);
    lemma_sum_exchange(f, n, n);
    let columns = |m: int| sum(|k: int| f(m, k), n);
    let weights = |m: int|
        if m == j {
            n * x[j as int]
        } else {
            0
        };
    assert forall|m: int| 0 <= m < n implies congruent(#[trigger] columns(m), weights(m)) by {
        let products = |k: int| power(rho, (m * k) as nat) * power(sigma, (k * j) as nat);
        lemma_sum_scale(x[m], products, n);
        lemma_sum_equal(|k: int| x[m] * products(k), |k: int| f(m, k), n);
        lemma_orthogonal(rho, sigma, bits, m as nat, j);
        if m == j {
            lemma_congruent_mul(x[m], x[m], sum(products, n), n as int);
            assert(x[m] * n == n * x[j as int]) by (nonlinear_arith)
                requires
                    m == j,
            ;
        } else {
            lemma_congruent_mul(x[m], x[m], sum(products, n), 0);
            assert(x[m] * 0 == 0);
        }
    }
    lemma_sum_congruent(columns, weights, n);
    lemma_sum_single(n * x[j as int], j as int, n);
}

} // verus!
