//! Sums and powers modulo q: the arithmetic behind the law that the
//! transform and its inverse undo each other.

use vstd::prelude::*;
use vstd::arithmetic::div_mod::*;
use vstd::arithmetic::power2::*;
use crate::coefficient::residue;

verus! {

/// The power of `b` with the exponent `e`, reduced modulo q.
pub open spec fn power(b: int, e: nat) -> int
    decreases e,
{
    if e == 0 {
        1
    } else {
        residue(b * power(b, (e - 1) as nat))
    }
}

/// The sum of the first `n` values of `f`.
pub open spec fn sum(f: spec_fn(int) -> int, n: nat) -> int
    decreases n,
{
    if n == 0 {
        0
    } else {
        sum(f, (n - 1) as nat) + f(n - 1)
    }
}

/// Two numbers are congruent modulo q.
pub open spec fn congruent(a: int, b: int) -> bool {
    residue(a) == residue(b)
}

/// `rho` is a root of unity of the order two to the `bits`: its power with
/// half that exponent is minus one.
pub open spec fn is_root(rho: int, bits: nat) -> bool {
    &&& 0 <= rho < 12289
    &&& bits >= 1 ==> power(rho, pow2((bits - 1) as nat)) == 12288
}

/// Products of congruent numbers are congruent.
pub proof fn lemma_congruent_mul(a: int, b: int, c: int, d: int)
    requires
        congruent(a, b),
        congruent(c, d),
    ensures
        congruent(a * c, b * d),
{
    lemma_mul_mod_noop(a, c, 12289);
    lemma_mul_mod_noop(b, d, 12289);
}

/// Sums of congruent numbers are congruent.
pub proof fn lemma_congruent_add(a: int, b: int, c: int, d: int)
    requires
        congruent(a, b),
        congruent(c, d),
    ensures
        congruent(a + c, b + d),
        congruent(a - c, b - d),
{
    lemma_add_mod_noop(a, c, 12289);
    lemma_add_mod_noop(b, d, 12289);
    lemma_sub_mod_noop(a, c, 12289);
    lemma_sub_mod_noop(b, d, 12289);
}

/// A number is congruent to its residue.
pub proof fn lemma_congruent_residue(a: int)
    ensures
        congruent(residue(a), a),
        0 <= residue(a) < 12289,
{
    lemma_mod_twice(a, 12289);
}

/// A power is a residue.
pub proof fn lemma_power_range(b: int, e: nat)
    ensures
        0 <= power(b, e) < 12289,
{
}

/// The power of a sum of exponents is the product of the powers.
pub proof fn lemma_power_add(b: int, e1: nat, e2: nat)
    ensures
        congruent(power(b, e1 + e2), power(b, e1) * power(b, e2)),
    decreases e1,
{
    if e1 == 0 {
        lemma_power_range(b, e2);
        assert(power(b, e2) == 1 * power(b, e2));
        lemma_small_mod(power(b, e2) as nat, 12289);
    } else {
        let lower = power(b, (e1 - 1) as nat);
        let upper = power(b, e2);
        let joined = power(b, (e1 - 1 + e2) as nat);
        lemma_power_add(b, (e1 - 1) as nat, e2);
        assert(power(b, e1 + e2) == residue(b * joined));
        lemma_congruent_mul(b, b, joined, lower * upper);
        lemma_congruent_residue(b * joined);
        lemma_congruent_residue(b * lower);
        lemma_congruent_mul(residue(b * lower), b * lower, upper, upper);
        assert(b * (lower * upper) == (b * lower) * upper) by (nonlinear_arith);
    }
}

/// The power of a power is the power with the product of the exponents.
pub proof fn lemma_power_mul(b: int, e1: nat, e2: nat)
    ensures
        power(power(b, e1), e2) == power(b, e1 * e2),
    decreases e2,
{
    if e2 == 0 {
        assert(e1 * 0 == 0);
    } else {
        lemma_power_mul(b, e1, (e2 - 1) as nat);
        let inner = power(b, e1);
        let before = power(b, e1 * ((e2 - 1) as nat));
        assert(e1 * e2 == e1 + e1 * ((e2 - 1) as nat)) by (nonlinear_arith)
            requires
                e2 >= 1,
        ;
        lemma_power_add(b, e1, e1 * ((e2 - 1) as nat));
        lemma_power_range(b, e1 * e2);
        lemma_small_mod(power(b, e1 * e2) as nat, 12289);
    }
}

/// The power of a product is the product of the powers.
pub proof fn lemma_power_product(a: int, b: int, e: nat)
    ensures
        congruent(power(residue(a * b), e), power(a, e) * power(b, e)),
    decreases e,
{
    if e == 0 {
    } else {
        let c = residue(a * b);
        let pc = power(c, (e - 1) as nat);
        let pa = power(a, (e - 1) as nat);
        let pb = power(b, (e - 1) as nat);
        lemma_power_product(a, b, (e - 1) as nat);
        lemma_congruent_residue(a * b);
        lemma_congruent_mul(c, a * b, pc, pa * pb);
        lemma_congruent_residue(c * pc);
        lemma_congruent_residue(a * pa);
        lemma_congruent_residue(b * pb);
        lemma_congruent_mul(residue(a * pa), a * pa, residue(b * pb), b * pb);
        assert((a * b) * (pa * pb) == (a * pa) * (b * pb)) by (nonlinear_arith);
    }
}

/// Every power of one is one.
pub proof fn lemma_power_one(e: nat)
    ensures
        power(1, e) == 1,
    decreases e,
{
    if e > 0 {
        lemma_power_one((e - 1) as nat);
    }
}

/// The powers of minus one are one for even and minus one for odd
/// exponents.
pub proof fn lemma_power_minus_one(e: nat)
    ensures
        power(12288, e) == if e % 2 == 0 {
            1int
        } else {
            12288int
        },
    decreases e,
{
    if e > 0 {
        lemma_power_minus_one((e - 1) as nat);
    }
}

/// The square of a root of unity is a root of unity of half the order.
pub proof fn lemma_root_square(rho: int, bits: nat)
    requires
        is_root(rho, bits),
        bits >= 1,
    ensures
        is_root(residue(rho * rho), (bits - 1) as nat),
        forall|e: nat| #[trigger] power(residue(rho * rho), e) == power(rho, 2 * e),
        power(rho, pow2(bits)) == 1,
{
    let square = residue(rho * rho);
    assert(power(rho, 2) == square) by {
        assert(power(rho, 0) == 1);
        assert(power(rho, 1) == residue(rho * power(rho, 0)));
        assert(rho * 1 == rho);
        lemma_small_mod(rho as nat, 12289);
        assert(power(rho, 2) == residue(rho * power(rho, 1)));
    }
    assert forall|e: nat| #[trigger] power(square, e) == power(rho, 2 * e) by {
        lemma_power_mul(rho, 2, e);
    }
    lemma_pow2_unfold(bits);
    let h = pow2((bits - 1) as nat);
    lemma_power_add(rho, h, h);
    lemma_power_range(rho, 2 * h);
    lemma_small_mod(power(rho, 2 * h) as nat, 12289);
    assert(residue(12288int * 12288int) == 1);
    if bits >= 2 {
        lemma_pow2_unfold((bits - 1) as nat);
        assert(power(square, pow2((bits - 2) as nat)) == power(rho, 2 * pow2((bits - 2) as nat)));
    }
}

/// Sums of values that agree are equal.
pub proof fn lemma_sum_equal(f: spec_fn(int) -> int, g: spec_fn(int) -> int, n: nat)
    requires
        forall|m: int| 0 <= m < n ==> #[trigger] f(m) == g(m),
    ensures
        sum(f, n) == sum(g, n),
    decreases n,
{
    if n > 0 {
        lemma_sum_equal(f, g, (n - 1) as nat);
    }
}

/// Sums of congruent values are congruent.
pub proof fn lemma_sum_congruent(f: spec_fn(int) -> int, g: spec_fn(int) -> int, n: nat)
    requires
        forall|m: int| 0 <= m < n ==> congruent(#[trigger] f(m), g(m)),
    ensures
        congruent(sum(f, n), sum(g, n)),
    decreases n,
{
    if n > 0 {
        lemma_sum_congruent(f, g, (n - 1) as nat);
        lemma_congruent_add(sum(f, (n - 1) as nat), sum(g, (n - 1) as nat), f(n - 1), g(n - 1));
    }
}

/// A sum over twice `h` values is the sum over the first `h` with the
/// values `h` further on added to them.
pub proof fn lemma_sum_halves(f: spec_fn(int) -> int, h: nat)
    ensures
        sum(f, 2 * h) == sum(|m: int| f(m) + f(m + h), h),
{
    lemma_sum_shifted(f, h, h);
    lemma_sum_add(f, |m: int| f(m + h), h);
    lemma_sum_equal(
        |m: int| f(m) + (|m: int| f(m + h))(m),
        |m: int| f(m) + f(m + h),
        h,
    );
}

/// A sum over `h + k` values is the sum over the first `h` plus the sum
/// over the `k` behind them.
pub proof fn lemma_sum_shifted(f: spec_fn(int) -> int, h: nat, k: nat)
    ensures
        sum(f, h + k) == sum(f, h) + sum(|m: int| f(m + h), k),
    decreases k,
{
    if k > 0 {
        lemma_sum_shifted(f, h, (k - 1) as nat);
    }
}

/// The sum of sums is the sum of the sums.
pub proof fn lemma_sum_add(f: spec_fn(int) -> int, g: spec_fn(int) -> int, n: nat)
    ensures
        sum(|m: int| f(m) + g(m), n) == sum(f, n) + sum(g, n),
    decreases n,
{
    if n > 0 {
        lemma_sum_add(f, g, (n - 1) as nat);
    }
}

/// A factor can be taken out of a sum.
pub proof fn lemma_sum_scale(c: int, f: spec_fn(int) -> int, n: nat)
    ensures
        sum(|m: int| c * f(m), n) == c * sum(f, n),
    decreases n,
{
    if n > 0 {
        lemma_sum_scale(c, f, (n - 1) as nat);
        assert(c * (sum(f, (n - 1) as nat) + f(n - 1)) == c * sum(f, (n - 1) as nat) + c * f(
            n - 1,
        )) by (nonlinear_arith);
    } else {
        assert(c * 0 == 0);
    }
}

/// The sum of a value that stands at one place only, with zero elsewhere.
pub proof fn lemma_sum_single(c: int, j: int, n: nat)
    requires
        0 <= j < n,
    ensures
        sum(
            |m: int|
                if m == j {
                    c
                } else {
                    0
                },
            n,
        ) == c,
    decreases n,
{
    let f = |m: int|
        if m == j {
            c
        } else {
            0
        };
    if n - 1 == j {
        lemma_sum_zero_below(c, j, (n - 1) as nat);
    } else {
        lemma_sum_single(c, j, (n - 1) as nat);
    }
}

/// The sum is zero before the place of the one value is reached.
proof fn lemma_sum_zero_below(c: int, j: int, n: nat)
    requires
        n <= j,
    ensures
        sum(
            |m: int|
                if m == j {
                    c
                } else {
                    0
                },
            n,
        ) == 0,
    decreases n,
{
    if n > 0 {
        lemma_sum_zero_below(c, j, (n - 1) as nat);
    }
}

/// The order of two sums can be exchanged.
pub proof fn lemma_sum_exchange(f: spec_fn(int, int) -> int, n1: nat, n2: nat)
    ensures
        sum(|k: int| sum(|m: int| f(m, k), n1), n2) == sum(|m: int| sum(|k: int| f(m, k), n2), n1),
    decreases n2,
{
    if n2 == 0 {
        lemma_sum_equal(|m: int| sum(|k: int| f(m, k), 0), |m: int| 0int, n1);
        lemma_sum_scale(0, |m: int| 0int, n1);
        lemma_sum_equal(|m: int| 0 * (|m: int| 0int)(m), |m: int| 0int, n1);
    } else {
        let last = (n2 - 1) as nat;
        lemma_sum_exchange(f, n1, last);
        let inner_last = |m: int| sum(|k: int| f(m, k), last);
        let column = |m: int| f(m, n2 - 1);
        lemma_sum_add(inner_last, column, n1);
        lemma_sum_equal(
            |m: int| inner_last(m) + column(m),
            |m: int| sum(|k: int| f(m, k), n2),
            n1,
        );
    }
}

} // verus!
