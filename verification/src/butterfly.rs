//! What the layers of butterflies compute: for twiddle factors that are the
//! powers of a root of unity in bit-reversed order, the sums of a discrete
//! Fourier transform.

use vstd::prelude::*;
use vstd::arithmetic::div_mod::*;
use vstd::arithmetic::power2::*;
use crate::coefficient::residue;
use crate::fourier::{
    power,
    sum,
};
use crate::ntt::{
    bit_reverse,
    butterfly_layer,
    lemma_bit_reverse_bound,
    lemma_bit_reverse_high,
    lemma_bit_reverse_involution,
    transform_spec,
};

verus! {

/// The factors that a table in Montgomery form stands for.
pub open spec fn twiddles(table: Seq<u16>) -> Seq<int> {
    Seq::new(table.len(), |k: int| residue(table[k] * 576))
}

/// One layer of butterflies at the distance `d` with the factors `w`.
pub open spec fn layer(a: Seq<int>, w: Seq<int>, d: int) -> Seq<int> {
    Seq::new(
        a.len(),
        |j: int|
            if (j / d) % 2 == 0 {
                residue(a[j] + a[j + d])
            } else {
                residue(w[j / (2 * d)] * residue(a[j - d] - a[j]))
            },
    )
}

/// The first `layers` layers, at the distances 1, 2, 4 and so on.
pub open spec fn network(a: Seq<int>, w: Seq<int>, layers: nat) -> Seq<int>
    decreases layers,
{
    if layers == 0 {
        a
    } else {
        layer(network(a, w, (layers - 1) as nat), w, pow2((layers - 1) as nat) as int)
    }
}

/// As many layers at the distances 2, 4, 8 and so on.
pub open spec fn network_doubled(a: Seq<int>, w: Seq<int>, layers: nat) -> Seq<int>
    decreases layers,
{
    if layers == 0 {
        a
    } else {
        layer(network_doubled(a, w, (layers - 1) as nat), w, 2 * pow2((layers - 1) as nat) as int)
    }
}

/// Every second entry of `a`, from the entry `c` on.
pub open spec fn stride(a: Seq<int>, c: int) -> Seq<int> {
    Seq::new(a.len() / 2, |i: int| a[2 * i + c])
}

/// The entries of `a` in bit-reversed order.
pub open spec fn reversed(a: Seq<int>, bits: nat) -> Seq<int> {
    Seq::new(a.len(), |m: int| a[bit_reverse(m as nat, bits) as int])
}

/// Value `k` of the discrete Fourier transform of `x` with the root `rho`.
pub open spec fn dft(x: Seq<int>, rho: int, k: int) -> int {
    sum(|m: int| x[m] * power(rho, (m * k) as nat), x.len())
}

/// The layers with a table in Montgomery form are the layers with the
/// factors that the table stands for.
pub proof fn lemma_transform_is_network(p: Seq<int>, table: Seq<u16>, layers: nat)
    requires
        p.len() <= 2 * table.len(),
    ensures
        transform_spec(p, table, layers) == network(p, twiddles(table), layers),
        network(p, twiddles(table), layers).len() == p.len(),
    decreases layers,
{
    if layers > 0 {
        lemma_transform_is_network(p, table, (layers - 1) as nat);
        let before = network(p, twiddles(table), (layers - 1) as nat);
        let d = pow2((layers - 1) as nat) as int;
        lemma_pow2_pos((layers - 1) as nat);
        let w = twiddles(table);
        assert forall|j: int| 0 <= j < p.len() implies butterfly_layer(before, table, d)[j]
            == layer(before, w, d)[j] by {
            if (j / d) % 2 != 0 {
                let k = j / (2 * d);
                lemma_div_pos_is_pos(j, 2 * d);
                assert(k < table.len()) by {
                    lemma_fundamental_div_mod(j, 2 * d);
                    assert(2 * d * k <= j);
                    assert(2 * k <= 2 * d * k) by (nonlinear_arith)
                        requires
                            d >= 1,
                            k >= 0,
                    ;
                }
                let x = residue(before[j - d] - before[j]);
                lemma_mul_mod_noop_left(table[k] * 576, x, 12289);
                assert(table[k] * x * 576 == (table[k] * 576) * x) by (nonlinear_arith);
            }
        }
        assert(butterfly_layer(before, table, d) =~= layer(before, w, d));
    }
}

/// The layers, the first one apart, are the layers at doubled distances on
/// what the first layer gives.
pub proof fn lemma_network_unfold_first(a: Seq<int>, w: Seq<int>, layers: nat)
    ensures
        network(a, w, layers + 1) == network_doubled(layer(a, w, 1), w, layers),
    decreases layers,
{
    lemma2_to64();
    let b = layer(a, w, 1);
    if layers == 0 {
        assert(network(a, w, 0) == a);
        assert(network(a, w, 1) == layer(network(a, w, 0), w, pow2(0) as int));
        assert(network_doubled(b, w, 0) == b);
    } else {
        lemma_network_unfold_first(a, w, (layers - 1) as nat);
        lemma_pow2_unfold(layers);
        assert(network(a, w, layers + 1) == layer(network(a, w, layers), w, pow2(layers) as int));
        assert(network_doubled(b, w, layers) == layer(
            network_doubled(b, w, (layers - 1) as nat),
            w,
            2 * pow2((layers - 1) as nat) as int,
        ));
    }
}

/// A layer at the distance `2 d` works on the entries at the even places
/// and on those at the odd places apart, on each as a layer at the distance
/// `d`.
pub proof fn lemma_stride_layer(a: Seq<int>, w: Seq<int>, d: int, c: int)
    requires
        d >= 1,
        c == 0 || c == 1,
        a.len() % 2 == 0,
        (a.len() as int / 2) % (2 * d) == 0,
    ensures
        stride(layer(a, w, 2 * d), c) == layer(stride(a, c), w, d),
{
    let h = a.len() as int / 2;
    let s = stride(a, c);
    assert forall|i: int| 0 <= i < h implies stride(layer(a, w, 2 * d), c)[i] == layer(s, w, d)[i] by {
        let j = 2 * i + c;
        let t = i / d;
        let r = i % d;
        lemma_fundamental_div_mod(i, d);
        lemma_div_pos_is_pos(i, d);
        assert(j == t * (2 * d) + (2 * r + c)) by (nonlinear_arith)
            requires
                j == 2 * i + c,
                i == d * t + r,
        ;
        lemma_fundamental_div_mod_converse(j, 2 * d, t, 2 * r + c);
        let u = i / (2 * d);
        let v = i % (2 * d);
        lemma_fundamental_div_mod(i, 2 * d);
        assert(j == u * (4 * d) + (2 * v + c)) by (nonlinear_arith)
            requires
                j == 2 * i + c,
                i == (2 * d) * u + v,
        ;
        lemma_fundamental_div_mod_converse(j, 4 * d, u, 2 * v + c);
        assert(2 * (2 * d) == 4 * d);
        if t % 2 == 0 {
            let blocks = h / (2 * d);
            lemma_fundamental_div_mod(h, 2 * d);
            let half = t / 2;
            assert(t == 2 * half);
            let wide = 2 * d;
            assert(i == wide * half + r) by (nonlinear_arith)
                requires
                    i == d * t + r,
                    t == 2 * half,
                    wide == 2 * d,
            ;
            assert(half < blocks) by (nonlinear_arith)
                requires
                    wide * half + r < wide * blocks,
                    r >= 0,
                    wide > 0,
            ;
            assert(wide * half + wide <= wide * blocks) by (nonlinear_arith)
                requires
                    half + 1 <= blocks,
                    wide > 0,
            ;
            assert(i + d < h);
            assert(s[i + d] == a[2 * (i + d) + c]);
        } else {
            assert(t >= 1);
            assert(i - d >= 0) by (nonlinear_arith)
                requires
                    i == d * t + r,
                    t >= 1,
                    r >= 0,
                    d >= 1,
            ;
            assert(s[i - d] == a[2 * (i - d) + c]);
        }
    }
    assert(stride(layer(a, w, 2 * d), c) =~= layer(s, w, d));
}

/// The layers at doubled distances work on the entries at the even places
/// and on those at the odd places apart, on each as the layers at the plain
/// distances.
pub proof fn lemma_stride_network(a: Seq<int>, w: Seq<int>, layers: nat, bits: nat, c: int)
    requires
        c == 0 || c == 1,
        a.len() == 2 * pow2(bits),
        layers <= bits,
    ensures
        stride(network_doubled(a, w, layers), c) == network(stride(a, c), w, layers),
        network_doubled(a, w, layers).len() == a.len(),
    decreases layers,
{
    if layers > 0 {
        let before = network_doubled(a, w, (layers - 1) as nat);
        lemma_stride_network(a, w, (layers - 1) as nat, bits, c);
        let d = pow2((layers - 1) as nat) as int;
        lemma_pow2_pos((layers - 1) as nat);
        lemma_pow2_unfold(layers);
        lemma_pow2_adds(layers, (bits - layers) as nat);
        let rest = pow2((bits - layers) as nat) as int;
        assert(pow2(bits) == (2 * d) * rest);
        lemma_mod_multiples_basic(rest, 2 * d);
        assert(rest * (2 * d) == (2 * d) * rest) by (nonlinear_arith);
        lemma_stride_layer(before, w, d, c);
    }
}

/// For an index below half the range, the bit reversal with one digit more
/// is twice the bit reversal; for the index plus half the range it is one
/// more than that.
pub proof fn lemma_bit_reverse_halves(m: nat, bits: nat)
    requires
        bits >= 1,
        m < pow2((bits - 1) as nat),
    ensures
        bit_reverse(m, bits) == 2 * bit_reverse(m, (bits - 1) as nat),
        bit_reverse(m + pow2((bits - 1) as nat), bits) == 2 * bit_reverse(m, (bits - 1) as nat) + 1,
{
    let h = pow2((bits - 1) as nat);
    lemma_pow2_unfold(bits);
    lemma_bit_reverse_high(m, bits);
    lemma_small_mod(m, h);
    lemma_basic_div(m as int, h as int);
    lemma_bit_reverse_high(m + h, bits);
    lemma_fundamental_div_mod_converse((m + h) as int, h as int, 1, m as int);
}

} // verus!
