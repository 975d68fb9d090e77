//! The number-theoretic transform of a polynomial and its inverse: a
//! multiplication by a table of powers, coefficient by coefficient, and layers
//! of butterflies; and the permutation of the coefficients by bit reversal.

use vstd::prelude::*;
use vstd::arithmetic::div_mod::*;
use vstd::arithmetic::power2::*;
use core::marker::PhantomData;
use crate::coefficient::{Coefficient, montgomery_raw, residue};
use crate::poly::{Poly, representatives, residues};
use crate::sizes::{PolySize, layer_count};
use crate::tables::{
    gammas_bitrev,
    gammas_bitrev_table,
    gammas_inv,
    gammas_inv_table,
    omegas_inv_bitrev,
    omegas_inv_bitrev_table,
};

verus! {

/// The product of a residue and a table entry in Montgomery form: the
/// reduction takes the radix out of the entry.
pub open spec fn montgomery_product(w: u16, x: int) -> int {
    residue(w * x * 576)
}

/// The residues `p`, each multiplied by the entry of `table` at its index.
pub open spec fn multiply_spec(p: Seq<int>, table: Seq<u16>) -> Seq<int> {
    Seq::new(p.len(), |i: int| montgomery_product(table[i], p[i]))
}

/// One layer of butterflies at the distance `d`. The coefficients pair up,
/// `j` with `j + d`, in blocks of `2 d`; the lower one becomes the sum of
/// the pair, the upper one the difference times the entry of `omegas` at the
/// number of the block.
pub open spec fn butterfly_layer(p: Seq<int>, omegas: Seq<u16>, d: int) -> Seq<int> {
    Seq::new(
        p.len(),
        |j: int|
            if (j / d) % 2 == 0 {
                residue(p[j] + p[j + d])
            } else {
                montgomery_product(omegas[j / (2 * d)], residue(p[j - d] - p[j]))
            },
    )
}

/// The first `layers` layers of butterflies, at the distances 1, 2, 4 and
/// so on.
pub open spec fn transform_spec(p: Seq<int>, omegas: Seq<u16>, layers: nat) -> Seq<int>
    decreases layers,
{
    if layers == 0 {
        p
    } else {
        butterfly_layer(
            transform_spec(p, omegas, (layers - 1) as nat),
            omegas,
            pow2((layers - 1) as nat) as int,
        )
    }
}

/// The forward transform of the residues `p`: the multiplication by the
/// powers of gamma, then all layers of butterflies with the same table.
pub open spec fn ntt_spec(p: Seq<int>) -> Seq<int> {
    transform_spec(
        multiply_spec(p, gammas_bitrev(p.len())),
        gammas_bitrev(p.len()),
        layer_count(p.len()),
    )
}

/// The inverse transform of the residues `p`: all layers of butterflies with
/// the powers of the inverse of omega, then the multiplication by the scaled
/// powers of the inverse of gamma.
pub open spec fn inv_ntt_spec(p: Seq<int>) -> Seq<int> {
    multiply_spec(
        transform_spec(p, omegas_inv_bitrev(p.len()), layer_count(p.len())),
        gammas_inv(p.len()),
    )
}

/// What the multiplication by the entries of `table` stores: the
/// Montgomery reduction of each product of an entry and a residue.
pub open spec fn multiply_stored(p: Seq<int>, table: Seq<u16>) -> Seq<int> {
    Seq::new(p.len(), |i: int| montgomery_raw(table[i] * p[i]))
}

/// What one layer of butterflies at the distance `d` stores: the lower
/// coefficient of a pair the reduced sum, the upper one the Montgomery
/// reduction of the entry of `omegas` times the reduced difference.
pub open spec fn butterfly_stored(p: Seq<int>, omegas: Seq<u16>, d: int) -> Seq<int> {
    Seq::new(
        p.len(),
        |j: int|
            if (j / d) % 2 == 0 {
                residue(p[j] + p[j + d])
            } else {
                montgomery_raw(omegas[j / (2 * d)] * residue(p[j - d] - p[j]))
            },
    )
}

/// What the last of `layers` layers of butterflies stores, for one layer at
/// least.
pub open spec fn transform_stored(p: Seq<int>, omegas: Seq<u16>, layers: nat) -> Seq<int> {
    butterfly_stored(
        transform_spec(p, omegas, (layers - 1) as nat),
        omegas,
        pow2((layers - 1) as nat) as int,
    )
}

/// What the forward transform of the residues `p` stores.
pub open spec fn ntt_stored(p: Seq<int>) -> Seq<int> {
    transform_stored(
        multiply_spec(p, gammas_bitrev(p.len())),
        gammas_bitrev(p.len()),
        layer_count(p.len()),
    )
}

/// What the inverse transform of the residues `p` stores.
pub open spec fn inv_ntt_stored(p: Seq<int>) -> Seq<int> {
    multiply_stored(
        transform_spec(p, omegas_inv_bitrev(p.len()), layer_count(p.len())),
        gammas_inv(p.len()),
    )
}

/// The number whose `bits` binary digits are those of `i` in reverse order.
pub open spec fn bit_reverse(i: nat, bits: nat) -> nat
    decreases bits,
{
    if bits == 0 {
        0
    } else {
        (i % 2) * pow2((bits - 1) as nat) + bit_reverse(i / 2, (bits - 1) as nat)
    }
}

/// The residues `p` permuted by bit reversal of the index.
pub open spec fn reverse_bits_spec(p: Seq<int>) -> Seq<int> {
    Seq::new(p.len(), |i: int| p[bit_reverse(i as nat, layer_count(p.len())) as int])
}

/// The bit reversal of a number stays below two to the number of bits.
pub proof fn lemma_bit_reverse_bound(i: nat, bits: nat)
    ensures
        bit_reverse(i, bits) < pow2(bits),
    decreases bits,
{
    if bits == 0 {
        lemma2_to64();
    } else {
        lemma_bit_reverse_bound(i / 2, (bits - 1) as nat);
        lemma_pow2_unfold(bits);
        let h = pow2((bits - 1) as nat);
        assert((i % 2) * h <= h) by (nonlinear_arith)
            requires
                0 <= i % 2 <= 1,
                0 <= h,
        ;
    }
}

/// The bit reversal read from the other end: the reversal of the low
/// digits, doubled, plus the highest digit.
pub proof fn lemma_bit_reverse_high(i: nat, bits: nat)
    requires
        bits >= 1,
        i < pow2(bits),
    ensures
        bit_reverse(i, bits) == 2 * bit_reverse(i % pow2((bits - 1) as nat), (bits - 1) as nat) + i
            / pow2((bits - 1) as nat),
    decreases bits,
{
    lemma2_to64();
    if bits == 1 {
        assert(bit_reverse(i / 2, 0) == 0);
        assert(bit_reverse(i % 1, 0) == 0);
        assert((i % 2) * 1 == i % 2);
    } else {
        let h = pow2((bits - 1) as nat);
        let g = pow2((bits - 2) as nat);
        lemma_pow2_unfold(bits);
        lemma_pow2_unfold((bits - 1) as nat);
        lemma_pow2_pos((bits - 2) as nat);
        let a = i / h;
        let r = i % h;
        let s = r / 2;
        let t = r % 2;
        lemma_fundamental_div_mod(i as int, h as int);
        lemma_fundamental_div_mod(r as int, 2);
        assert(i == 2 * (g * a + s) + t) by (nonlinear_arith)
            requires
                i == h * a + r,
                r == 2 * s + t,
                h == 2 * g,
        ;
        lemma_fundamental_div_mod_converse(i as int, 2, (g * a + s) as int, t as int);
        assert(s < g);
        assert(g * a + s == a * g + s) by (nonlinear_arith);
        lemma_fundamental_div_mod_converse((i / 2) as int, g as int, a as int, s as int);
        lemma_bit_reverse_high(i / 2, (bits - 1) as nat);
        assert(bit_reverse(r, (bits - 1) as nat) == t * g + bit_reverse(s, (bits - 2) as nat));
        assert(2 * (t * g) == t * h) by (nonlinear_arith)
            requires
                h == 2 * g,
        ;
    }
}

/// Reversing the digits twice gives the number back.
pub proof fn lemma_bit_reverse_involution(i: nat, bits: nat)
    requires
        i < pow2(bits),
    ensures
        bit_reverse(bit_reverse(i, bits), bits) == i,
    decreases bits,
{
    lemma2_to64();
    if bits == 0 {
    } else {
        let h = pow2((bits - 1) as nat);
        lemma_pow2_unfold(bits);
        lemma_pow2_pos((bits - 1) as nat);
        let t = i % 2;
        let u = bit_reverse(i / 2, (bits - 1) as nat);
        let j = bit_reverse(i, bits);
        lemma_bit_reverse_bound(i / 2, (bits - 1) as nat);
        lemma_bit_reverse_bound(i, bits);
        assert(j == t * h + u);
        lemma_fundamental_div_mod_converse(j as int, h as int, t as int, u as int);
        lemma_bit_reverse_high(j, bits);
        lemma_bit_reverse_involution(i / 2, (bits - 1) as nat);
        lemma_fundamental_div_mod(i as int, 2);
    }
}

/// Permuting the coefficients by bit reversal twice gives the polynomial
/// back.
pub proof fn lemma_reverse_bits_involution(p: Seq<int>)
    requires
        p.len() == 512 || p.len() == 1024,
    ensures
        reverse_bits_spec(reverse_bits_spec(p)) == p,
{
    lemma2_to64();
    let bits = layer_count(p.len());
    let r = reverse_bits_spec(p);
    assert forall|i: int| 0 <= i < p.len() implies reverse_bits_spec(r)[i] == p[i] by {
        lemma_bit_reverse_bound(i as nat, bits);
        lemma_bit_reverse_involution(i as nat, bits);
    }
    assert(reverse_bits_spec(r) =~= p);
}

/// The marks come back after a transform, a bit reversal, a transform and a
/// bit reversal, as in the way through the transformed domain and back.
pub proof fn lemma_round_trip_marks(state: crate::poly::PolyState)
    ensures
        state.spec_transformed().spec_reversed().spec_transformed().spec_reversed() == state,
{
}

/// The polynomial operations of the transform.
pub trait Ntt: Sized {
    /// The residues that the value holds.
    spec fn numbers(&self) -> Seq<int>;

    /// The forward transform.
    fn ntt(self) -> (r: Self)
        ensures
            r.numbers() == ntt_spec(self.numbers()),
    ;

    /// The inverse transform.
    fn inv_ntt(self) -> (r: Self)
        ensures
            r.numbers() == inv_ntt_spec(self.numbers()),
    ;
}

/// The permutation by bit reversal.
pub trait ReverseBits: Sized {
    /// The residues that the value holds.
    spec fn entries(&self) -> Seq<int>;

    /// The coefficients in bit-reversed order.
    fn reverse_bits(self) -> (r: Self)
        ensures
            r.entries() == reverse_bits_spec(self.entries()),
    ;
}

/// The index with its `bits` binary digits reversed.
pub(crate) fn reverse_index(i: usize, bits: usize) -> (r: usize)
    requires
        bits <= 10,
    ensures
        r == bit_reverse(i as nat, bits as nat),
{
    let mut y: usize = 0;
    let mut x: usize = i;
    let mut k: usize = 0;
    proof {
        lemma2_to64();
    }
    while k < bits
        invariant
            bits <= 10,
            k <= bits,
            y < pow2(k as nat),
            bit_reverse(i as nat, bits as nat) == y * pow2((bits - k) as nat) + bit_reverse(
                x as nat,
                (bits - k) as nat,
            ),
        decreases bits - k,
    {
        proof {
            lemma2_to64();
            lemma_pow2_unfold((bits - k) as nat);
            lemma_pow2_unfold((k + 1) as nat);
            if k < 9 {
                lemma_pow2_strictly_increases(k as nat, 9);
            }
            let h = pow2((bits - k - 1) as nat);
            assert((2 * y + x % 2) * h == y * (2 * h) + (x % 2) * h) by (nonlinear_arith);
        }
        y = y * 2 + x % 2;
        x = x / 2;
        k += 1;
    }
    proof {
        lemma2_to64();
        assert(bit_reverse(x as nat, 0) == 0);
        assert(y * pow2(0) == y) by (nonlinear_arith)
            requires
                pow2(0) == 1,
        ;
    }
    y
}

/// What a Montgomery reduction of the product of a table entry and a stored
/// coefficient stands for.
proof fn lemma_montgomery_product(w: u16, raw: int)
    requires
        0 <= raw,
    ensures
        residue(w * raw * 576) == montgomery_product(w, residue(raw)),
{
    lemma_mul_mod_noop_right(w as int * 576, raw, 12289);
    assert(w * raw * 576 == (w as int * 576) * raw) by (nonlinear_arith);
    assert(w * residue(raw) * 576 == (w as int * 576) * residue(raw)) by (nonlinear_arith);
}

impl<N: PolySize> Poly<N> {
    /// Every coefficient multiplied by the entry of `gammas` at its index.
    pub(crate) fn multiply(self, gammas: &[u16]) -> (r: Self)
        requires
            gammas@.len() >= N::spec_length(),
        ensures
            r@ == multiply_spec(self@, gammas@.take(N::spec_length() as int)),
            r.stored() == multiply_stored(self@, gammas@.take(N::spec_length() as int)),
            r.spec_state() == self.spec_state(),
    {
        proof {
            use_type_invariant(&self);
            N::lemma_length();
        }
        let n = N::length();
        let ghost before = self@;
        let state = self.state;
        let mut c = self.coefficients;
        let mut i: usize = 0;
        while i < n
            invariant
                n == N::spec_length(),
                n == 512 || n == 1024,
                gammas@.len() >= n,
                c@.len() == n,
                before.len() == n,
                i <= n,
                forall|j: int|
                    0 <= j < i ==> (#[trigger] c@[j]).value() == montgomery_product(
                        gammas@[j],
                        before[j],
                    ),
                forall|j: int|
                    0 <= j < i ==> (#[trigger] c@[j]).raw() == montgomery_raw(gammas@[j] * before[j]),
                forall|j: int| i <= j < n ==> (#[trigger] c@[j]).value() == before[j],
            decreases n - i,
        {
            let w = gammas[i] as u32;
            let x = c[i].freeze() as u32;
            assert(w * x <= 1073491969) by (nonlinear_arith)
                requires
                    0 <= w <= 65535,
                    0 <= x < 12289,
            ;
            c.set(i, Coefficient::montgomery_reduce(w * x));
            i += 1;
        }
        let r = Poly { coefficients: c, state, length: PhantomData };
        assert(r@ =~= multiply_spec(before, gammas@.take(N::spec_length() as int)));
        assert(r.stored() =~= multiply_stored(
            before,
            gammas@.take(N::spec_length() as int),
        ));
        r
    }

    /// All layers of butterflies with the table `omegas`, in place.
    pub(crate) fn transform(self, omegas: &[u16]) -> (r: Self)
        requires
            2 * omegas@.len() >= N::spec_length(),
        ensures
            r@ == transform_spec(self@, omegas@, layer_count(N::spec_length())),
            r.stored() == transform_stored(self@, omegas@, layer_count(N::spec_length())),
            r.spec_state() == self.spec_state().spec_transformed(),
    {
        proof {
            use_type_invariant(&self);
            N::lemma_length();
            lemma2_to64();
        }
        let n = N::length();
        let layers: usize = if n == 512 {
            9
        } else {
            10
        };
        let ghost start = self@;
        let state = self.state.transformed();
        let mut c = self.coefficients;
        assert(residues(c@) =~= start);
        let mut i: usize = 0;
        let mut distance: usize = 1;
        let mut blocks: usize = n / 2;
        while i < layers
            invariant
                n == N::spec_length(),
                n == 512 || n == 1024,
                layers == layer_count(n as nat),
                2 * omegas@.len() >= n,
                c@.len() == n,
                i <= layers,
                i < layers ==> distance == pow2(i as nat),
                i < layers ==> blocks == pow2((layers - i - 1) as nat),
                i < layers ==> 2 * distance * blocks == n,
                residues(c@) == transform_spec(start, omegas@, i as nat),
                i > 0 ==> representatives(c@) == transform_stored(start, omegas@, i as nat),
            decreases layers - i,
        {
            let ghost before = residues(c@);
            let ghost target = butterfly_layer(before, omegas@, distance as int);
            let ghost kept = butterfly_stored(before, omegas@, distance as int);
            let mut block: usize = 0;
            let mut base: usize = 0;
            proof {
                lemma_pow2_pos(i as nat);
                assert(2 * distance * 0 == 0) by (nonlinear_arith);
            }
            while block < blocks
                invariant
                    n == N::spec_length(),
                    n == 512 || n == 1024,
                    2 * omegas@.len() >= n,
                    c@.len() == n,
                    1 <= distance,
                    2 * distance * blocks == n,
                    block <= blocks,
                    base == 2 * distance * block,
                    base <= n,
                    before.len() == n,
                    target == butterfly_layer(before, omegas@, distance as int),
                    kept == butterfly_stored(before, omegas@, distance as int),
                    forall|pos: int| 0 <= pos < base ==> (#[trigger] c@[pos]).value() == target[pos],
                    forall|pos: int| 0 <= pos < base ==> (#[trigger] c@[pos]).raw() == kept[pos],
                    forall|pos: int| base <= pos < n ==> (#[trigger] c@[pos]).value() == before[pos],
                decreases blocks - block,
            {
                proof {
                    assert(2 * distance * (block + 1) == base + 2 * distance) by (nonlinear_arith)
                        requires
                            base == 2 * distance * block,
                    ;
                    assert(2 * distance * (block + 1) <= 2 * distance * blocks) by (nonlinear_arith)
                        requires
                            block + 1 <= blocks,
                            0 <= distance,
                    ;
                    assert(block < omegas@.len()) by (nonlinear_arith)
                        requires
                            2 * distance * blocks == n,
                            block < blocks,
                            1 <= distance,
                            2 * omegas@.len() >= n,
                    ;
                }
                let w = omegas[block] as u32;
                let mut offset: usize = 0;
                while offset < distance
                    invariant
                        n == N::spec_length(),
                        n == 512 || n == 1024,
                        c@.len() == n,
                        1 <= distance,
                        base == 2 * distance * block,
                        base + 2 * distance <= n,
                        block < omegas@.len(),
                        w == omegas@[block as int],
                        offset <= distance,
                        before.len() == n,
                        target == butterfly_layer(before, omegas@, distance as int),
                        kept == butterfly_stored(before, omegas@, distance as int),
                        forall|pos: int| 0 <= pos < base + offset ==> (#[trigger] c@[pos]).raw() == kept[pos],
                        forall|pos: int|
                            base + distance <= pos < base + distance + offset ==> (#[trigger] c@[pos]).raw()
                                == kept[pos],
                        forall|pos: int| 0 <= pos < base + offset ==> (#[trigger] c@[pos]).value() == target[pos],
                        forall|pos: int|
                            base + offset <= pos < base + distance ==> (#[trigger] c@[pos]).value() == before[pos],
                        forall|pos: int|
                            base + distance <= pos < base + distance + offset ==> (#[trigger] c@[pos]).value()
                                == target[pos],
                        forall|pos: int| base + distance + offset <= pos < n ==> (#[trigger] c@[pos]).value() == before[pos],
                    decreases distance - offset,
                {
                    let j = base + offset;
                    let a = c[j];
                    let b = c[j + distance];
                    let difference = a.sub(&b);
                    let x = difference.data();
                    assert(w * x <= 1073491969) by (nonlinear_arith)
                        requires
                            0 <= w <= 65535,
                            0 <= x < 12289,
                    ;
                    proof {
                        let d = distance as int;
                        assert(j == (2 * block) * d + offset) by (nonlinear_arith)
                            requires
                                j == base + offset,
                                base == 2 * distance * block,
                                d == distance,
                        ;
                        lemma_fundamental_div_mod_converse(j as int, d, 2 * block, offset as int);
                        assert(j + d == (2 * block + 1) * d + offset) by (nonlinear_arith)
                            requires
                                j == (2 * block) * d + offset,
                        ;
                        lemma_fundamental_div_mod_converse(
                            j + d,
                            d,
                            2 * block + 1,
                            offset as int,
                        );
                        assert(j + d == block * (2 * d) + (d + offset)) by (nonlinear_arith)
                            requires
                                j == (2 * block) * d + offset,
                        ;
                        lemma_fundamental_div_mod_converse(
                            j + d,
                            2 * d,
                            block as int,
                            d + offset,
                        );
                        assert(residue(x as int) == x);
                        lemma_montgomery_product(omegas@[block as int], x as int);
                        assert(target[j as int] == residue(before[j as int] + before[j + d]));
                        assert(target[j + d] == montgomery_product(
                            omegas@[block as int],
                            residue(before[j as int] - before[j + d]),
                        ));
                        assert(kept[j as int] == residue(before[j as int] + before[j + d]));
                        assert(kept[j + d] == montgomery_raw(
                            omegas@[block as int] * residue(before[j as int] - before[j + d]),
                        ));
                        assert(x == residue(before[j as int] - before[j + d]));
                    }
                    c.set(j, a.add(&b));
                    c.set(j + distance, Coefficient::montgomery_reduce(w * x));
                    offset += 1;
                }
                base += 2 * distance;
                block += 1;
            }
            proof {
                assert(residues(c@) =~= target);
                assert(representatives(c@) =~= kept);
                assert(kept == transform_stored(start, omegas@, (i + 1) as nat));
                lemma_pow2_unfold((i + 1) as nat);
                if i + 1 < layers {
                    lemma_pow2_unfold((layers - i - 1) as nat);
                }
                assert(2 * distance * blocks == n);
            }
            i += 1;
            if i < layers {
                proof {
                    let h = pow2((layers - i - 1) as nat);
                    assert(blocks == 2 * h);
                    lemma_pow2_pos((layers - i - 1) as nat);
                    assert(2 * (2 * distance) * h == n && 2 * distance <= n) by (nonlinear_arith)
                        requires
                            2 * distance * blocks == n,
                            blocks == 2 * h,
                            h >= 1,
                            distance >= 0,
                    ;
                }
                distance = distance * 2;
                blocks = blocks / 2;
            }
        }
        let r = Poly { coefficients: c, state, length: PhantomData };
        assert(r@ =~= residues(c@));
        assert(r.stored() =~= representatives(c@));
        r
    }
}

impl<N: PolySize> ReverseBits for Poly<N> {
    open spec fn entries(&self) -> Seq<int> {
        self@
    }

    /// The coefficients in bit-reversed order: coefficient `i` of the result
    /// is the coefficient of `self` at the index `i` with its bits reversed.
    fn reverse_bits(self) -> (r: Self)
        ensures
            r@ == reverse_bits_spec(self@),
            r.stored() == reverse_bits_spec(self.stored()),
            r.spec_state() == self.spec_state().spec_reversed(),
    {
        proof {
            use_type_invariant(&self);
            N::lemma_length();
            lemma2_to64();
        }
        let n = N::length();
        let bits: usize = if n == 512 {
            9
        } else {
            10
        };
        let mut c: Vec<Coefficient> = Vec::with_capacity(n);
        let mut i: usize = 0;
        while i < n
            invariant
                n == N::spec_length(),
                n == 512 || n == 1024,
                bits == layer_count(n as nat),
                n == pow2(bits as nat),
                self.coefficients@.len() == n,
                i <= n,
                c@.len() == i,
                forall|j: int|
                    0 <= j < i ==> c@[j] == self.coefficients@[bit_reverse(j as nat, bits as nat) as int],
            decreases n - i,
        {
            let j = reverse_index(i, bits);
            proof {
                lemma_bit_reverse_bound(i as nat, bits as nat);
            }
            c.push(self.coefficients[j]);
            i += 1;
        }
        let r = Poly { coefficients: c, state: self.state.reversed(), length: PhantomData };
        assert(r@ =~= reverse_bits_spec(self@)) by {
            assert forall|j: int| 0 <= j < n implies r@[j] == reverse_bits_spec(self@)[j] by {
                lemma_bit_reverse_bound(j as nat, bits as nat);
            }
        }
        assert(r.stored() =~= reverse_bits_spec(self.stored())) by {
            assert forall|j: int| 0 <= j < n implies r.stored()[j] == reverse_bits_spec(
                self.stored(),
            )[j] by {
                lemma_bit_reverse_bound(j as nat, bits as nat);
            }
        }
        r
    }
}

impl<N: PolySize> Ntt for Poly<N> {
    open spec fn numbers(&self) -> Seq<int> {
        self@
    }

    /// The forward transform: it takes coefficients in bit-reversed order to
    /// the values of the polynomial in natural order.
    fn ntt(self) -> (r: Self)
        ensures
            r@ == ntt_spec(self@),
            r.stored() == ntt_stored(self@),
            r.spec_state() == self.spec_state().spec_transformed(),
    {
        proof {
            N::lemma_length();
        }
        let t = gammas_bitrev_table(N::length());
        assert(t@.take(N::spec_length() as int) =~= t@);
        self.multiply(t.as_slice()).transform(t.as_slice())
    }

    /// The inverse transform, scaled by the inverse of the length.
    fn inv_ntt(self) -> (r: Self)
        ensures
            r@ == inv_ntt_spec(self@),
            r.stored() == inv_ntt_stored(self@),
            r.spec_state() == self.spec_state().spec_transformed(),
    {
        proof {
            N::lemma_length();
        }
        let t = gammas_inv_table(N::length());
        assert(t@.take(N::spec_length() as int) =~= t@);
        let omegas = omegas_inv_bitrev_table(N::length());
        self.transform(omegas.as_slice()).multiply(t.as_slice())
    }
}

} // verus!
