//! The shortest encoding of a polynomial: its residues read as the digits of
//! one number to the base q, written out in bytes.

use vstd::prelude::*;
use vstd::arithmetic::div_mod::*;
use vstd::arithmetic::power::*;
use core::marker::PhantomData;
use num_bigint::BigUint;
use num_traits::ToPrimitive;
use crate::coefficient::Coefficient;
use crate::poly::{Poly, PolyState};
use crate::sizes::PolySize;

verus! {

/// `num_bigint::BigUint`, an unsigned integer of any size.
#[verifier::external_type_specification]
#[verifier::external_body]
pub struct ExBigUint(BigUint);

/// The number that a big integer holds.
pub uninterp spec fn big_value(n: BigUint) -> nat;

/// The number that bytes stand for, the first being the lowest digit to the
/// base 256.
pub open spec fn le_value(bytes: Seq<u8>) -> nat
    decreases bytes.len(),
{
    if bytes.len() == 0 {
        0
    } else {
        bytes[0] as nat + 256 * le_value(bytes.drop_first())
    }
}

/// The bytes are the shortest that stand for the number `v`: one zero byte
/// for zero, and no zero byte at the end for any other number.
pub open spec fn shortest_bytes(bytes: Seq<u8>, v: nat) -> bool {
    &&& le_value(bytes) == v
    &&& bytes.len() >= 1
    &&& v == 0 ==> bytes.len() == 1
    &&& v > 0 ==> bytes.last() != 0
}

/// The number whose digits to the base q are the first `k` residues of `p`,
/// the first being the highest.
pub open spec fn horner(p: Seq<int>, k: nat) -> nat
    decreases k,
{
    if k == 0 {
        0
    } else {
        (horner(p, (k - 1) as nat) * 12289 + p[k - 1]) as nat
    }
}

/// Digit `j` of `n` digits to the base q of the number `v`, the first being
/// the highest.
pub open spec fn digit(v: nat, n: nat, j: int) -> int {
    (v as int / pow(12289, (n - 1 - j) as nat)) % 12289
}

/// The residues that the bytes of a number stand for.
pub open spec fn from_smallest_spec(bytes: Seq<u8>, n: nat) -> Seq<int> {
    Seq::new(n, |j: int| digit(le_value(bytes), n, j))
}

/// `BigUint::from` for a byte. Believed, not proved: the big integer holds
/// the number of the byte.
#[verifier::external_body]
fn big_from_u8(x: u8) -> (n: BigUint)
    ensures
        big_value(n) == x,
{
    BigUint::from(x)
}

/// `BigUint::from_bytes_le`. Believed, not proved: the big integer holds
/// the number that the bytes stand for, lowest digit first.
#[verifier::external_body]
fn big_from_bytes_le(bytes: &[u8]) -> (n: BigUint)
    ensures
        big_value(n) == le_value(bytes@),
{
    BigUint::from_bytes_le(bytes)
}

/// `BigUint::to_bytes_le`. Believed, not proved: the bytes are the shortest
/// that stand for the number, lowest digit first, and zero gives one byte.
#[verifier::external_body]
fn big_to_bytes_le(n: &BigUint) -> (bytes: Vec<u8>)
    ensures
        shortest_bytes(bytes@, big_value(*n)),
{
    n.to_bytes_le()
}

/// The product of a `BigUint` and a `u16`, by `*`. Believed, not proved:
/// the product of the numbers.
#[verifier::external_body]
fn big_mul_small(n: BigUint, factor: u16) -> (r: BigUint)
    ensures
        big_value(r) == big_value(n) * factor,
{
    n * factor
}

/// The sum of a `BigUint` and a `u16`, by `+`. Believed, not proved: the
/// sum of the numbers.
#[verifier::external_body]
fn big_add_small(n: BigUint, summand: u16) -> (r: BigUint)
    ensures
        big_value(r) == big_value(n) + summand,
{
    n + summand
}

/// The quotient of a `BigUint` by a `u16` that is not zero, by `/`.
/// Believed, not proved: the quotient of the numbers, rounded down.
#[verifier::external_body]
fn big_div_small(n: BigUint, divisor: u16) -> (r: BigUint)
    requires
        divisor > 0,
    ensures
        big_value(r) == big_value(n) / (divisor as nat),
{
    n / divisor
}

/// The remainder of a `BigUint` by a `u16` that is not zero, by `%`, read
/// with `ToPrimitive::to_u16`. Believed, not proved: the remainder of the
/// numbers, which always fits.
#[verifier::external_body]
fn big_rem_small(n: &BigUint, divisor: u16) -> (r: Option<u16>)
    requires
        divisor > 0,
    ensures
        r == Some((big_value(*n) % (divisor as nat)) as u16),
{
    (n % divisor).to_u16()
}

/// Bytes whose last one is not zero stand for a number that is not zero.
proof fn lemma_le_value_positive(bytes: Seq<u8>)
    requires
        bytes.len() >= 1,
        bytes.last() != 0,
    ensures
        le_value(bytes) > 0,
    decreases bytes.len(),
{
    if bytes.len() > 1 {
        let rest = bytes.drop_first();
        assert(rest.last() == bytes.last());
        lemma_le_value_positive(rest);
    }
}

/// A number has one shortest encoding only.
pub proof fn lemma_shortest_bytes_unique(a: Seq<u8>, b: Seq<u8>, v: nat)
    requires
        shortest_bytes(a, v),
        shortest_bytes(b, v),
    ensures
        a == b,
    decreases a.len(),
{
    let rest_a = a.drop_first();
    let rest_b = b.drop_first();
    let high = le_value(rest_a);
    assert(v == a[0] + 256 * le_value(rest_a));
    assert(v == b[0] + 256 * le_value(rest_b));
    assert(a[0] == b[0] && le_value(rest_a) == le_value(rest_b));
    if v == 0 {
        assert(a =~= b);
    } else {
        if rest_a.len() > 0 {
            assert(rest_a.last() == a.last());
            lemma_le_value_positive(rest_a);
        }
        if rest_b.len() > 0 {
            assert(rest_b.last() == b.last());
            lemma_le_value_positive(rest_b);
        }
        if high == 0 {
            assert(rest_a.len() == 0 && rest_b.len() == 0);
            assert(a =~= b);
        } else {
            assert(rest_a.len() > 0 && rest_b.len() > 0);
            lemma_shortest_bytes_unique(rest_a, rest_b, high);
            assert(a =~= seq![a[0]] + rest_a);
            assert(b =~= seq![b[0]] + rest_b);
        }
    }
}

/// The digits of the number that residues make are the residues.
pub proof fn lemma_digit_of_horner(p: Seq<int>, k: nat, j: int)
    requires
        0 <= j < k <= p.len(),
        forall|i: int| 0 <= i < p.len() ==> 0 <= #[trigger] p[i] < 12289,
    ensures
        digit(horner(p, k), k, j) == p[j],
    decreases k,
{
    let before = horner(p, (k - 1) as nat) as int;
    let v = horner(p, k) as int;
    assert(v == before * 12289 + p[k - 1]);
    if j == k - 1 {
        assert(pow(12289, 0) == 1) by {
            lemma_pow0(12289);
        }
        lemma_fundamental_div_mod_converse(v, 12289, before, p[k - 1]);
    } else {
        let e = (k - 2 - j) as nat;
        lemma_digit_of_horner(p, (k - 1) as nat, j);
        lemma_fundamental_div_mod_converse(v, 12289, before, p[k - 1]);
        lemma_pow_positive(12289, e);
        assert(pow(12289, e + 1) == 12289 * pow(12289, e)) by {
            reveal(pow);
        }
        lemma_div_denominator(v, 12289, pow(12289, e));
        assert((k - 1 - j) as nat == e + 1);
    }
}

/// Reading the residues back from the shortest encoding of a polynomial
/// gives the polynomial.
pub proof fn lemma_smallest_round_trip(p: Seq<int>, bytes: Seq<u8>)
    requires
        forall|i: int| 0 <= i < p.len() ==> 0 <= #[trigger] p[i] < 12289,
        shortest_bytes(bytes, horner(p, p.len())),
    ensures
        from_smallest_spec(bytes, p.len()) == p,
{
    assert forall|j: int| 0 <= j < p.len() implies from_smallest_spec(bytes, p.len())[j]
        == p[j] by {
        lemma_digit_of_horner(p, p.len(), j);
    }
    assert(from_smallest_spec(bytes, p.len()) =~= p);
}

impl<N: PolySize> Poly<N> {
    /// The shortest bytes of the number whose digits to the base q are the
    /// residues, the first residue being the highest digit.
    pub fn smallest(&self) -> (bytes: Vec<u8>)
        ensures
            shortest_bytes(bytes@, horner(self@, N::spec_length())),
    {
        let n = N::length();
        let mut q = big_from_u8(0);
        let mut i: usize = 0;
        while i < n
            invariant
                n == N::spec_length(),
                i <= n,
                big_value(q) == horner(self@, i as nat),
            decreases n - i,
        {
            q = big_mul_small(q, Coefficient::Q);
            q = big_add_small(q, self.coefficient(i));
            i += 1;
        }
        big_to_bytes_le(&q)
    }

    /// The polynomial whose residues are the digits to the base q of the
    /// number that the bytes stand for, with the marks given.
    pub fn from_smallest(v: &[u8], state: PolyState) -> (p: Self)
        ensures
            p@ == from_smallest_spec(v@, N::spec_length()),
            p.stored() == from_smallest_spec(v@, N::spec_length()),
            p.spec_state() == state,
    {
        proof {
            N::lemma_length();
        }
        let n = N::length();
        let mut q = big_from_bytes_le(v);
        let mut c: Vec<Coefficient> = Vec::with_capacity(n);
        let mut k: usize = 0;
        while k < n
            invariant
                n == N::spec_length(),
                k <= n,
                c@.len() == k,
            decreases n - k,
        {
            c.push(Coefficient::new(0));
            k += 1;
        }
        let mut i: usize = 0;
        proof {
            lemma_pow0(12289);
        }
        while i < n
            invariant
                n == N::spec_length(),
                i <= n,
                c@.len() == n,
                big_value(q) == le_value(v@) as int / pow(12289, i as nat),
                forall|j: int|
                    n - i <= j < n ==> (#[trigger] c@[j]).raw() == digit(le_value(v@), n as nat, j),
            decreases n - i,
        {
            let r = big_rem_small(&q, Coefficient::Q);
            let residue = match r {
                Some(residue) => residue,
                None => 0,
            };
            proof {
                assert((n - 1 - (n - 1 - i)) as nat == i as nat);
                lemma_pow_positive(12289, i as nat);
                assert(pow(12289, (i + 1) as nat) == 12289 * pow(12289, i as nat)) by {
                    reveal(pow);
                }
                lemma_div_denominator(le_value(v@) as int, pow(12289, i as nat), 12289);
                assert(pow(12289, i as nat) * 12289 == 12289 * pow(12289, i as nat))
                    by (nonlinear_arith);
            }
            c.set(n - 1 - i, Coefficient::new(residue));
            q = big_div_small(q, Coefficient::Q);
            i += 1;
        }
        let p = Poly { coefficients: c, state, length: PhantomData };
        assert(p@ =~= from_smallest_spec(v@, N::spec_length()));
        assert(p.stored() =~= from_smallest_spec(v@, N::spec_length()));
        p
    }
}

} // verus!
