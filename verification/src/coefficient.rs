//! Arithmetic on the coefficients of a polynomial: integers modulo q = 12289,
//! kept in sixteen bits and multiplied through Montgomery reduction with the
//! radix R = 2^18.

use vstd::prelude::*;
use vstd::arithmetic::div_mod::*;
use vstd::std_specs::cmp::PartialEqSpecImpl;

verus! {

/// A residue modulo q. The stored sixteen bits may hold any representative
/// of the residue; `value` is the representative in `[0, q)`.
#[derive(Clone, Copy, Debug, Default)]
pub struct Coefficient(pub(crate) u16);

/// The largest argument that `Coefficient::montgomery_reduce` accepts: the
/// intermediate sum of the reduction stays below 2^32 up to here.
pub const MONTGOMERY_LIMIT: u32 = 1073491969;

/// The inverse of the Montgomery radix 2^18 modulo q.
pub open spec fn radix_inverse() -> int {
    576
}

/// The residue of `x` in `[0, q)`.
pub open spec fn residue(x: int) -> int {
    x % 12289
}

/// What Montgomery reduction stores for the argument `x`.
pub open spec fn montgomery_raw(x: int) -> int {
    (x + ((x * 12287) % 262144) * 12289) / 262144
}

/// The distance of the residue `v` from q / 2.
pub open spec fn flip_abs_value(v: int) -> int {
    if v >= 6144 {
        v - 6144
    } else {
        6144 - v
    }
}

/// The three-bit quantisation of the residue `v`.
pub open spec fn compress_value(v: int) -> int {
    ((v * 8 + 6144) / 12289) % 8
}

/// The representative that stands for the three-bit value `t`.
pub open spec fn decompress_value(t: int) -> int {
    (t * 12289 + 4) / 8
}

/// Montgomery reduction divides by the radix: the result, times 2^18, differs
/// from the argument by a multiple of q, so its residue is that of the
/// argument times the inverse of the radix.
pub proof fn lemma_montgomery_residue(x: int)
    requires
        0 <= x <= MONTGOMERY_LIMIT,
        (x + ((x * 12287) % 262144) * 12289) % 262144 == 0,
    ensures
        0 <= montgomery_raw(x) < 4096 + 12289,
        residue(montgomery_raw(x)) == residue(x * radix_inverse()),
{
    let u = (x * 12287) % 262144;
    let t = x + u * 12289;
    let r = t / 262144;
    lemma_fundamental_div_mod(t, 262144);
    assert(t == 262144 * r);
    assert(0 <= u < 262144);
    assert(r < 4096 + 12289) by (nonlinear_arith)
        requires
            262144 * r == x + u * 12289,
            0 <= x <= 1073491969,
            0 <= u < 262144,
    ;
    assert(0 <= r) by (nonlinear_arith)
        requires
            262144 * r == x + u * 12289,
            0 <= x,
            0 <= u,
    ;
    let a = 576 * u - 12287 * r;
    assert(r == 12289 * a + 576 * x) by (nonlinear_arith)
        requires
            262144 * r == x + u * 12289,
            a == 576 * u - 12287 * r,
    ;
    lemma_mod_multiples_vanish(a, 576 * x, 12289);
    assert(576 * x == x * 576) by (nonlinear_arith);
}

impl Coefficient {
    /// The modulus q.
    pub const Q: u16 = 12289;

    /// The negated inverse of q modulo the Montgomery radix.
    pub const Q_INV: u16 = 12287;

    /// The binary logarithm of the Montgomery radix.
    pub const R_LOG: u32 = 18;

    /// The coefficient that encodes a set message bit, q / 2.
    pub fn middle() -> (c: Self)
        ensures
            c.raw() == 6144,
    {
        Coefficient(Self::Q / 2)
    }

    /// A quarter of q, the decoding threshold for one coefficient.
    pub fn quarter() -> (c: Self)
        ensures
            c.raw() == 3072,
    {
        Coefficient(Self::Q / 4)
    }

    /// The stored representative.
    pub open(crate) spec fn raw(&self) -> u16 {
        self.0
    }

    /// The residue in `[0, q)` that the coefficient stands for.
    pub open spec fn value(&self) -> int {
        residue(self.raw() as int)
    }

    /// The residue in `[0, q)`, selected without a branch on the value.
    pub fn freeze(&self) -> (r: i16)
        ensures
            r == self.value(),
            0 <= r < 12289,
    {
        let r = (self.0 % Self::Q) as i16;
        let m = r - 12289i16;
        let c = m >> 15;
        assert(m ^ ((r ^ m) & c) == r) by (bit_vector)
            requires
                m < 0,
                c == m >> 15,
        ;
        m ^ ((r ^ m) & c)
    }

    /// The coefficient that stores `r` as it is.
    pub fn new(r: u16) -> (c: Self)
        ensures
            c.raw() == r,
    {
        Coefficient(r)
    }

    /// The coefficient that stores `r`, for `r` below q only.
    pub fn valid_new(r: u16) -> (c: Result<Self, ()>)
        ensures
            c is Ok <==> r < 12289,
            c is Ok ==> c->Ok_0.raw() == r,
    {
        if r < Self::Q {
            Ok(Self::new(r))
        } else {
            Err(())
        }
    }

    /// The coefficient that stores `r`, for `r` below 5 q only: the largest
    /// multiple of q that sixteen bits hold, so that the residues of the
    /// accepted values are evenly spread.
    pub fn try_new(r: u16) -> (c: Option<Self>)
        ensures
            c is Some <==> r < 61445,
            c is Some ==> c->Some_0.raw() == r,
    {
        if r < (u16::MAX / Self::Q) * Self::Q {
            Some(Self::new(r))
        } else {
            None
        }
    }

    /// The coefficient that stands for the small signed number `s`: it stores
    /// q + s.
    pub fn small(s: i8) -> (c: Self)
        ensures
            c.raw() == 12289 + s,
            c.value() == residue(12289 + s),
    {
        Self::new((12289i16 + (s as i16)) as u16)
    }

    /// The distance of the residue from q / 2.
    pub fn flip_abs(&self) -> (r: u16)
        ensures
            r == flip_abs_value(self.value()),
    {
        let r = self.freeze() - 6144i16;
        let m = r >> 15;
        assert(m == 0 || m == -1) by (bit_vector)
            requires
                m == r >> 15,
        ;
        let s = r + m;
        assert(s ^ m == if r < 0 { (0 - r) as i16 } else { r }) by (bit_vector)
            requires
                -6144 <= r <= 6144,
                m == r >> 15,
                s == r + m,
        ;
        (s ^ m) as u16
    }

    /// Montgomery reduction of `x`: the sum of `x` and the multiple of q that
    /// clears its low eighteen bits, shifted down by eighteen.
    pub fn montgomery_reduce(x: u32) -> (c: Self)
        requires
            x <= MONTGOMERY_LIMIT,
        ensures
            c.raw() == montgomery_raw(x as int),
            c.raw() <= 2 * 12289,
            c.value() == residue(x * radix_inverse()),
    {
        let wide = x as u64;
        let product = wide * 12287u64;
        let u = product & 0x3ffffu64;
        assert(u == product % 262144u64) by (bit_vector)
            requires
                u == product & 0x3ffffu64,
        ;
        let t = wide + u * 12289u64;
        assert(t % 262144u64 == 0) by (bit_vector)
            requires
                wide <= 1073491969u64,
                product == wide * 12287u64,
                u == product & 0x3ffffu64,
                t == wide + u * 12289u64,
        ;
        let reduced = t >> 18;
        assert(reduced == t / 262144u64) by (bit_vector)
            requires
                reduced == t >> 18,
        ;
        proof {
            lemma_montgomery_residue(x as int);
        }
        Coefficient(reduced as u16)
    }

    /// The three-bit quantisation of the residue.
    pub fn compress(&self) -> (r: u8)
        ensures
            r == compress_value(self.value()),
            r < 8,
    {
        let x = self.freeze() as u32;
        let shifted = x << 3;
        assert(shifted == x * 8) by (bit_vector)
            requires
                x < 12289,
                shifted == x << 3,
        ;
        let y = (shifted + 6144u32) / 12289u32;
        assert(y & 0x07 == y % 8) by (bit_vector);
        (y & 0x07) as u8
    }

    /// The coefficient that stands for the quantised value `t`: it stores the
    /// low sixteen bits of (t q + 4) / 8, which is all of it for `t` below 8.
    pub fn decompress(t: u8) -> (c: Self)
        ensures
            c.raw() == decompress_value(t as int) % 65536,
            t < 8 ==> c.raw() == decompress_value(t as int),
    {
        let w = (t as u32) * 12289u32 + 4u32;
        let y = w >> 3;
        assert(y == w / 8u32) by (bit_vector)
            requires
                y == w >> 3,
        ;
        Self::new((y % 65536) as u16)
    }

    /// The stored representative, widened.
    pub fn data(&self) -> (r: u32)
        ensures
            r == self.raw(),
    {
        self.0 as u32
    }

    /// The sum, stored reduced.
    pub fn add(&self, other: &Coefficient) -> (c: Coefficient)
        ensures
            c.raw() == (self.raw() + other.raw()) % 12289,
            c.value() == residue(self.value() + other.value()),
    {
        let sum = (self.0 as u32 + other.0 as u32) % 12289u32;
        proof {
            lemma_add_mod_noop(self.raw() as int, other.raw() as int, 12289);
            lemma_mod_twice(self.raw() + other.raw(), 12289);
        }
        Coefficient::new(sum as u16)
    }

    /// The difference, stored reduced. Three times q is added to the minuend
    /// and the subtrahend is reduced first, so that nothing goes negative.
    pub fn sub(&self, other: &Coefficient) -> (c: Coefficient)
        ensures
            c.raw() == (self.raw() + 3 * 12289 - other.value()) % 12289,
            c.value() == residue(self.value() - other.value()),
    {
        let b = (other.0 % Self::Q) as u32;
        let difference = (self.0 as u32 + 3 * 12289u32 - b) % 12289u32;
        proof {
            let a = self.raw() as int;
            lemma_mod_twice(a + 3 * 12289 - b, 12289);
            lemma_mod_multiples_vanish(3, a - b, 12289);
            assert(a + 3 * 12289 - b == 12289 * 3 + (a - b));
            lemma_sub_mod_noop(a, b as int, 12289);
            lemma_mod_twice(other.raw() as int, 12289);
        }
        Coefficient::new(difference as u16)
    }

    /// The product, by two Montgomery reductions: the first brings `other`
    /// into Montgomery form (3186 is the square of the radix modulo q), the
    /// second takes the radix out of the product again.
    pub fn mul(&self, other: &Coefficient) -> (c: Coefficient)
        ensures
            c.raw() == montgomery_raw(
                montgomery_raw(3186 * other.raw()) * self.raw(),
            ),
            c.value() == residue(self.value() * other.value()),
    {
        let a = self.data();
        let b = other.data();
        assert(3186 * b <= 208794510) by (nonlinear_arith)
            requires
                b <= 65535,
        ;
        let t = Coefficient::montgomery_reduce(3186u32 * b);
        let tr = t.data();
        assert(tr <= 796 + 12289) by {
            lemma_montgomery_bound((3186 * b) as int);
        }
        assert(tr * a <= 1073491969) by (nonlinear_arith)
            requires
                0 <= tr <= 796 + 12289,
                0 <= a <= 65535,
        ;
        let c = Coefficient::montgomery_reduce(tr * a);
        proof {
            lemma_product_residue(a as int, b as int, tr as int);
        }
        c
    }
}

/// The result of a Montgomery reduction exceeds q by no more than the
/// argument divided by the radix.
pub proof fn lemma_montgomery_bound(x: int)
    requires
        0 <= x <= MONTGOMERY_LIMIT,
    ensures
        0 <= montgomery_raw(x) <= x / 262144 + 12289,
{
    let u = (x * 12287) % 262144;
    let t = x + u * 12289;
    let r = t / 262144;
    let h = x / 262144;
    assert(0 <= u < 262144);
    assert(0 <= t < x + 262144 * 12289) by (nonlinear_arith)
        requires
            t == x + u * 12289,
            0 <= x,
            0 <= u < 262144,
    ;
    lemma_fundamental_div_mod(t, 262144);
    lemma_fundamental_div_mod(x, 262144);
    lemma_div_pos_is_pos(t, 262144);
    assert(r <= h + 12289) by (nonlinear_arith)
        requires
            t == 262144 * r + t % 262144,
            x == 262144 * h + x % 262144,
            0 <= t % 262144,
            x % 262144 < 262144,
            t < x + 262144 * 12289,
    ;
}

/// Two chained reductions, the first of 3186 b, give the product of the
/// residues of a and b.
proof fn lemma_product_residue(a: int, b: int, t: int)
    requires
        0 <= a,
        0 <= b,
        0 <= t,
        residue(t) == residue(3186 * b * 576),
    ensures
        residue(t * a * 576) == residue(residue(a) * residue(b)),
{
    // 3186 * 576 = 149 q + 4075 and 4075 * 576 = 191 q + 1.
    assert(3186 * b * 576 * 576 == 12289 * (b * 86015) + b) by (nonlinear_arith);
    lemma_mod_multiples_vanish(b * 86015, b, 12289);
    assert(residue(3186 * b * 576 * 576) == residue(b));
    lemma_mul_mod_noop_left(t, 576, 12289);
    lemma_mul_mod_noop_left(3186 * b * 576, 576, 12289);
    assert(residue(t * 576) == residue(b));
    assert(t * a * 576 == (t * 576) * a) by (nonlinear_arith);
    lemma_mul_mod_noop_left(t * 576, a, 12289);
    lemma_mul_mod_noop_left(b, a, 12289);
    lemma_mul_mod_noop_right(residue(b), a, 12289);
    assert(residue(b) * residue(a) == residue(a) * residue(b)) by (nonlinear_arith);
}

impl PartialEq for Coefficient {
    /// Two coefficients are equal when they stand for the same residue.
    fn eq(&self, other: &Self) -> (r: bool) {
        self.0 % 12289 == other.0 % 12289
    }
}

impl Eq for Coefficient {

}

impl PartialEqSpecImpl for Coefficient {
    open spec fn obeys_eq_spec() -> bool {
        true
    }

    open spec fn eq_spec(&self, other: &Self) -> bool {
        self.value() == other.value()
    }
}

} // verus!
