//! Polynomials of 512 or 1024 coefficients modulo q: the arithmetic on them,
//! coefficient by coefficient, and their two encodings in bytes, the packed one
//! of fourteen bits for each coefficient and the compressed one of three.

use vstd::prelude::*;
use vstd::std_specs::cmp::PartialEqSpecImpl;
use core::marker::PhantomData;
use crate::coefficient::{Coefficient, residue, compress_value, decompress_value};
use crate::sizes::{PolySize, packed_length, compressed_length};

verus! {

/// A mark that has two values and a switch between them: switching twice
/// gives the value back.
pub trait Involution: Sized {
    /// The other value.
    spec fn spec_op(self) -> Self;

    /// Switching twice gives the value back.
    proof fn lemma_involution(self)
        ensures
            self.spec_op().spec_op() == self,
    ;

    /// The other value.
    fn op(self) -> (r: Self)
        ensures
            r == self.spec_op(),
    ;
}

impl Involution for bool {
    open spec fn spec_op(self) -> bool {
        !self
    }

    proof fn lemma_involution(self) {
    }

    fn op(self) -> (r: bool) {
        !self
    }
}

/// The three marks that a polynomial carries: which of three transforms,
/// each its own inverse as far as the marks go, have been applied to it.
#[derive(Clone, Copy, Debug, PartialEq, Eq, Structural)]
pub struct PolyState {
    /// The coefficients stand in bit-reversed order.
    pub bit_order: bool,
    /// The coefficients spread over all residues, as those of a uniform
    /// polynomial do; small noise has this mark unset.
    pub size: bool,
    /// The coefficients are those of the number-theoretic transform.
    pub domain: bool,
}

impl PolyState {
    /// The marks after the coefficients were permuted by bit reversal.
    pub open spec fn spec_reversed(self) -> PolyState {
        PolyState { bit_order: !self.bit_order, size: self.size, domain: self.domain }
    }

    /// The marks after the butterflies of a transform ran: they take the
    /// coefficients from one order to the other and from one domain to the
    /// other.
    pub open spec fn spec_transformed(self) -> PolyState {
        PolyState { bit_order: !self.bit_order, size: self.size, domain: !self.domain }
    }

    /// Two polynomials can be added, subtracted or multiplied when they
    /// agree in order and in domain.
    pub open spec fn compatible(self, other: PolyState) -> bool {
        self.bit_order == other.bit_order && self.domain == other.domain
    }

    /// The marks of a sum or a difference: it is spread as soon as one
    /// operand is.
    pub open spec fn spec_sum(self, other: PolyState) -> PolyState {
        PolyState {
            bit_order: self.bit_order,
            size: self.size || other.size,
            domain: self.domain,
        }
    }

    /// The marks of a product: it is spread only where both operands are.
    pub open spec fn spec_product(self, other: PolyState) -> PolyState {
        PolyState {
            bit_order: self.bit_order,
            size: self.size && other.size,
            domain: self.domain,
        }
    }

    /// The marks after the coefficients were permuted by bit reversal.
    pub fn reversed(self) -> (r: PolyState)
        ensures
            r == self.spec_reversed(),
    {
        PolyState { bit_order: self.bit_order.op(), size: self.size, domain: self.domain }
    }

    /// The marks after the butterflies of a transform ran.
    pub fn transformed(self) -> (r: PolyState)
        ensures
            r == self.spec_transformed(),
    {
        PolyState { bit_order: self.bit_order.op(), size: self.size, domain: self.domain.op() }
    }

    /// The marks of a sum or a difference.
    pub fn sum(self, other: PolyState) -> (r: PolyState)
        ensures
            r == self.spec_sum(other),
    {
        PolyState {
            bit_order: self.bit_order,
            size: self.size || other.size,
            domain: self.domain,
        }
    }

    /// The marks of a product.
    pub fn product(self, other: PolyState) -> (r: PolyState)
        ensures
            r == self.spec_product(other),
    {
        PolyState {
            bit_order: self.bit_order,
            size: self.size && other.size,
            domain: self.domain,
        }
    }
}

/// A coefficient with the marks of the polynomial that it comes from, so
/// that arithmetic on single coefficients keeps to the rules of the marks.
#[derive(Clone, Copy, Debug)]
pub struct CoefficientRich(pub Coefficient, pub PolyState);

impl CoefficientRich {
    /// The coefficient that stores the low sixteen bits of `raw`, with the
    /// marks given.
    pub fn new(raw: u32, state: PolyState) -> (r: Self)
        ensures
            r.0.raw() == raw % 65536,
            r.1 == state,
    {
        CoefficientRich(Coefficient::new((raw % 65536) as u16), state)
    }

    /// The sum of two coefficients that agree in order and domain.
    pub fn add(self, other: CoefficientRich) -> (r: CoefficientRich)
        requires
            self.1.compatible(other.1),
        ensures
            r.0.raw() == (self.0.raw() + other.0.raw()) % 12289,
            r.0.value() == residue(self.0.value() + other.0.value()),
            r.1 == self.1.spec_sum(other.1),
    {
        CoefficientRich(self.0.add(&other.0), self.1.sum(other.1))
    }

    /// The difference of two coefficients that agree in order and domain.
    pub fn sub(self, other: CoefficientRich) -> (r: CoefficientRich)
        requires
            self.1.compatible(other.1),
        ensures
            r.0.raw() == (self.0.raw() + 3 * 12289 - other.0.value()) % 12289,
            r.0.value() == residue(self.0.value() - other.0.value()),
            r.1 == self.1.spec_sum(other.1),
    {
        CoefficientRich(self.0.sub(&other.0), self.1.sum(other.1))
    }

    /// The product of two coefficients that agree in order and domain.
    pub fn mul(self, other: CoefficientRich) -> (r: CoefficientRich)
        requires
            self.1.compatible(other.1),
        ensures
            r.0.raw() == crate::coefficient::montgomery_raw(
                crate::coefficient::montgomery_raw(3186 * other.0.raw()) * self.0.raw(),
            ),
            r.0.value() == residue(self.0.value() * other.0.value()),
            r.1 == self.1.spec_product(other.1),
    {
        CoefficientRich(self.0.mul(&other.0), self.1.product(other.1))
    }
}

/// The first byte of four packed coefficients.
pub open spec fn pack_byte_0(t0: u16) -> u8 {
    (t0 & 0x00ff) as u8
}

/// The second byte of four packed coefficients.
pub open spec fn pack_byte_1(t0: u16, t1: u16) -> u8 {
    ((t0 >> 8) | (t1 << 6)) as u8
}

/// The third byte of four packed coefficients.
pub open spec fn pack_byte_2(t1: u16) -> u8 {
    (t1 >> 2) as u8
}

/// The fourth byte of four packed coefficients.
pub open spec fn pack_byte_3(t1: u16, t2: u16) -> u8 {
    ((t1 >> 10) | (t2 << 4)) as u8
}

/// The fifth byte of four packed coefficients.
pub open spec fn pack_byte_4(t2: u16) -> u8 {
    (t2 >> 4) as u8
}

/// The sixth byte of four packed coefficients.
pub open spec fn pack_byte_5(t2: u16, t3: u16) -> u8 {
    ((t2 >> 12) | (t3 << 2)) as u8
}

/// The seventh byte of four packed coefficients.
pub open spec fn pack_byte_6(t3: u16) -> u8 {
    (t3 >> 6) as u8
}

/// Byte `k` of the packed form of the residues `p`: every four residues
/// fill seven bytes.
pub open spec fn pack_byte(p: Seq<int>, k: int) -> u8 {
    let g = k / 7;
    let t0 = p[4 * g] as u16;
    let t1 = p[4 * g + 1] as u16;
    let t2 = p[4 * g + 2] as u16;
    let t3 = p[4 * g + 3] as u16;
    let j = k % 7;
    if j == 0 {
        pack_byte_0(t0)
    } else if j == 1 {
        pack_byte_1(t0, t1)
    } else if j == 2 {
        pack_byte_2(t1)
    } else if j == 3 {
        pack_byte_3(t1, t2)
    } else if j == 4 {
        pack_byte_4(t2)
    } else if j == 5 {
        pack_byte_5(t2, t3)
    } else {
        pack_byte_6(t3)
    }
}

/// The packed form of the residues `p`.
pub open spec fn pack_spec(p: Seq<int>) -> Seq<u8> {
    Seq::new(packed_length(p.len()), |k: int| pack_byte(p, k))
}

/// The first of the four words that seven bytes hold.
pub open spec fn unpack_word_0(a0: u8, a1: u8) -> u16 {
    (a0 as u16) | (((a1 as u16) & 0x3f) << 8)
}

/// The second of the four words that seven bytes hold.
pub open spec fn unpack_word_1(a1: u8, a2: u8, a3: u8) -> u16 {
    ((a1 as u16) >> 6) | ((a2 as u16) << 2) | (((a3 as u16) & 0x0f) << 10)
}

/// The third of the four words that seven bytes hold.
pub open spec fn unpack_word_2(a3: u8, a4: u8, a5: u8) -> u16 {
    ((a3 as u16) >> 4) | ((a4 as u16) << 4) | (((a5 as u16) & 0x03) << 12)
}

/// The fourth of the four words that seven bytes hold.
pub open spec fn unpack_word_3(a5: u8, a6: u8) -> u16 {
    ((a5 as u16) >> 2) | ((a6 as u16) << 6)
}

/// The fourteen-bit word `i` of the packed bytes `b`.
pub open spec fn unpack_word(b: Seq<u8>, i: int) -> u16 {
    let g = i / 4;
    let j = i % 4;
    if j == 0 {
        unpack_word_0(b[7 * g], b[7 * g + 1])
    } else if j == 1 {
        unpack_word_1(b[7 * g + 1], b[7 * g + 2], b[7 * g + 3])
    } else if j == 2 {
        unpack_word_2(b[7 * g + 3], b[7 * g + 4], b[7 * g + 5])
    } else {
        unpack_word_3(b[7 * g + 5], b[7 * g + 6])
    }
}

/// The bytes `b` are the packed form of a polynomial of `n` coefficients:
/// they have the length of one, and every word is below q.
pub open spec fn unpackable(b: Seq<u8>, n: nat) -> bool {
    &&& b.len() == packed_length(n)
    &&& forall|i: int| 0 <= i < n ==> #[trigger] unpack_word(b, i) < 12289
}

/// The residues that the packed bytes `b` hold.
pub open spec fn unpack_spec(b: Seq<u8>, n: nat) -> Seq<int> {
    Seq::new(n, |i: int| unpack_word(b, i) as int)
}

/// Byte `k` of the compressed form of the residues `p`: every eight
/// residues, quantised to three bits each, fill three bytes.
pub open spec fn compress_byte(p: Seq<int>, k: int) -> u8 {
    let g = k / 3;
    let t0 = compress_value(p[8 * g]) as u8;
    let t1 = compress_value(p[8 * g + 1]) as u8;
    let t2 = compress_value(p[8 * g + 2]) as u8;
    let t3 = compress_value(p[8 * g + 3]) as u8;
    let t4 = compress_value(p[8 * g + 4]) as u8;
    let t5 = compress_value(p[8 * g + 5]) as u8;
    let t6 = compress_value(p[8 * g + 6]) as u8;
    let t7 = compress_value(p[8 * g + 7]) as u8;
    let j = k % 3;
    if j == 0 {
        t0 | (t1 << 3) | (t2 << 6)
    } else if j == 1 {
        (t2 >> 2) | (t3 << 1) | (t4 << 4) | (t5 << 7)
    } else {
        (t5 >> 1) | (t6 << 2) | (t7 << 5)
    }
}

/// The compressed form of the residues `p`.
pub open spec fn compress_spec(p: Seq<int>) -> Seq<u8> {
    Seq::new(compressed_length(p.len()), |k: int| compress_byte(p, k))
}

/// The three-bit value `i` of the compressed bytes `v`.
pub open spec fn compressed_value(v: Seq<u8>, i: int) -> u8 {
    let g = i / 8;
    let a0 = v[3 * g];
    let a1 = v[3 * g + 1];
    let a2 = v[3 * g + 2];
    let j = i % 8;
    if j == 0 {
        a0 & 0x07
    } else if j == 1 {
        (a0 >> 3) & 0x07
    } else if j == 2 {
        (a0 >> 6) | ((a1 << 2) & 0x04)
    } else if j == 3 {
        (a1 >> 1) & 0x07
    } else if j == 4 {
        (a1 >> 4) & 0x07
    } else if j == 5 {
        (a1 >> 7) | ((a2 << 1) & 0x06)
    } else if j == 6 {
        (a2 >> 2) & 0x07
    } else {
        a2 >> 5
    }
}

/// The residues that the compressed bytes `v` stand for.
pub open spec fn decompress_spec(v: Seq<u8>, n: nat) -> Seq<int> {
    Seq::new(n, |i: int| decompress_value(compressed_value(v, i) as int))
}

/// The sum of the residues, coefficient by coefficient.
pub open spec fn add_spec(a: Seq<int>, b: Seq<int>) -> Seq<int> {
    Seq::new(a.len(), |i: int| residue(a[i] + b[i]))
}

/// The difference of the residues, coefficient by coefficient.
pub open spec fn sub_spec(a: Seq<int>, b: Seq<int>) -> Seq<int> {
    Seq::new(a.len(), |i: int| residue(a[i] - b[i]))
}

/// The product of the residues, coefficient by coefficient.
pub open spec fn mul_spec(a: Seq<int>, b: Seq<int>) -> Seq<int> {
    Seq::new(a.len(), |i: int| residue(a[i] * b[i]))
}

/// The residues that a vector of coefficients stands for.
pub open spec fn residues(c: Seq<Coefficient>) -> Seq<int> {
    Seq::new(c.len(), |i: int| c[i].value())
}

/// The representatives that a vector of coefficients stores, reduced or
/// not.
pub open spec fn representatives(c: Seq<Coefficient>) -> Seq<int> {
    Seq::new(c.len(), |i: int| c[i].raw() as int)
}

/// The numbers that 16-bit words are.
pub open spec fn widened(s: Seq<u16>) -> Seq<int> {
    Seq::new(s.len(), |i: int| s[i] as int)
}

/// The residues that stored representatives stand for.
pub open spec fn reduced(s: Seq<int>) -> Seq<int> {
    Seq::new(s.len(), |i: int| residue(s[i]))
}

/// What the product, coefficient by coefficient, stores: the Montgomery
/// reduction of the first representative times the reduction of the second
/// one taken into Montgomery form.
pub open spec fn mul_stored(a: Seq<int>, b: Seq<int>) -> Seq<int> {
    Seq::new(
        a.len(),
        |i: int|
            crate::coefficient::montgomery_raw(
                crate::coefficient::montgomery_raw(3186 * b[i]) * a[i],
            ),
    )
}

/// Whether bit `l` of the 256 bits of the message `m` is set.
pub open spec fn message_bit(m: Seq<u8>, l: int) -> bool {
    m[l / 8] & (1u8 << ((l % 8) as u32)) != 0
}

/// The polynomial of `n` coefficients that encodes the message `m`: the
/// coefficient is q / 2 where the bit of its index modulo 256 is set, and
/// zero elsewhere.
pub open spec fn from_message_spec(m: Seq<u8>, n: nat) -> Seq<int> {
    Seq::new(
        n,
        |i: int|
            if message_bit(m, i % 256) {
                6144int
            } else {
                0int
            },
    )
}

/// The sum of the distances from q / 2 of the first `k` coefficients that
/// carry bit `l`: those with the indices l, l + 256, l + 512 and so on.
pub open spec fn flip_sum(p: Seq<int>, l: int, k: nat) -> int
    decreases k,
{
    if k == 0 {
        0
    } else {
        flip_sum(p, l, (k - 1) as nat) + crate::coefficient::flip_abs_value(p[l + 256 * (k - 1)])
    }
}

/// Bit `l` of the message that the residues `p` decode to: set where the
/// coefficients that carry it lie, taken together, nearer to q / 2 than a
/// quarter of q each.
pub open spec fn decoded_bit(p: Seq<int>, l: int) -> bool {
    flip_sum(p, l, p.len() / 256) < 3072 * (p.len() / 256)
}

/// The byte of eight bits, the first being the lowest.
pub open spec fn byte_of_bits(
    b0: bool,
    b1: bool,
    b2: bool,
    b3: bool,
    b4: bool,
    b5: bool,
    b6: bool,
    b7: bool,
) -> u8 {
    (if b0 { 1u8 } else { 0u8 }) | (if b1 { 2u8 } else { 0u8 }) | (if b2 { 4u8 } else { 0u8 }) | (if b3 {
        8u8
    } else {
        0u8
    }) | (if b4 { 16u8 } else { 0u8 }) | (if b5 { 32u8 } else { 0u8 }) | (if b6 { 64u8 } else { 0u8 })
        | (if b7 { 128u8 } else { 0u8 })
}

/// The 32 bytes of the message that the residues `p` decode to.
pub open spec fn to_message_spec(p: Seq<int>) -> Seq<u8> {
    Seq::new(
        32,
        |b: int|
            byte_of_bits(
                decoded_bit(p, 8 * b),
                decoded_bit(p, 8 * b + 1),
                decoded_bit(p, 8 * b + 2),
                decoded_bit(p, 8 * b + 3),
                decoded_bit(p, 8 * b + 4),
                decoded_bit(p, 8 * b + 5),
                decoded_bit(p, 8 * b + 6),
                decoded_bit(p, 8 * b + 7),
            ),
    )
}

/// The sum of distances for a bit of an encoded message: nothing where the
/// bit is set, the full distance for every copy where it is not.
proof fn lemma_flip_sum_of_message(m: Seq<u8>, n: nat, l: int, k: nat)
    requires
        0 <= l < 256,
        l + 256 * k <= n + 255,
        k <= n / 256,
    ensures
        flip_sum(from_message_spec(m, n), l, k) == if message_bit(m, l) {
            0
        } else {
            6144 * k
        },
    decreases k,
{
    if k > 0 {
        lemma_flip_sum_of_message(m, n, l, (k - 1) as nat);
        let i = l + 256 * (k - 1);
        assert(0 <= i < n);
        assert(i % 256 == l);
    }
}

/// A byte is made of its eight bits.
proof fn lemma_byte_of_its_bits(x: u8)
    by (bit_vector)
    ensures
        byte_of_bits(
            x & (1u8 << 0u32) != 0,
            x & (1u8 << 1u32) != 0,
            x & (1u8 << 2u32) != 0,
            x & (1u8 << 3u32) != 0,
            x & (1u8 << 4u32) != 0,
            x & (1u8 << 5u32) != 0,
            x & (1u8 << 6u32) != 0,
            x & (1u8 << 7u32) != 0,
        ) == x,
{
}

/// Residues whose decoded bits are the bits of a message decode to the
/// message.
pub proof fn lemma_message_of_bits(p: Seq<int>, m: Seq<u8>)
    requires
        m.len() == 32,
        forall|l: int| 0 <= l < 256 ==> #[trigger] decoded_bit(p, l) == message_bit(m, l),
    ensures
        to_message_spec(p) == m,
{
    assert forall|b: int| 0 <= b < 32 implies to_message_spec(p)[b] == m[b] by {
        lemma_byte_of_its_bits(m[b]);
        assert((8 * b) / 8 == b && (8 * b) % 8 == 0);
        assert((8 * b + 1) / 8 == b && (8 * b + 1) % 8 == 1);
        assert((8 * b + 2) / 8 == b && (8 * b + 2) % 8 == 2);
        assert((8 * b + 3) / 8 == b && (8 * b + 3) % 8 == 3);
        assert((8 * b + 4) / 8 == b && (8 * b + 4) % 8 == 4);
        assert((8 * b + 5) / 8 == b && (8 * b + 5) % 8 == 5);
        assert((8 * b + 6) / 8 == b && (8 * b + 6) % 8 == 6);
        assert((8 * b + 7) / 8 == b && (8 * b + 7) % 8 == 7);
    }
    assert(to_message_spec(p) =~= m);
}

/// Decoding the polynomial that encodes a message gives the message back.
pub proof fn lemma_message_round_trip(m: Seq<u8>, n: nat)
    requires
        m.len() == 32,
        n == 512 || n == 1024,
    ensures
        to_message_spec(from_message_spec(m, n)) == m,
{
    let p = from_message_spec(m, n);
    assert forall|l: int| 0 <= l < 256 implies #[trigger] decoded_bit(p, l) == message_bit(m, l) by {
        lemma_flip_sum_of_message(m, n, l, n / 256);
    }
    lemma_message_of_bits(p, m);
}

/// A polynomial of as many coefficients as `N` says, with its marks.
#[derive(Debug)]
pub struct Poly<N: PolySize> {
    pub(crate) coefficients: Vec<Coefficient>,
    pub(crate) state: PolyState,
    pub(crate) length: PhantomData<N>,
}

/// Packing and unpacking are inverse to each other on residues: what
/// `unpack_spec` reads from the packed form of `p` is `p`.
pub proof fn lemma_unpack_pack(p: Seq<int>)
    requires
        p.len() == 512 || p.len() == 1024,
        forall|i: int| 0 <= i < p.len() ==> 0 <= #[trigger] p[i] < 12289,
    ensures
        unpackable(pack_spec(p), p.len()),
        unpack_spec(pack_spec(p), p.len()) == p,
{
    let b = pack_spec(p);
    assert forall|i: int| 0 <= i < p.len() implies #[trigger] unpack_word(b, i) == p[i] by {
        let g = i / 4;
        lemma_group_round_trip(
            p[4 * g] as u16,
            p[4 * g + 1] as u16,
            p[4 * g + 2] as u16,
            p[4 * g + 3] as u16,
        );
        assert(pack_byte(p, 7 * g) == pack_byte_0(p[4 * g] as u16));
        assert(pack_byte(p, 7 * g + 1) == pack_byte_1(p[4 * g] as u16, p[4 * g + 1] as u16));
        assert(pack_byte(p, 7 * g + 2) == pack_byte_2(p[4 * g + 1] as u16));
        assert(pack_byte(p, 7 * g + 3) == pack_byte_3(
            p[4 * g + 1] as u16,
            p[4 * g + 2] as u16,
        ));
        assert(pack_byte(p, 7 * g + 4) == pack_byte_4(p[4 * g + 2] as u16));
        assert(pack_byte(p, 7 * g + 5) == pack_byte_5(
            p[4 * g + 2] as u16,
            p[4 * g + 3] as u16,
        ));
        assert(pack_byte(p, 7 * g + 6) == pack_byte_6(p[4 * g + 3] as u16));
    }
    assert(unpack_spec(b, p.len()) =~= p);
}

/// Unpacking and packing are inverse to each other on bytes: the packed
/// form of what `unpack_spec` reads from `b` is `b`.
pub proof fn lemma_pack_unpack(b: Seq<u8>, n: nat)
    requires
        n == 512 || n == 1024,
        unpackable(b, n),
    ensures
        pack_spec(unpack_spec(b, n)) == b,
{
    let p = unpack_spec(b, n);
    assert forall|k: int| 0 <= k < b.len() implies #[trigger] pack_byte(p, k) == b[k] by {
        let g = k / 7;
        assert(0 <= g && 4 * g + 3 < n);
        lemma_bytes_round_trip(
            b[7 * g],
            b[7 * g + 1],
            b[7 * g + 2],
            b[7 * g + 3],
            b[7 * g + 4],
            b[7 * g + 5],
            b[7 * g + 6],
        );
        assert(p[4 * g] == unpack_word(b, 4 * g));
        assert(p[4 * g + 1] == unpack_word(b, 4 * g + 1));
        assert(p[4 * g + 2] == unpack_word(b, 4 * g + 2));
        assert(p[4 * g + 3] == unpack_word(b, 4 * g + 3));
        assert(unpack_word(b, 4 * g) == unpack_word_0(b[7 * g], b[7 * g + 1]));
        assert(unpack_word(b, 4 * g + 1) == unpack_word_1(b[7 * g + 1], b[7 * g + 2], b[7 * g + 3]));
        assert(unpack_word(b, 4 * g + 2) == unpack_word_2(b[7 * g + 3], b[7 * g + 4], b[7 * g + 5]));
        assert(unpack_word(b, 4 * g + 3) == unpack_word_3(b[7 * g + 5], b[7 * g + 6]));
    }
    assert(pack_spec(p) =~= b);
}

/// The four words cut out of seven bytes give the seven bytes back.
proof fn lemma_bytes_round_trip(a0: u8, a1: u8, a2: u8, a3: u8, a4: u8, a5: u8, a6: u8)
    by (bit_vector)
    ensures
        pack_byte_0(unpack_word_0(a0, a1)) == a0,
        pack_byte_1(unpack_word_0(a0, a1), unpack_word_1(a1, a2, a3)) == a1,
        pack_byte_2(unpack_word_1(a1, a2, a3)) == a2,
        pack_byte_3(unpack_word_1(a1, a2, a3), unpack_word_2(a3, a4, a5)) == a3,
        pack_byte_4(unpack_word_2(a3, a4, a5)) == a4,
        pack_byte_5(unpack_word_2(a3, a4, a5), unpack_word_3(a5, a6)) == a5,
        pack_byte_6(unpack_word_3(a5, a6)) == a6,
{
}

/// Seven bytes packed from four words below 2^14 give the four words back.
proof fn lemma_group_round_trip(t0: u16, t1: u16, t2: u16, t3: u16)
    by (bit_vector)
    requires
        t0 < 16384,
        t1 < 16384,
        t2 < 16384,
        t3 < 16384,
    ensures
        unpack_word_0(pack_byte_0(t0), pack_byte_1(t0, t1)) == t0,
        unpack_word_1(pack_byte_1(t0, t1), pack_byte_2(t1), pack_byte_3(t1, t2)) == t1,
        unpack_word_2(pack_byte_3(t1, t2), pack_byte_4(t2), pack_byte_5(t2, t3)) == t2,
        unpack_word_3(pack_byte_5(t2, t3), pack_byte_6(t3)) == t3,
{
}

impl<N: PolySize> Poly<N> {
    /// A polynomial holds exactly as many coefficients as its length says.
    #[verifier::type_invariant]
    pub open(crate) spec fn well_formed(&self) -> bool {
        self.coefficients@.len() == N::spec_length()
    }

    /// The residues of the coefficients, each in `[0, q)`.
    pub open(crate) spec fn view(&self) -> Seq<int> {
        Seq::new(N::spec_length(), |i: int| self.coefficients@[i].value())
    }

    /// The representatives that the coefficients store, reduced or not.
    pub open(crate) spec fn stored(&self) -> Seq<int> {
        Seq::new(N::spec_length(), |i: int| self.coefficients@[i].raw() as int)
    }

    /// The marks of the polynomial.
    pub open(crate) spec fn spec_state(&self) -> PolyState {
        self.state
    }

    /// The view has the length of the polynomial and holds residues.
    pub proof fn lemma_view(&self)
        ensures
            self@.len() == N::spec_length(),
            forall|i: int| 0 <= i < self@.len() ==> 0 <= #[trigger] self@[i] < 12289,
    {
    }

    /// The view holds the residues of the stored representatives.
    pub proof fn lemma_stored(&self)
        ensures
            self.stored().len() == N::spec_length(),
            forall|i: int| 0 <= i < self.stored().len() ==> 0 <= #[trigger] self.stored()[i] < 65536,
            self@ == reduced(self.stored()),
    {
        assert(self@ =~= reduced(self.stored()));
    }

    /// The polynomial of the given coefficients and marks.
    pub fn new(coefficients: Vec<Coefficient>, state: PolyState) -> (p: Self)
        requires
            coefficients@.len() == N::spec_length(),
        ensures
            p.stored() == representatives(coefficients@),
            p@ == residues(coefficients@),
            p.spec_state() == state,
    {
        let p = Poly { coefficients, state, length: PhantomData };
        assert(p@ =~= residues(coefficients@));
        assert(p.stored() =~= representatives(coefficients@));
        p
    }

    /// The representative that coefficient `i` stores.
    pub fn data(&self, i: usize) -> (r: u16)
        requires
            i < N::spec_length(),
        ensures
            r == self.stored()[i as int],
    {
        proof {
            use_type_invariant(self);
        }
        (self.coefficients[i].data() % 65536) as u16
    }

    /// The marks of the polynomial.
    pub fn state(&self) -> (s: PolyState)
        ensures
            s == self.spec_state(),
    {
        self.state
    }

    /// The residue of coefficient `i`.
    pub fn coefficient(&self, i: usize) -> (r: u16)
        requires
            i < N::spec_length(),
        ensures
            r == self@[i as int],
    {
        proof {
            use_type_invariant(self);
        }
        self.coefficients[i].freeze() as u16
    }

    /// The polynomial in bytes, fourteen bits for each residue.
    pub fn pack(&self) -> (r: Vec<u8>)
        ensures
            r@ == pack_spec(self@),
    {
        proof {
            use_type_invariant(self);
            N::lemma_length();
        }
        let n = N::length();
        let groups = n / 4;
        let mut r: Vec<u8> = Vec::with_capacity(groups * 7);
        let mut g: usize = 0;
        while g < groups
            invariant
                n == N::spec_length(),
                n == 512 || n == 1024,
                groups == n / 4,
                self.coefficients@.len() == n,
                g <= groups,
                r@.len() == 7 * g,
                forall|k: int| 0 <= k < 7 * g ==> r@[k] == pack_byte(self@, k),
            decreases groups - g,
        {
            let t0 = self.coefficients[4 * g].freeze() as u16;
            let t1 = self.coefficients[4 * g + 1].freeze() as u16;
            let t2 = self.coefficients[4 * g + 2].freeze() as u16;
            let t3 = self.coefficients[4 * g + 3].freeze() as u16;
            r.push(#[verifier::truncate] ((t0 & 0x00ff) as u8));
            r.push(#[verifier::truncate] (((t0 >> 8) | (t1 << 6)) as u8));
            r.push(#[verifier::truncate] ((t1 >> 2) as u8));
            r.push(#[verifier::truncate] (((t1 >> 10) | (t2 << 4)) as u8));
            r.push(#[verifier::truncate] ((t2 >> 4) as u8));
            r.push(#[verifier::truncate] (((t2 >> 12) | (t3 << 2)) as u8));
            r.push(#[verifier::truncate] ((t3 >> 6) as u8));
            proof {
                assert(self@[4 * g as int] == t0);
                assert(self@[4 * g + 1] == t1);
                assert(self@[4 * g + 2] == t2);
                assert(self@[4 * g + 3] == t3);
                assert forall|k: int| 7 * g <= k < 7 * g + 7 implies r@[k] == pack_byte(
                    self@,
                    k,
                ) by {
                    assert(k / 7 == g as int);
                    assert(k % 7 == k - 7 * g);
                }
            }
            g += 1;
        }
        assert(r@ =~= pack_spec(self@));
        r
    }

    /// The polynomial that the packed bytes `v` hold, with the marks given;
    /// an error where the bytes have another length than that of a packed
    /// polynomial or hold a word that is no residue.
    pub fn unpack(v: &[u8], state: PolyState) -> (r: Result<Self, ()>)
        ensures
            r is Ok <==> unpackable(v@, N::spec_length()),
            r is Ok ==> r->Ok_0@ == unpack_spec(v@, N::spec_length()),
            r is Ok ==> r->Ok_0.stored() == unpack_spec(v@, N::spec_length()),
            r is Ok ==> r->Ok_0.spec_state() == state,
    {
        proof {
            N::lemma_length();
        }
        let n = N::length();
        let groups = n / 4;
        if v.len() != groups * 7 {
            return Err(());
        }
        let mut c: Vec<Coefficient> = Vec::with_capacity(n);
        let mut g: usize = 0;
        while g < groups
            invariant
                n == N::spec_length(),
                n == 512 || n == 1024,
                groups == n / 4,
                v@.len() == 7 * groups,
                g <= groups,
                c@.len() == 4 * g,
                forall|i: int| 0 <= i < 4 * g ==> #[trigger] unpack_word(v@, i) < 12289,
                forall|i: int| 0 <= i < 4 * g ==> (#[trigger] c@[i]).raw() == unpack_word(v@, i),
            decreases groups - g,
        {
            let a0 = v[7 * g] as u16;
            let a1 = v[7 * g + 1] as u16;
            let a2 = v[7 * g + 2] as u16;
            let a3 = v[7 * g + 3] as u16;
            let a4 = v[7 * g + 4] as u16;
            let a5 = v[7 * g + 5] as u16;
            let a6 = v[7 * g + 6] as u16;
            let w0 = a0 | ((a1 & 0x3f) << 8);
            let w1 = (a1 >> 6) | (a2 << 2) | ((a3 & 0x0f) << 10);
            let w2 = (a3 >> 4) | (a4 << 4) | ((a5 & 0x03) << 12);
            let w3 = (a5 >> 2) | (a6 << 6);
            proof {
                assert((4 * g) / 4 == g as int && (4 * g) % 4 == 0);
                assert((4 * g + 1) / 4 == g as int && (4 * g + 1) % 4 == 1);
                assert((4 * g + 2) / 4 == g as int && (4 * g + 2) % 4 == 2);
                assert((4 * g + 3) / 4 == g as int && (4 * g + 3) % 4 == 3);
                assert(w0 == unpack_word(v@, 4 * g as int));
                assert(w1 == unpack_word(v@, 4 * g + 1));
                assert(w2 == unpack_word(v@, 4 * g + 2));
                assert(w3 == unpack_word(v@, 4 * g + 3));
            }
            let c0 = Coefficient::valid_new(w0);
            let c1 = Coefficient::valid_new(w1);
            let c2 = Coefficient::valid_new(w2);
            let c3 = Coefficient::valid_new(w3);
            match (c0, c1, c2, c3) {
                (Ok(c0), Ok(c1), Ok(c2), Ok(c3)) => {
                    c.push(c0);
                    c.push(c1);
                    c.push(c2);
                    c.push(c3);
                },
                _ => {
                    return Err(());
                },
            }
            g += 1;
        }
        let p = Poly { coefficients: c, state, length: PhantomData };
        assert(p@ =~= unpack_spec(v@, N::spec_length()));
        assert(p.stored() =~= unpack_spec(v@, N::spec_length()));
        Ok(p)
    }

    /// The polynomial in bytes, three bits for each residue: the lossy form
    /// that a ciphertext carries.
    pub fn compress(&self) -> (r: Vec<u8>)
        ensures
            r@ == compress_spec(self@),
    {
        proof {
            use_type_invariant(self);
            N::lemma_length();
        }
        let n = N::length();
        let groups = n / 8;
        let mut r: Vec<u8> = Vec::with_capacity(groups * 3);
        let mut g: usize = 0;
        while g < groups
            invariant
                n == N::spec_length(),
                n == 512 || n == 1024,
                groups == n / 8,
                self.coefficients@.len() == n,
                g <= groups,
                r@.len() == 3 * g,
                forall|k: int| 0 <= k < 3 * g ==> r@[k] == compress_byte(self@, k),
            decreases groups - g,
        {
            let t0 = self.coefficients[8 * g].compress();
            let t1 = self.coefficients[8 * g + 1].compress();
            let t2 = self.coefficients[8 * g + 2].compress();
            let t3 = self.coefficients[8 * g + 3].compress();
            let t4 = self.coefficients[8 * g + 4].compress();
            let t5 = self.coefficients[8 * g + 5].compress();
            let t6 = self.coefficients[8 * g + 6].compress();
            let t7 = self.coefficients[8 * g + 7].compress();
            r.push(t0 | (t1 << 3) | (t2 << 6));
            r.push((t2 >> 2) | (t3 << 1) | (t4 << 4) | (t5 << 7));
            r.push((t5 >> 1) | (t6 << 2) | (t7 << 5));
            proof {
                assert(compress_value(self@[8 * g as int]) == t0);
                assert(compress_value(self@[8 * g + 1]) == t1);
                assert(compress_value(self@[8 * g + 2]) == t2);
                assert(compress_value(self@[8 * g + 3]) == t3);
                assert(compress_value(self@[8 * g + 4]) == t4);
                assert(compress_value(self@[8 * g + 5]) == t5);
                assert(compress_value(self@[8 * g + 6]) == t6);
                assert(compress_value(self@[8 * g + 7]) == t7);
                assert forall|k: int| 3 * g <= k < 3 * g + 3 implies r@[k] == compress_byte(
                    self@,
                    k,
                ) by {
                    assert(k / 3 == g as int);
                    assert(k % 3 == k - 3 * g);
                }
            }
            g += 1;
        }
        assert(r@ =~= compress_spec(self@));
        r
    }

    /// The polynomial that the compressed bytes `v` stand for, with the
    /// marks given.
    pub fn decompress(v: &[u8], state: PolyState) -> (p: Self)
        requires
            v@.len() == compressed_length(N::spec_length()),
        ensures
            p@ == decompress_spec(v@, N::spec_length()),
            p.stored() == decompress_spec(v@, N::spec_length()),
            p.spec_state() == state,
    {
        proof {
            N::lemma_length();
        }
        let n = N::length();
        let groups = n / 8;
        let mut c: Vec<Coefficient> = Vec::with_capacity(n);
        let mut g: usize = 0;
        while g < groups
            invariant
                n == N::spec_length(),
                n == 512 || n == 1024,
                groups == n / 8,
                v@.len() == 3 * groups,
                g <= groups,
                c@.len() == 8 * g,
                forall|i: int|
                    0 <= i < 8 * g ==> (#[trigger] c@[i]).raw() == decompress_value(
                        compressed_value(v@, i) as int,
                    ),
            decreases groups - g,
        {
            let a0 = v[3 * g];
            let a1 = v[3 * g + 1];
            let a2 = v[3 * g + 2];
            let t0 = a0 & 0x07;
            let t1 = (a0 >> 3) & 0x07;
            let t2 = (a0 >> 6) | ((a1 << 2) & 0x04);
            let t3 = (a1 >> 1) & 0x07;
            let t4 = (a1 >> 4) & 0x07;
            let t5 = (a1 >> 7) | ((a2 << 1) & 0x06);
            let t6 = (a2 >> 2) & 0x07;
            let t7 = a2 >> 5;
            proof {
                lemma_three_bits(a0, a1, a2);
                assert((8 * g) / 8 == g as int && (8 * g) % 8 == 0);
                assert((8 * g + 1) / 8 == g as int && (8 * g + 1) % 8 == 1);
                assert((8 * g + 2) / 8 == g as int && (8 * g + 2) % 8 == 2);
                assert((8 * g + 3) / 8 == g as int && (8 * g + 3) % 8 == 3);
                assert((8 * g + 4) / 8 == g as int && (8 * g + 4) % 8 == 4);
                assert((8 * g + 5) / 8 == g as int && (8 * g + 5) % 8 == 5);
                assert((8 * g + 6) / 8 == g as int && (8 * g + 6) % 8 == 6);
                assert((8 * g + 7) / 8 == g as int && (8 * g + 7) % 8 == 7);
                assert(t0 == compressed_value(v@, 8 * g as int));
                assert(t1 == compressed_value(v@, 8 * g + 1));
                assert(t2 == compressed_value(v@, 8 * g + 2));
                assert(t3 == compressed_value(v@, 8 * g + 3));
                assert(t4 == compressed_value(v@, 8 * g + 4));
                assert(t5 == compressed_value(v@, 8 * g + 5));
                assert(t6 == compressed_value(v@, 8 * g + 6));
                assert(t7 == compressed_value(v@, 8 * g + 7));
            }
            c.push(Coefficient::decompress(t0));
            c.push(Coefficient::decompress(t1));
            c.push(Coefficient::decompress(t2));
            c.push(Coefficient::decompress(t3));
            c.push(Coefficient::decompress(t4));
            c.push(Coefficient::decompress(t5));
            c.push(Coefficient::decompress(t6));
            c.push(Coefficient::decompress(t7));
            g += 1;
        }
        let p = Poly { coefficients: c, state, length: PhantomData };
        assert(p@ =~= decompress_spec(v@, N::spec_length())) by {
            assert forall|i: int| 0 <= i < n implies p@[i] == decompress_value(
                compressed_value(v@, i) as int,
            ) by {
                lemma_three_bits(v@[3 * (i / 8)], v@[3 * (i / 8) + 1], v@[3 * (i / 8) + 2]);
            }
        }
        assert(p.stored() =~= decompress_spec(v@, N::spec_length()));
        p
    }

    /// Coefficient `i` with the marks of the polynomial.
    pub open(crate) spec fn rich(&self, i: int) -> CoefficientRich {
        CoefficientRich(self.coefficients@[i], self.state)
    }

    /// A coefficient with marks carries the residue of the coefficient and
    /// the marks of the polynomial.
    pub proof fn lemma_rich(&self, i: int)
        requires
            0 <= i < N::spec_length(),
        ensures
            self.rich(i).0.raw() == self.stored()[i],
            self.rich(i).0.value() == self@[i],
            self.rich(i).1 == self.spec_state(),
    {
    }

    /// The polynomial whose coefficients `f` makes of the coefficients of
    /// `a` and `b`, index by index. All that `f` returns must carry the
    /// marks `state`, which become those of the polynomial.
    pub fn functor_2<F: Fn(CoefficientRich, CoefficientRich) -> CoefficientRich>(
        a: &Poly<N>,
        b: &Poly<N>,
        state: PolyState,
        f: F,
    ) -> (r: Self)
        requires
            forall|x: CoefficientRich, y: CoefficientRich|
                x.1 == a.spec_state() && y.1 == b.spec_state() ==> call_requires(f, (x, y)),
            forall|x: CoefficientRich, y: CoefficientRich, z: CoefficientRich|
                call_ensures(f, (x, y), z) ==> z.1 == state,
        ensures
            r.spec_state() == state,
            forall|i: int|
                0 <= i < N::spec_length() ==> call_ensures(
                    f,
                    (a.rich(i), b.rich(i)),
                    #[trigger] r.rich(i),
                ),
    {
        proof {
            use_type_invariant(a);
            use_type_invariant(b);
        }
        let n = N::length();
        let mut c: Vec<Coefficient> = Vec::with_capacity(n);
        let mut i: usize = 0;
        while i < n
            invariant
                n == N::spec_length(),
                a.coefficients@.len() == n,
                b.coefficients@.len() == n,
                i <= n,
                c@.len() == i,
                forall|x: CoefficientRich, y: CoefficientRich|
                    x.1 == a.spec_state() && y.1 == b.spec_state() ==> call_requires(f, (x, y)),
                forall|x: CoefficientRich, y: CoefficientRich, z: CoefficientRich|
                    call_ensures(f, (x, y), z) ==> z.1 == state,
                forall|j: int|
                    0 <= j < i ==> call_ensures(
                        f,
                        (a.rich(j), b.rich(j)),
                        CoefficientRich(#[trigger] c@[j], state),
                    ),
            decreases n - i,
        {
            let z = f(
                CoefficientRich(a.coefficients[i], a.state),
                CoefficientRich(b.coefficients[i], b.state),
            );
            c.push(z.0);
            i += 1;
        }
        Poly { coefficients: c, state, length: PhantomData }
    }

    /// The polynomial whose coefficients `f` makes of the coefficients of
    /// `a`, `b` and `c`, index by index. All that `f` returns must carry the
    /// marks `state`, which become those of the polynomial.
    pub fn functor_3<F: Fn(CoefficientRich, CoefficientRich, CoefficientRich) -> CoefficientRich>(
        a: &Poly<N>,
        b: &Poly<N>,
        c: &Poly<N>,
        state: PolyState,
        f: F,
    ) -> (r: Self)
        requires
            forall|x: CoefficientRich, y: CoefficientRich, w: CoefficientRich|
                x.1 == a.spec_state() && y.1 == b.spec_state() && w.1 == c.spec_state()
                    ==> call_requires(f, (x, y, w)),
            forall|x: CoefficientRich, y: CoefficientRich, w: CoefficientRich, z: CoefficientRich|
                call_ensures(f, (x, y, w), z) ==> z.1 == state,
        ensures
            r.spec_state() == state,
            forall|i: int|
                0 <= i < N::spec_length() ==> call_ensures(
                    f,
                    (a.rich(i), b.rich(i), c.rich(i)),
                    #[trigger] r.rich(i),
                ),
    {
        proof {
            use_type_invariant(a);
            use_type_invariant(b);
            use_type_invariant(c);
        }
        let n = N::length();
        let mut r: Vec<Coefficient> = Vec::with_capacity(n);
        let mut i: usize = 0;
        while i < n
            invariant
                n == N::spec_length(),
                a.coefficients@.len() == n,
                b.coefficients@.len() == n,
                c.coefficients@.len() == n,
                i <= n,
                r@.len() == i,
                forall|x: CoefficientRich, y: CoefficientRich, w: CoefficientRich|
                    x.1 == a.spec_state() && y.1 == b.spec_state() && w.1 == c.spec_state()
                        ==> call_requires(f, (x, y, w)),
                forall|x: CoefficientRich, y: CoefficientRich, w: CoefficientRich, z: CoefficientRich|
                    call_ensures(f, (x, y, w), z) ==> z.1 == state,
                forall|j: int|
                    0 <= j < i ==> call_ensures(
                        f,
                        (a.rich(j), b.rich(j), c.rich(j)),
                        CoefficientRich(#[trigger] r@[j], state),
                    ),
            decreases n - i,
        {
            let z = f(
                CoefficientRich(a.coefficients[i], a.state),
                CoefficientRich(b.coefficients[i], b.state),
                CoefficientRich(c.coefficients[i], c.state),
            );
            r.push(z.0);
            i += 1;
        }
        Poly { coefficients: r, state, length: PhantomData }
    }

    /// The sum of two polynomials that agree in order and domain.
    pub fn add(&self, other: &Poly<N>) -> (r: Poly<N>)
        requires
            self.spec_state().compatible(other.spec_state()),
        ensures
            r@ == add_spec(self@, other@),
            r.stored() == add_spec(self@, other@),
            r.spec_state() == self.spec_state().spec_sum(other.spec_state()),
    {
        proof {
            use_type_invariant(self);
            use_type_invariant(other);
        }
        let n = N::length();
        let mut c: Vec<Coefficient> = Vec::with_capacity(n);
        let mut i: usize = 0;
        while i < n
            invariant
                n == N::spec_length(),
                self.coefficients@.len() == n,
                other.coefficients@.len() == n,
                i <= n,
                c@.len() == i,
                forall|j: int| 0 <= j < i ==> (#[trigger] c@[j]).value() == residue(self@[j] + other@[j]),
                forall|j: int| 0 <= j < i ==> (#[trigger] c@[j]).raw() < 12289,
            decreases n - i,
        {
            c.push(self.coefficients[i].add(&other.coefficients[i]));
            i += 1;
        }
        let r = Poly { coefficients: c, state: self.state.sum(other.state), length: PhantomData };
        assert(r@ =~= add_spec(self@, other@));
        assert(r.stored() =~= add_spec(self@, other@));
        r
    }

    /// The difference of two polynomials that agree in order and domain.
    pub fn sub(&self, other: &Poly<N>) -> (r: Poly<N>)
        requires
            self.spec_state().compatible(other.spec_state()),
        ensures
            r@ == sub_spec(self@, other@),
            r.stored() == sub_spec(self@, other@),
            r.spec_state() == self.spec_state().spec_sum(other.spec_state()),
    {
        proof {
            use_type_invariant(self);
            use_type_invariant(other);
        }
        let n = N::length();
        let mut c: Vec<Coefficient> = Vec::with_capacity(n);
        let mut i: usize = 0;
        while i < n
            invariant
                n == N::spec_length(),
                self.coefficients@.len() == n,
                other.coefficients@.len() == n,
                i <= n,
                c@.len() == i,
                forall|j: int| 0 <= j < i ==> (#[trigger] c@[j]).value() == residue(self@[j] - other@[j]),
                forall|j: int| 0 <= j < i ==> (#[trigger] c@[j]).raw() < 12289,
            decreases n - i,
        {
            c.push(self.coefficients[i].sub(&other.coefficients[i]));
            i += 1;
        }
        let r = Poly { coefficients: c, state: self.state.sum(other.state), length: PhantomData };
        assert(r@ =~= sub_spec(self@, other@));
        assert(r.stored() =~= sub_spec(self@, other@));
        r
    }

    /// The product, coefficient by coefficient, of two polynomials that
    /// agree in order and domain.
    pub fn mul(&self, other: &Poly<N>) -> (r: Poly<N>)
        requires
            self.spec_state().compatible(other.spec_state()),
        ensures
            r@ == mul_spec(self@, other@),
            r.stored() == mul_stored(self.stored(), other.stored()),
            r.spec_state() == self.spec_state().spec_product(other.spec_state()),
    {
        proof {
            use_type_invariant(self);
            use_type_invariant(other);
        }
        let n = N::length();
        let mut c: Vec<Coefficient> = Vec::with_capacity(n);
        let mut i: usize = 0;
        while i < n
            invariant
                n == N::spec_length(),
                self.coefficients@.len() == n,
                other.coefficients@.len() == n,
                i <= n,
                c@.len() == i,
                forall|j: int| 0 <= j < i ==> (#[trigger] c@[j]).value() == residue(self@[j] * other@[j]),
                forall|j: int|
                    0 <= j < i ==> (#[trigger] c@[j]).raw() == mul_stored(
                        self.stored(),
                        other.stored(),
                    )[j],
            decreases n - i,
        {
            c.push(self.coefficients[i].mul(&other.coefficients[i]));
            i += 1;
        }
        let r = Poly {
            coefficients: c,
            state: self.state.product(other.state),
            length: PhantomData,
        };
        assert(r@ =~= mul_spec(self@, other@));
        assert(r.stored() =~= mul_stored(self.stored(), other.stored()));
        r
    }

    /// The polynomial that encodes the 32 bytes of a message, with the
    /// marks given: every bit is repeated in the coefficients 256 apart.
    pub fn from_message(message: &[u8; 32], state: PolyState) -> (p: Self)
        ensures
            p@ == from_message_spec(message@, N::spec_length()),
            p.stored() == from_message_spec(message@, N::spec_length()),
            p.spec_state() == state,
    {
        let n = N::length();
        let mut c: Vec<Coefficient> = Vec::with_capacity(n);
        let mut i: usize = 0;
        while i < n
            invariant
                n == N::spec_length(),
                i <= n,
                c@.len() == i,
                forall|j: int|
                    0 <= j < i ==> (#[trigger] c@[j]).raw() == if message_bit(message@, j % 256) {
                        6144int
                    } else {
                        0int
                    },
            decreases n - i,
        {
            let l = i % 256;
            let shift = (l % 8) as u32;
            if (message[l / 8] & (1u8 << shift)) != 0 {
                c.push(Coefficient::middle());
            } else {
                c.push(Coefficient::new(0));
            }
            i += 1;
        }
        let p = Poly { coefficients: c, state, length: PhantomData };
        assert(p@ =~= from_message_spec(message@, N::spec_length()));
        assert(p.stored() =~= from_message_spec(message@, N::spec_length()));
        p
    }

    /// Whether the coefficients that carry bit `l` decode to a set bit.
    fn decode_bit(&self, l: usize) -> (r: bool)
        requires
            l < 256,
        ensures
            r == decoded_bit(self@, l as int),
    {
        proof {
            use_type_invariant(self);
            N::lemma_length();
        }
        let n = N::length();
        let copies = n / 256;
        let mut sum: u32 = 0;
        let mut k: usize = 0;
        while k < copies
            invariant
                n == N::spec_length(),
                n == 512 || n == 1024,
                copies == n / 256,
                self.coefficients@.len() == n,
                l < 256,
                k <= copies,
                sum == flip_sum(self@, l as int, k as nat),
                sum <= 6144 * k,
            decreases copies - k,
        {
            let d = self.coefficients[l + 256 * k].flip_abs();
            sum = sum + d as u32;
            k += 1;
        }
        sum < Coefficient::quarter().data() * (n as u32) / 256
    }

    /// The 32 bytes of the message that the polynomial decodes to: a bit is
    /// set where the coefficients that carry it lie near q / 2.
    pub fn to_message_negate(&self) -> (message: [u8; 32])
        ensures
            message@ == to_message_spec(self@),
    {
        let mut message = [0u8; 32];
        let mut b: usize = 0;
        while b < 32
            invariant
                b <= 32,
                forall|j: int|
                    0 <= j < b ==> message@[j] == byte_of_bits(
                        decoded_bit(self@, 8 * j),
                        decoded_bit(self@, 8 * j + 1),
                        decoded_bit(self@, 8 * j + 2),
                        decoded_bit(self@, 8 * j + 3),
                        decoded_bit(self@, 8 * j + 4),
                        decoded_bit(self@, 8 * j + 5),
                        decoded_bit(self@, 8 * j + 6),
                        decoded_bit(self@, 8 * j + 7),
                    ),
            decreases 32 - b,
        {
            let b0: u8 = if self.decode_bit(8 * b) { 1 } else { 0 };
            let b1: u8 = if self.decode_bit(8 * b + 1) { 2 } else { 0 };
            let b2: u8 = if self.decode_bit(8 * b + 2) { 4 } else { 0 };
            let b3: u8 = if self.decode_bit(8 * b + 3) { 8 } else { 0 };
            let b4: u8 = if self.decode_bit(8 * b + 4) { 16 } else { 0 };
            let b5: u8 = if self.decode_bit(8 * b + 5) { 32 } else { 0 };
            let b6: u8 = if self.decode_bit(8 * b + 6) { 64 } else { 0 };
            let b7: u8 = if self.decode_bit(8 * b + 7) { 128 } else { 0 };
            message[b] = b0 | b1 | b2 | b3 | b4 | b5 | b6 | b7;
            b += 1;
        }
        assert(message@ =~= to_message_spec(self@));
        message
    }
}

/// The values cut out of three compressed bytes have three bits each.
proof fn lemma_three_bits(a0: u8, a1: u8, a2: u8)
    by (bit_vector)
    ensures
        a0 & 0x07 < 8,
        (a0 >> 3) & 0x07 < 8,
        (a0 >> 6) | ((a1 << 2) & 0x04) < 8,
        (a1 >> 1) & 0x07 < 8,
        (a1 >> 4) & 0x07 < 8,
        (a1 >> 7) | ((a2 << 1) & 0x06) < 8,
        (a2 >> 2) & 0x07 < 8,
        a2 >> 5 < 8,
{
}

impl<N: PolySize> Clone for Poly<N> {
    /// A copy with the same coefficients and marks.
    fn clone(&self) -> (r: Self)
        ensures
            r.stored() == self.stored(),
            r@ == self@,
            r.spec_state() == self.spec_state(),
    {
        proof {
            use_type_invariant(self);
        }
        let n = N::length();
        let mut c: Vec<Coefficient> = Vec::with_capacity(n);
        let mut i: usize = 0;
        while i < n
            invariant
                n == N::spec_length(),
                self.coefficients@.len() == n,
                i <= n,
                c@.len() == i,
                forall|j: int| 0 <= j < i ==> c@[j] == self.coefficients@[j],
            decreases n - i,
        {
            c.push(self.coefficients[i]);
            i += 1;
        }
        let r = Poly { coefficients: c, state: self.state, length: PhantomData };
        assert(r@ =~= self@);
        assert(r.stored() =~= self.stored());
        r
    }
}

impl<N: PolySize> PartialEq for Poly<N> {
    /// Two polynomials are equal when they hold the same residues.
    fn eq(&self, other: &Self) -> (r: bool) {
        proof {
            use_type_invariant(self);
            use_type_invariant(other);
        }
        let n = N::length();
        let mut i: usize = 0;
        while i < n
            invariant
                n == N::spec_length(),
                self.coefficients@.len() == n,
                other.coefficients@.len() == n,
                i <= n,
                forall|j: int| 0 <= j < i ==> self@[j] == other@[j],
            decreases n - i,
        {
            if self.coefficients[i].freeze() != other.coefficients[i].freeze() {
                assert(self@[i as int] != other@[i as int]);
                return false;
            }
            i += 1;
        }
        assert(self@ =~= other@);
        true
    }
}

impl<N: PolySize> Eq for Poly<N> {

}

impl<N: PolySize> PartialEqSpecImpl for Poly<N> {
    open spec fn obeys_eq_spec() -> bool {
        true
    }

    open spec fn eq_spec(&self, other: &Self) -> bool {
        self@ == other@
    }
}

} // verus!
