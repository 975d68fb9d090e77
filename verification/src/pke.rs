//! The public-key encryption scheme: a public parameter expanded from a
//! seed, key generation, and the encryption and decryption of a message of
//! 32 bytes.

use vstd::prelude::*;
use crate::ntt::{Ntt, ReverseBits, inv_ntt_spec, ntt_spec, reverse_bits_spec};
use crate::coefficient::residue;
use crate::poly::{
    CoefficientRich,
    Poly,
    PolyState,
    add_spec,
    compress_spec,
    decompress_spec,
    from_message_spec,
    lemma_pack_unpack,
    lemma_unpack_pack,
    mul_spec,
    pack_spec,
    sub_spec,
    to_message_spec,
    unpack_spec,
    unpackable,
};
use crate::sample::{
    SQUEEZE_LIMIT,
    lemma_uniform_within,
    sample_spec,
    uniform_spec,
    uniform_within,
};
use crate::sizes::{PolySize, compressed_length, packed_length};

verus! {

/// The marks of a key: natural order, small, transformed.
pub open spec fn key_state() -> PolyState {
    PolyState { bit_order: false, size: false, domain: true }
}

/// The marks of the public parameter: natural order, spread, transformed.
pub open spec fn parameter_state() -> PolyState {
    PolyState { bit_order: false, size: true, domain: true }
}

/// The marks of a polynomial that carries a message: natural order, small,
/// not transformed.
pub open spec fn plain_state() -> PolyState {
    PolyState { bit_order: false, size: false, domain: false }
}

/// The secret key that the seed gives: the transformed noise with the
/// number 0.
pub open spec fn secret_spec(seed: Seq<u8>, n: nat) -> Seq<int> {
    ntt_spec(sample_spec(seed, 0, n))
}

/// The public key that the seed gives under the parameter `a`: the
/// transformed noise with the number 1 plus the product of the parameter and
/// the secret key.
pub open spec fn public_spec(a: Seq<int>, seed: Seq<u8>) -> Seq<int> {
    add_spec(ntt_spec(sample_spec(seed, 1, a.len())), mul_spec(a, secret_spec(seed, a.len())))
}

/// What the two parties share: the product of the public key of one and the
/// secret key of the other, taken back out of the transformed domain.
pub open spec fn shared_spec(pk: Seq<int>, sk: Seq<int>) -> Seq<int> {
    inv_ntt_spec(reverse_bits_spec(mul_spec(pk, sk)))
}

/// The compressed ciphertext of `plain` for the public key `pk` under the
/// seed: the shared polynomial of `pk` and the fresh secret key, plus the
/// noise with the number 2, plus the encoded message.
pub open spec fn cipher_spec(seed: Seq<u8>, pk: Seq<int>, plain: Seq<u8>) -> Seq<u8> {
    compress_spec(
        add_spec(
            add_spec(shared_spec(pk, secret_spec(seed, pk.len())), sample_spec(seed, 2, pk.len())),
            from_message_spec(plain, pk.len()),
        ),
    )
}

/// The message that the ciphertext decrypts to with the public key of the
/// sender and the secret key of the receiver.
pub open spec fn decrypt_spec(pk: Seq<int>, sk: Seq<int>, cipher: Seq<u8>) -> Seq<u8> {
    to_message_spec(sub_spec(shared_spec(pk, sk), decompress_spec(cipher, pk.len())))
}

/// The encoding of a public key: the packed key, then the seed of the
/// parameter.
pub open spec fn public_encoding(pk: (Seq<int>, Seq<u8>)) -> Seq<u8> {
    pack_spec(pk.0) + pk.1
}

/// The bytes are the encoding of a public key of `n` coefficients: they
/// have the length of one, the packed key holds residues only, and the seed
/// of the parameter expands within the limit of the sampler.
pub open spec fn public_decodable(buffer: Seq<u8>, n: nat) -> bool {
    &&& buffer.len() == packed_length(n) + 32
    &&& unpackable(buffer.subrange(0, packed_length(n) as int), n)
    &&& uniform_within(
        buffer.subrange(packed_length(n) as int, packed_length(n) as int + 32),
        n,
        SQUEEZE_LIMIT as nat,
    )
}

/// The public key that the bytes encode.
pub open spec fn public_decoding(buffer: Seq<u8>, n: nat) -> (Seq<int>, Seq<u8>) {
    (
        unpack_spec(buffer.subrange(0, packed_length(n) as int), n),
        buffer.subrange(packed_length(n) as int, packed_length(n) as int + 32),
    )
}

/// Decoding the encoding of a public key gives the key back, where the seed
/// of its parameter expands within the limit of the sampler.
pub proof fn lemma_public_round_trip(pk: (Seq<int>, Seq<u8>), n: nat)
    requires
        n == 512 || n == 1024,
        pk.0.len() == n,
        forall|i: int| 0 <= i < n ==> 0 <= #[trigger] pk.0[i] < 12289,
        pk.1.len() == 32,
        uniform_within(pk.1, n, SQUEEZE_LIMIT as nat),
    ensures
        public_decodable(public_encoding(pk), n),
        public_decoding(public_encoding(pk), n) == pk,
{
    lemma_unpack_pack(pk.0);
    let b = public_encoding(pk);
    assert(b.subrange(0, packed_length(n) as int) =~= pack_spec(pk.0));
    assert(b.subrange(packed_length(n) as int, packed_length(n) as int + 32) =~= pk.1);
}

/// Encoding what decodable bytes decode to gives the bytes back.
pub proof fn lemma_public_decoding(buffer: Seq<u8>, n: nat)
    requires
        n == 512 || n == 1024,
        buffer.len() == packed_length(n) + 32,
        unpackable(buffer.subrange(0, packed_length(n) as int), n),
    ensures
        public_encoding(public_decoding(buffer, n)) == buffer,
{
    let head = buffer.subrange(0, packed_length(n) as int);
    let tail = buffer.subrange(packed_length(n) as int, packed_length(n) as int + 32);
    lemma_pack_unpack(head, n);
    crate::hash::lemma_split_join(buffer, packed_length(n) as int, 32);
}

/// The encoding of a ciphertext: the packed public key of the sender, then
/// the compressed polynomial.
pub open spec fn cipher_encoding(ct: (Seq<int>, Seq<u8>)) -> Seq<u8> {
    pack_spec(ct.0) + ct.1
}

/// The bytes are the encoding of a ciphertext for `n` coefficients: they
/// have the length of one, and the packed key holds residues only.
pub open spec fn cipher_decodable(buffer: Seq<u8>, n: nat) -> bool {
    &&& buffer.len() == packed_length(n) + compressed_length(n)
    &&& unpackable(buffer.subrange(0, packed_length(n) as int), n)
}

/// The ciphertext that the bytes encode.
pub open spec fn cipher_decoding(buffer: Seq<u8>, n: nat) -> (Seq<int>, Seq<u8>) {
    (
        unpack_spec(buffer.subrange(0, packed_length(n) as int), n),
        buffer.subrange(packed_length(n) as int, packed_length(n) as int + compressed_length(n)),
    )
}

/// Decoding the encoding of a ciphertext gives the ciphertext back.
pub proof fn lemma_cipher_round_trip(ct: (Seq<int>, Seq<u8>), n: nat)
    requires
        n == 512 || n == 1024,
        ct.0.len() == n,
        forall|i: int| 0 <= i < n ==> 0 <= #[trigger] ct.0[i] < 12289,
        ct.1.len() == compressed_length(n),
    ensures
        cipher_decodable(cipher_encoding(ct), n),
        cipher_decoding(cipher_encoding(ct), n) == ct,
{
    lemma_unpack_pack(ct.0);
    let b = cipher_encoding(ct);
    assert(b.subrange(0, packed_length(n) as int) =~= pack_spec(ct.0));
    assert(b.subrange(packed_length(n) as int, packed_length(n) as int + compressed_length(n))
        =~= ct.1);
}

/// Encoding what decodable bytes decode to gives the bytes back.
pub proof fn lemma_cipher_decoding(buffer: Seq<u8>, n: nat)
    requires
        n == 512 || n == 1024,
        buffer.len() == packed_length(n) + compressed_length(n),
        unpackable(buffer.subrange(0, packed_length(n) as int), n),
    ensures
        cipher_encoding(cipher_decoding(buffer, n)) == buffer,
{
    lemma_pack_unpack(buffer.subrange(0, packed_length(n) as int), n);
    crate::hash::lemma_split_join(buffer, packed_length(n) as int, compressed_length(n) as int);
}

/// A value with a fixed encoding in bytes.
pub trait Codable: Sized {
    /// The length of the encoding.
    spec fn spec_size() -> nat;

    /// The encoding.
    spec fn encoding(&self) -> Seq<u8>;

    /// The bytes are the encoding of a value.
    spec fn decodable(buffer: Seq<u8>) -> bool;

    /// The length of the encoding.
    fn size() -> (n: usize)
        ensures
            n == Self::spec_size(),
    ;

    /// The encoding, which decodes again.
    fn encode(&self) -> (r: Vec<u8>)
        ensures
            r@ == self.encoding(),
            Self::decodable(r@),
    ;

    /// The value that the bytes encode; an error where they encode none.
    fn decode(buffer: &[u8]) -> (r: Result<Self, ()>)
        ensures
            r is Ok <==> Self::decodable(buffer@),
            r is Ok ==> r->Ok_0.encoding() == buffer@,
    ;
}

/// A public-key encryption scheme for messages of 32 bytes under a public
/// parameter that a seed expands to.
pub trait Pke: Sized {
    /// The public key.
    type PublicKey: Codable;

    /// The secret key.
    type SecretKey: Codable;

    /// The seed expands to a parameter within the limit of the sampler.
    spec fn expands(seed: Seq<u8>) -> bool;

    /// The length of a ciphertext.
    spec fn spec_cipher_length() -> nat;

    /// This is the parameter that the seed expands to.
    spec fn is_parameter_of(&self, seed: Seq<u8>) -> bool;

    /// The two keys are the pair that the seed gives under this parameter.
    spec fn is_pair_of(&self, seed: Seq<u8>, pk: &Self::PublicKey, sk: &Self::SecretKey) -> bool;

    /// The key `pk_b` and the bytes `cipher` are what the encryption of
    /// `plain` for the public key `pk_a` gives under the seed.
    spec fn is_encryption_of(
        &self,
        seed: Seq<u8>,
        pk_a: &Self::PublicKey,
        plain: Seq<u8>,
        pk_b: &Self::PublicKey,
        cipher: Seq<u8>,
    ) -> bool;

    /// The message that the ciphertext decrypts to with the fresh public
    /// key of the sender and the secret key of the receiver.
    spec fn decryption(pk_b: &Self::PublicKey, sk_a: &Self::SecretKey, cipher: Seq<u8>) -> Seq<u8>;

    /// The parameter that the seed expands to. The seed must be one that
    /// expands.
    fn new(seed: &[u8; 32]) -> (r: Self)
        requires
            Self::expands(seed@),
        ensures
            r.is_parameter_of(seed@),
    ;

    /// The parameter that the seed expands to, or nothing where the
    /// sampler gives up on the seed.
    fn try_new(seed: &[u8; 32]) -> (r: Option<Self>)
        ensures
            r is Some <==> Self::expands(seed@),
            r is Some ==> r->Some_0.is_parameter_of(seed@),
    ;

    /// The pair of keys that the seed gives under this parameter.
    fn generate(&self, seed: &[u8; 32]) -> (r: (Self::PublicKey, Self::SecretKey))
        ensures
            self.is_pair_of(seed@, &r.0, &r.1),
    ;

    /// The fresh public key and the ciphertext of `plain` for the public
    /// key `pk_a`, with the noise that the seed gives.
    fn encrypt(&self, seed: &[u8; 32], pk_a: &Self::PublicKey, plain: &[u8; 32]) -> (r: (
        Self::PublicKey,
        Vec<u8>,
    ))
        ensures
            self.is_encryption_of(seed@, pk_a, plain@, &r.0, r.1@),
            r.1@.len() == Self::spec_cipher_length(),
    ;

    /// The message that the ciphertext decrypts to with the fresh public
    /// key of the sender and the secret key of the receiver.
    fn decrypt(pk_b: &Self::PublicKey, sk_a: &Self::SecretKey, cipher: &[u8]) -> (plain: [u8; 32])
        requires
            cipher@.len() == Self::spec_cipher_length(),
        ensures
            plain@ == Self::decryption(pk_b, sk_a, cipher@),
    ;
}

/// A public key: a polynomial in the transformed domain.
#[derive(Debug)]
pub struct PublicKey<N: PolySize>(pub(crate) Poly<N>);

/// A secret key: a small polynomial in the transformed domain.
#[derive(Debug)]
pub struct SecretKey<N: PolySize>(pub(crate) Poly<N>);

/// The public parameter: a uniform polynomial in the transformed domain.
#[derive(Debug)]
pub struct Parameter<N: PolySize>(pub(crate) Poly<N>);

impl<N: PolySize> PublicKey<N> {
    /// A public key carries the marks of a key.
    #[verifier::type_invariant]
    pub open(crate) spec fn well_formed(&self) -> bool {
        self.0.spec_state() == key_state()
    }

    /// The residues of the key.
    pub open(crate) spec fn view(&self) -> Seq<int> {
        self.0@
    }
}

impl<N: PolySize> SecretKey<N> {
    /// A secret key carries the marks of a key.
    #[verifier::type_invariant]
    pub open(crate) spec fn well_formed(&self) -> bool {
        self.0.spec_state() == key_state()
    }

    /// The residues of the key.
    pub open(crate) spec fn view(&self) -> Seq<int> {
        self.0@
    }
}

impl<N: PolySize> Clone for PublicKey<N> {
    /// A copy of the key.
    fn clone(&self) -> (r: Self)
        ensures
            r@ == self@,
    {
        proof {
            use_type_invariant(self);
        }
        PublicKey(self.0.clone())
    }
}

impl<N: PolySize> Clone for SecretKey<N> {
    /// A copy of the key.
    fn clone(&self) -> (r: Self)
        ensures
            r@ == self@,
    {
        proof {
            use_type_invariant(self);
        }
        SecretKey(self.0.clone())
    }
}

impl<N: PolySize> Clone for Parameter<N> {
    /// A copy of the parameter.
    fn clone(&self) -> (r: Self)
        ensures
            r@ == self@,
    {
        proof {
            use_type_invariant(self);
        }
        Parameter(self.0.clone())
    }
}

impl<N: PolySize> Parameter<N> {
    /// The parameter carries its marks.
    #[verifier::type_invariant]
    pub open(crate) spec fn well_formed(&self) -> bool {
        self.0.spec_state() == parameter_state()
    }

    /// The residues of the parameter.
    pub open(crate) spec fn view(&self) -> Seq<int> {
        self.0@
    }

    /// What the two parties share: the product of a public key and a secret
    /// key, coefficient by coefficient, taken out of the transformed domain.
    fn shared(pk: &Poly<N>, sk: &Poly<N>) -> (dh: Poly<N>)
        requires
            pk.spec_state() == key_state(),
            sk.spec_state() == key_state(),
        ensures
            dh@ == shared_spec(pk@, sk@),
            dh.spec_state() == plain_state(),
    {
        let product = |pk: CoefficientRich, sk: CoefficientRich| -> (r: CoefficientRich)
            requires
                pk.1 == key_state(),
                sk.1 == key_state(),
            ensures
                r.1 == key_state(),
                r.0.value() == residue(pk.0.value() * sk.0.value()),
            { pk.mul(sk) };
        let p = Poly::functor_2(
            pk,
            sk,
            PolyState { bit_order: false, size: false, domain: true },
            product,
        );
        proof {
            pk.lemma_view();
            assert forall|i: int| 0 <= i < N::spec_length() implies p@[i] == mul_spec(pk@, sk@)[i] by {
                pk.lemma_rich(i);
                sk.lemma_rich(i);
                p.lemma_rich(i);
                assert(call_ensures(product, (pk.rich(i), sk.rich(i)), p.rich(i)));
            }
            p.lemma_view();
            assert(p@ =~= mul_spec(pk@, sk@));
        }
        p.reverse_bits().inv_ntt()
    }
}

impl<N: PolySize> Pke for Parameter<N> {
    type PublicKey = PublicKey<N>;

    type SecretKey = SecretKey<N>;

    open spec fn expands(seed: Seq<u8>) -> bool {
        uniform_within(seed, N::spec_length(), SQUEEZE_LIMIT as nat)
    }

    open spec fn spec_cipher_length() -> nat {
        compressed_length(N::spec_length())
    }

    open spec fn is_parameter_of(&self, seed: Seq<u8>) -> bool {
        self@ == uniform_spec(seed, N::spec_length())
    }

    open spec fn is_pair_of(&self, seed: Seq<u8>, pk: &PublicKey<N>, sk: &SecretKey<N>) -> bool {
        &&& pk@ == public_spec(self@, seed)
        &&& sk@ == secret_spec(seed, N::spec_length())
    }

    open spec fn is_encryption_of(
        &self,
        seed: Seq<u8>,
        pk_a: &PublicKey<N>,
        plain: Seq<u8>,
        pk_b: &PublicKey<N>,
        cipher: Seq<u8>,
    ) -> bool {
        &&& pk_b@ == public_spec(self@, seed)
        &&& cipher == cipher_spec(seed, pk_a@, plain)
    }

    open spec fn decryption(pk_b: &PublicKey<N>, sk_a: &SecretKey<N>, cipher: Seq<u8>) -> Seq<u8> {
        decrypt_spec(pk_b@, sk_a@, cipher)
    }

    /// The parameter that the seed expands to. The seed must be one that
    /// expands within the limit of the sampler.
    fn new(seed: &[u8; 32]) -> (r: Self)
        ensures
            r@ == uniform_spec(seed@, N::spec_length()),
    {
        proof {
            lemma_uniform_within(seed@, N::spec_length(), SQUEEZE_LIMIT as nat);
        }
        Parameter(Poly::random(seed, PolyState { bit_order: false, size: true, domain: true }))
    }

    /// The parameter that the seed expands to, or nothing where the seed
    /// does not expand within the limit of the sampler.
    fn try_new(seed: &[u8; 32]) -> (r: Option<Self>)
        ensures
            r is Some ==> r->Some_0@ == uniform_spec(seed@, N::spec_length()),
    {
        if Poly::<N>::expands(seed) {
            Some(Self::new(seed))
        } else {
            None
        }
    }

    /// The pair of keys that the seed gives under this parameter.
    fn generate(&self, seed: &[u8; 32]) -> (r: (PublicKey<N>, SecretKey<N>))
        ensures
            r.0@ == public_spec(self@, seed@),
            r.1@ == secret_spec(seed@, N::spec_length()),
    {
        proof {
            use_type_invariant(self);
            self.0.lemma_view();
        }
        let noise = PolyState { bit_order: true, size: false, domain: false };
        let s = Poly::<N>::random_small(seed, 0, noise).ntt();
        let e = Poly::<N>::random_small(seed, 1, noise).ntt();
        let combine = |e: CoefficientRich, a: CoefficientRich, s: CoefficientRich| -> (r:
            CoefficientRich)
            requires
                e.1 == key_state(),
                a.1 == parameter_state(),
                s.1 == key_state(),
            ensures
                r.1 == key_state(),
                r.0.value() == residue(e.0.value() + residue(a.0.value() * s.0.value())),
            { e.add(a.mul(s)) };
        let b = Poly::functor_3(
            &e,
            &self.0,
            &s,
            PolyState { bit_order: false, size: false, domain: true },
            combine,
        );
        proof {
            assert forall|i: int| 0 <= i < N::spec_length() implies b@[i] == public_spec(
                self@,
                seed@,
            )[i] by {
                e.lemma_rich(i);
                self.0.lemma_rich(i);
                s.lemma_rich(i);
                b.lemma_rich(i);
                assert(call_ensures(combine, (e.rich(i), self.0.rich(i), s.rich(i)), b.rich(i)));
            }
            b.lemma_view();
            assert(b@ =~= public_spec(self@, seed@));
        }
        (PublicKey(b), SecretKey(s))
    }

    /// The fresh public key and the compressed ciphertext of `plain` for
    /// the public key `pk_a`, with the noise that the seed gives.
    fn encrypt(&self, seed: &[u8; 32], pk_a: &PublicKey<N>, plain: &[u8; 32]) -> (r: (
        PublicKey<N>,
        Vec<u8>,
    ))
        ensures
            r.0@ == public_spec(self@, seed@),
            r.1@ == cipher_spec(seed@, pk_a@, plain@),
            r.1@.len() == compressed_length(N::spec_length()),
    {
        proof {
            use_type_invariant(self);
            use_type_invariant(pk_a);
            pk_a.0.lemma_view();
        }
        let plain_marks = PolyState { bit_order: false, size: false, domain: false };
        let v = Poly::<N>::from_message(plain, plain_marks);
        let (pk_b, sk_b) = self.generate(seed);
        proof {
            use_type_invariant(&sk_b);
        }
        let e = Poly::<N>::random_small(seed, 2, plain_marks);
        let dh = Parameter::<N>::shared(&pk_a.0, &sk_b.0);
        let sum = |dh: CoefficientRich, e: CoefficientRich, v: CoefficientRich| -> (r:
            CoefficientRich)
            requires
                dh.1 == plain_state(),
                e.1 == plain_state(),
                v.1 == plain_state(),
            ensures
                r.1 == plain_state(),
                r.0.value() == residue(residue(dh.0.value() + e.0.value()) + v.0.value()),
            { dh.add(e).add(v) };
        let c = Poly::functor_3(&dh, &e, &v, plain_marks, sum);
        proof {
            let expected = add_spec(
                add_spec(
                    shared_spec(pk_a@, secret_spec(seed@, N::spec_length())),
                    sample_spec(seed@, 2, N::spec_length()),
                ),
                from_message_spec(plain@, N::spec_length()),
            );
            dh.lemma_view();
            assert forall|i: int| 0 <= i < N::spec_length() implies c@[i] == expected[i] by {
                dh.lemma_rich(i);
                e.lemma_rich(i);
                v.lemma_rich(i);
                c.lemma_rich(i);
                assert(call_ensures(sum, (dh.rich(i), e.rich(i), v.rich(i)), c.rich(i)));
            }
            c.lemma_view();
            assert(c@ =~= expected);
        }
        (pk_b, c.compress())
    }

    /// The message that the compressed ciphertext decrypts to with the
    /// fresh public key of the sender and the secret key of the receiver.
    fn decrypt(pk_b: &PublicKey<N>, sk_a: &SecretKey<N>, cipher: &[u8]) -> (plain: [u8; 32])
        ensures
            plain@ == decrypt_spec(pk_b@, sk_a@, cipher@),
    {
        proof {
            use_type_invariant(pk_b);
            use_type_invariant(sk_a);
            pk_b.0.lemma_view();
        }
        let dh = Parameter::<N>::shared(&pk_b.0, &sk_a.0);
        let plain_marks = PolyState { bit_order: false, size: false, domain: false };
        let c = Poly::<N>::decompress(cipher, plain_marks);
        let difference = |dh: CoefficientRich, c: CoefficientRich| -> (r: CoefficientRich)
            requires
                dh.1 == plain_state(),
                c.1 == plain_state(),
            ensures
                r.1 == plain_state(),
                r.0.value() == residue(dh.0.value() - c.0.value()),
            { dh.sub(c) };
        let v = Poly::functor_2(&dh, &c, plain_marks, difference);
        proof {
            let expected = sub_spec(
                shared_spec(pk_b@, sk_a@),
                decompress_spec(cipher@, N::spec_length()),
            );
            dh.lemma_view();
            assert forall|i: int| 0 <= i < N::spec_length() implies v@[i] == expected[i] by {
                dh.lemma_rich(i);
                c.lemma_rich(i);
                v.lemma_rich(i);
                assert(call_ensures(difference, (dh.rich(i), c.rich(i)), v.rich(i)));
            }
            v.lemma_view();
            assert(v@ =~= expected);
        }
        v.to_message_negate()
    }
}

impl<N: PolySize> Codable for PublicKey<N> {
    open spec fn spec_size() -> nat {
        packed_length(N::spec_length())
    }

    open spec fn encoding(&self) -> Seq<u8> {
        pack_spec(self@)
    }

    open spec fn decodable(buffer: Seq<u8>) -> bool {
        unpackable(buffer, N::spec_length())
    }

    fn size() -> (n: usize) {
        proof {
            N::lemma_length();
        }
        N::length() / 4 * 7
    }

    fn encode(&self) -> (r: Vec<u8>)
        ensures
            unpack_spec(r@, N::spec_length()) == self@,
    {
        proof {
            N::lemma_length();
            self.0.lemma_view();
            lemma_unpack_pack(self@);
        }
        self.0.pack()
    }

    fn decode(buffer: &[u8]) -> (r: Result<Self, ()>)
        ensures
            r is Ok ==> r->Ok_0@ == unpack_spec(buffer@, N::spec_length()),
    {
        match Poly::<N>::unpack(buffer, PolyState { bit_order: false, size: false, domain: true }) {
            Ok(p) => {
                proof {
                    N::lemma_length();
                    lemma_pack_unpack(buffer@, N::spec_length());
                }
                Ok(PublicKey(p))
            },
            Err(e) => Err(e),
        }
    }
}

impl<N: PolySize> Codable for SecretKey<N> {
    open spec fn spec_size() -> nat {
        packed_length(N::spec_length())
    }

    open spec fn encoding(&self) -> Seq<u8> {
        pack_spec(self@)
    }

    open spec fn decodable(buffer: Seq<u8>) -> bool {
        unpackable(buffer, N::spec_length())
    }

    fn size() -> (n: usize) {
        proof {
            N::lemma_length();
        }
        N::length() / 4 * 7
    }

    fn encode(&self) -> (r: Vec<u8>)
        ensures
            unpack_spec(r@, N::spec_length()) == self@,
    {
        proof {
            N::lemma_length();
            self.0.lemma_view();
            lemma_unpack_pack(self@);
        }
        self.0.pack()
    }

    fn decode(buffer: &[u8]) -> (r: Result<Self, ()>)
        ensures
            r is Ok ==> r->Ok_0@ == unpack_spec(buffer@, N::spec_length()),
    {
        match Poly::<N>::unpack(buffer, PolyState { bit_order: false, size: false, domain: true }) {
            Ok(p) => {
                proof {
                    N::lemma_length();
                    lemma_pack_unpack(buffer@, N::spec_length());
                }
                Ok(SecretKey(p))
            },
            Err(e) => Err(e),
        }
    }
}

/// Decoding the encoding of a key gives the key back: two keys with the
/// same encoding hold the same residues, and the residues read from the
/// encoding of a key are its own.
pub proof fn lemma_key_round_trip<N: PolySize>(x: Seq<int>, y: Seq<int>)
    requires
        x.len() == N::spec_length(),
        y.len() == N::spec_length(),
        forall|i: int| 0 <= i < x.len() ==> 0 <= #[trigger] x[i] < 12289,
        forall|i: int| 0 <= i < y.len() ==> 0 <= #[trigger] y[i] < 12289,
    ensures
        unpackable(pack_spec(x), N::spec_length()),
        unpack_spec(pack_spec(x), N::spec_length()) == x,
        pack_spec(x) == pack_spec(y) ==> x == y,
{
    N::lemma_length();
    lemma_unpack_pack(x);
    lemma_unpack_pack(y);
}

} // verus!
