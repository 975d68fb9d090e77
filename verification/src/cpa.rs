//! The key encapsulation mechanism that is secure against chosen plaintexts:
//! the encryption scheme with keys, message and noise derived from seeds.

use vstd::prelude::*;
use vstd::slice::{slice_subrange, slice_to_vec};
use core::marker::PhantomData;
use crate::hash::{append, block32};
use crate::kem::Kem;
use crate::message::{Message, expanded_first, expanded_second, hashed};
use crate::pke::{
    Codable,
    Parameter,
    Pke,
    PublicKey,
    SecretKey,
    cipher_decodable,
    cipher_decoding,
    cipher_encoding,
    cipher_spec,
    decrypt_spec,
    lemma_cipher_decoding,
    lemma_cipher_round_trip,
    lemma_public_decoding,
    lemma_public_round_trip,
    public_decodable,
    public_decoding,
    public_encoding,
    public_spec,
    secret_spec,
};
use crate::poly::{pack_spec, unpack_spec, unpackable};
use crate::sample::{SQUEEZE_LIMIT, uniform_spec, uniform_within};
use crate::sizes::{PolySize, compressed_length, packed_length};

verus! {

/// The mechanism for the polynomial length `N`.
pub struct Cpa<N: PolySize>(PhantomData<N>);

/// A public key: the key of the encryption scheme and the seed of the
/// public parameter, with the parameter expanded.
#[derive(Debug)]
pub struct PublicKeyCpa<N: PolySize> {
    pub(crate) pk: PublicKey<N>,
    pub(crate) parameter: Parameter<N>,
    pub(crate) seed: [u8; 32],
}

/// A secret key.
#[derive(Debug)]
pub struct SecretKeyCpa<N: PolySize> {
    pub(crate) sk: SecretKey<N>,
}

/// A ciphertext: the fresh public key of the sender and the compressed
/// polynomial that carries the message.
#[derive(Debug)]
pub struct CipherTextCpa<N: PolySize> {
    pub(crate) pk: PublicKey<N>,
    pub(crate) ct: Vec<u8>,
}

/// A shared secret.
#[derive(Clone, Copy, Debug, Default, PartialEq, Eq)]
pub struct SharedSecretCpa(pub Message);

/// The seed of the public parameter that a pair seed leads to.
pub open spec fn cpa_parameter_seed(seed: Seq<u8>) -> Seq<u8> {
    expanded_first(1, seed)
}

/// The seed of the keys that a pair seed leads to.
pub open spec fn cpa_key_seed(seed: Seq<u8>) -> Seq<u8> {
    expanded_second(1, seed)
}

/// The message that an encapsulation seed leads to.
pub open spec fn cpa_message(seed: Seq<u8>) -> Seq<u8> {
    expanded_first(2, seed)
}

/// The seed of the noise that an encapsulation seed leads to.
pub open spec fn cpa_noise_seed(seed: Seq<u8>) -> Seq<u8> {
    expanded_second(2, seed)
}

/// The public key that the pair seed gives: the residues of the key and
/// the seed of the parameter.
pub open spec fn cpa_public_spec(seed: Seq<u8>, n: nat) -> (Seq<int>, Seq<u8>) {
    (
        public_spec(uniform_spec(cpa_parameter_seed(seed), n), cpa_key_seed(seed)),
        cpa_parameter_seed(seed),
    )
}

/// The ciphertext that the encapsulation seed gives for a public key: the
/// residues of the fresh public key and the compressed polynomial.
pub open spec fn cpa_cipher_spec(pk: (Seq<int>, Seq<u8>), seed: Seq<u8>) -> (Seq<int>, Seq<u8>) {
    (
        public_spec(uniform_spec(pk.1, pk.0.len()), cpa_noise_seed(seed)),
        cipher_spec(cpa_noise_seed(seed), pk.0, cpa_message(seed)),
    )
}

/// The secret that the owner of the secret key reads from a ciphertext.
pub open spec fn cpa_decapsulate_spec(sk: Seq<int>, ct: (Seq<int>, Seq<u8>)) -> Seq<u8> {
    hashed(decrypt_spec(ct.0, sk, ct.1))
}

/// Both sides hold the same secret where decryption gives the message back:
/// the secret of the sender is the hash of the message, that of the
/// receiver the hash of what decryption gives.
pub proof fn lemma_cpa_agreement(sk: Seq<int>, pk: (Seq<int>, Seq<u8>), seed: Seq<u8>)
    requires
        decrypt_spec(cpa_cipher_spec(pk, seed).0, sk, cpa_cipher_spec(pk, seed).1) == cpa_message(
            seed,
        ),
    ensures
        cpa_decapsulate_spec(sk, cpa_cipher_spec(pk, seed)) == hashed(cpa_message(seed)),
{
}

impl<N: PolySize> PublicKeyCpa<N> {
    /// The parameter is the one that the seed expands to, within the limit
    /// of the sampler.
    #[verifier::type_invariant]
    pub open(crate) spec fn well_formed(&self) -> bool {
        &&& self.parameter@ == uniform_spec(self.seed@, N::spec_length())
        &&& uniform_within(self.seed@, N::spec_length(), SQUEEZE_LIMIT as nat)
    }

    /// The residues of the key and the seed of the parameter.
    pub open(crate) spec fn view(&self) -> (Seq<int>, Seq<u8>) {
        (self.pk@, self.seed@)
    }

    /// The pair of keys that the seed gives. The seed must lead to a
    /// parameter seed that expands within the limit of the sampler.
    pub fn generate(seed: Message) -> (r: (Self, SecretKeyCpa<N>))
        requires
            uniform_within(cpa_parameter_seed(seed@), N::spec_length(), SQUEEZE_LIMIT as nat),
        ensures
            r.0@ == cpa_public_spec(seed@, N::spec_length()),
            r.1@ == secret_spec(cpa_key_seed(seed@), N::spec_length()),
    {
        let (public_seed, noise_seed) = seed.expand(1);
        let parameter = Parameter::<N>::new(&public_seed.0);
        let (pk, sk) = parameter.generate(&noise_seed.0);
        (PublicKeyCpa { pk, parameter, seed: public_seed.0 }, SecretKeyCpa { sk })
    }

    /// The pair of keys that the seed gives, or nothing where the parameter
    /// seed that it leads to does not expand within the limit of the
    /// sampler.
    pub fn try_generate(seed: Message) -> (r: Option<(Self, SecretKeyCpa<N>)>)
        ensures
            r is Some <==> uniform_within(
                cpa_parameter_seed(seed@),
                N::spec_length(),
                SQUEEZE_LIMIT as nat,
            ),
            r is Some ==> r->Some_0.0@ == cpa_public_spec(seed@, N::spec_length()),
            r is Some ==> r->Some_0.1@ == secret_spec(cpa_key_seed(seed@), N::spec_length()),
    {
        let (public_seed, _) = seed.expand(1);
        if crate::poly::Poly::<N>::expands(&public_seed.0) {
            Some(Self::generate(seed))
        } else {
            None
        }
    }

    /// A ciphertext for this key and the secret that it shares, from the
    /// seed.
    pub fn encapsulate(&self, seed: Message) -> (r: (CipherTextCpa<N>, SharedSecretCpa))
        ensures
            r.0@ == cpa_cipher_spec(self@, seed@),
            r.1.0@ == hashed(cpa_message(seed@)),
    {
        proof {
            use_type_invariant(self);
            self.pk.0.lemma_view();
        }
        let (message, noise_seed) = seed.expand(2);
        let (pk, ct) = self.parameter.encrypt(&noise_seed.0, &self.pk, &message.0);
        (CipherTextCpa { pk, ct }, SharedSecretCpa(message.hash()))
    }
}

impl<N: PolySize> SecretKeyCpa<N> {
    /// The residues of the key.
    pub open(crate) spec fn view(&self) -> Seq<int> {
        self.sk@
    }

    /// The secret that the ciphertext shares.
    pub fn decapsulate(&self, cipher_text: &CipherTextCpa<N>) -> (r: SharedSecretCpa)
        ensures
            r.0@ == cpa_decapsulate_spec(self@, cipher_text@),
    {
        proof {
            use_type_invariant(cipher_text);
        }
        let message = Parameter::<N>::decrypt(
            &cipher_text.pk,
            &self.sk,
            cipher_text.ct.as_slice(),
        );
        SharedSecretCpa(Message(message).hash())
    }
}

impl<N: PolySize> CipherTextCpa<N> {
    /// The compressed polynomial has the length of one.
    #[verifier::type_invariant]
    pub open(crate) spec fn well_formed(&self) -> bool {
        self.ct@.len() == compressed_length(N::spec_length())
    }

    /// The residues of the fresh public key and the compressed polynomial.
    pub open(crate) spec fn view(&self) -> (Seq<int>, Seq<u8>) {
        (self.pk@, self.ct@)
    }
}

impl<N: PolySize> Kem for Cpa<N> {
    type PublicKey = PublicKeyCpa<N>;

    type SecretKey = SecretKeyCpa<N>;

    type CipherText = CipherTextCpa<N>;

    type PairSeed = Message;

    open spec fn generates(seed: &Message) -> bool {
        uniform_within(cpa_parameter_seed(seed@), N::spec_length(), SQUEEZE_LIMIT as nat)
    }

    open spec fn is_pair_of(seed: &Message, pk: &PublicKeyCpa<N>, sk: &SecretKeyCpa<N>) -> bool {
        &&& pk@ == cpa_public_spec(seed@, N::spec_length())
        &&& sk@ == secret_spec(cpa_key_seed(seed@), N::spec_length())
    }

    open spec fn is_cipher_of(pk: &PublicKeyCpa<N>, seed: &Message, ct: &CipherTextCpa<N>) -> bool {
        ct@ == cpa_cipher_spec(pk@, seed@)
    }

    open spec fn sender_secret(pk: &PublicKeyCpa<N>, seed: &Message) -> Seq<u8> {
        hashed(cpa_message(seed@))
    }

    open spec fn receiver_secret(sk: &SecretKeyCpa<N>, ct: &CipherTextCpa<N>) -> Seq<u8> {
        cpa_decapsulate_spec(sk@, ct@)
    }

    fn generate_pair(seed: &Message) -> (r: (PublicKeyCpa<N>, SecretKeyCpa<N>))
        ensures
            r.0@ == cpa_public_spec(seed@, N::spec_length()),
            r.1@ == secret_spec(cpa_key_seed(seed@), N::spec_length()),
    {
        PublicKeyCpa::generate(*seed)
    }

    fn try_generate_pair(seed: &Message) -> (r: Option<(PublicKeyCpa<N>, SecretKeyCpa<N>)>)
        ensures
            r is Some ==> r->Some_0.0@ == cpa_public_spec(seed@, N::spec_length()),
            r is Some ==> r->Some_0.1@ == secret_spec(cpa_key_seed(seed@), N::spec_length()),
    {
        PublicKeyCpa::try_generate(*seed)
    }

    fn encapsulate(public_key: &PublicKeyCpa<N>, seed: &Message) -> (r: (CipherTextCpa<N>, Message))
        ensures
            r.0@ == cpa_cipher_spec(public_key@, seed@),
            r.1@ == hashed(cpa_message(seed@)),
    {
        let (ct, shared) = public_key.encapsulate(*seed);
        (ct, shared.0)
    }

    fn decapsulate(secret_key: &SecretKeyCpa<N>, cipher_text: &CipherTextCpa<N>) -> (r: Message)
        ensures
            r@ == cpa_decapsulate_spec(secret_key@, cipher_text@),
    {
        secret_key.decapsulate(cipher_text).0
    }
}

impl<N: PolySize> Codable for PublicKeyCpa<N> {
    open spec fn spec_size() -> nat {
        packed_length(N::spec_length()) + 32
    }

    open spec fn encoding(&self) -> Seq<u8> {
        public_encoding(self@)
    }

    open spec fn decodable(buffer: Seq<u8>) -> bool {
        public_decodable(buffer, N::spec_length())
    }

    fn size() -> (n: usize) {
        proof {
            N::lemma_length();
        }
        N::length() / 4 * 7 + 32
    }

    fn encode(&self) -> (r: Vec<u8>)
        ensures
            public_decoding(r@, N::spec_length()) == self@,
    {
        proof {
            use_type_invariant(self);
            N::lemma_length();
            self.pk.0.lemma_view();
            lemma_public_round_trip(self@, N::spec_length());
        }
        let mut r = self.pk.encode();
        append(&mut r, self.seed.as_slice());
        r
    }

    fn decode(buffer: &[u8]) -> (r: Result<Self, ()>)
        ensures
            r is Ok ==> r->Ok_0@ == public_decoding(buffer@, N::spec_length()),
    {
        proof {
            N::lemma_length();
        }
        let packed = N::length() / 4 * 7;
        if buffer.len() != packed + 32 {
            return Err(());
        }
        let seed = block32(buffer, packed);
        match PublicKey::<N>::decode(slice_subrange(buffer, 0, packed)) {
            Ok(pk) => {
                match Parameter::<N>::try_new(&seed) {
                    Some(parameter) => {
                        proof {
                            lemma_public_decoding(buffer@, N::spec_length());
                        }
                        Ok(PublicKeyCpa { pk, parameter, seed })
                    },
                    None => Err(()),
                }
            },
            Err(e) => Err(e),
        }
    }
}

impl<N: PolySize> Codable for SecretKeyCpa<N> {
    open spec fn spec_size() -> nat {
        packed_length(N::spec_length())
    }

    open spec fn encoding(&self) -> Seq<u8> {
        pack_spec(self@)
    }

    open spec fn decodable(buffer: Seq<u8>) -> bool {
        unpackable(buffer, N::spec_length())
    }

    fn size() -> (n: usize) {
        SecretKey::<N>::size()
    }

    fn encode(&self) -> (r: Vec<u8>)
        ensures
            unpack_spec(r@, N::spec_length()) == self@,
    {
        self.sk.encode()
    }

    fn decode(buffer: &[u8]) -> (r: Result<Self, ()>)
        ensures
            r is Ok ==> r->Ok_0@ == unpack_spec(buffer@, N::spec_length()),
    {
        match SecretKey::<N>::decode(buffer) {
            Ok(sk) => Ok(SecretKeyCpa { sk }),
            Err(e) => Err(e),
        }
    }
}

impl<N: PolySize> Codable for CipherTextCpa<N> {
    open spec fn spec_size() -> nat {
        packed_length(N::spec_length()) + compressed_length(N::spec_length())
    }

    open spec fn encoding(&self) -> Seq<u8> {
        cipher_encoding(self@)
    }

    open spec fn decodable(buffer: Seq<u8>) -> bool {
        cipher_decodable(buffer, N::spec_length())
    }

    fn size() -> (n: usize) {
        proof {
            N::lemma_length();
        }
        N::length() / 4 * 7 + N::length() / 8 * 3
    }

    fn encode(&self) -> (r: Vec<u8>)
        ensures
            cipher_decoding(r@, N::spec_length()) == self@,
    {
        proof {
            use_type_invariant(self);
            N::lemma_length();
            self.pk.0.lemma_view();
            lemma_cipher_round_trip(self@, N::spec_length());
        }
        let mut r = self.pk.encode();
        append(&mut r, self.ct.as_slice());
        r
    }

    fn decode(buffer: &[u8]) -> (r: Result<Self, ()>)
        ensures
            r is Ok ==> r->Ok_0@ == cipher_decoding(buffer@, N::spec_length()),
    {
        proof {
            N::lemma_length();
        }
        let packed = N::length() / 4 * 7;
        let compressed = N::length() / 8 * 3;
        if buffer.len() != packed + compressed {
            return Err(());
        }
        match PublicKey::<N>::decode(slice_subrange(buffer, 0, packed)) {
            Ok(pk) => {
                let ct = slice_to_vec(slice_subrange(buffer, packed, packed + compressed));
                proof {
                    lemma_cipher_decoding(buffer@, N::spec_length());
                }
                Ok(CipherTextCpa { pk, ct })
            },
            Err(e) => Err(e),
        }
    }
}

impl<N: PolySize> Clone for PublicKeyCpa<N> {
    /// A copy of the key.
    fn clone(&self) -> (r: Self)
        ensures
            r@ == self@,
    {
        proof {
            use_type_invariant(self);
        }
        PublicKeyCpa { pk: self.pk.clone(), parameter: self.parameter.clone(), seed: self.seed }
    }
}

impl<N: PolySize> Clone for SecretKeyCpa<N> {
    /// A copy of the key.
    fn clone(&self) -> (r: Self)
        ensures
            r@ == self@,
    {
        SecretKeyCpa { sk: self.sk.clone() }
    }
}

impl<N: PolySize> Clone for CipherTextCpa<N> {
    /// A copy of the ciphertext.
    fn clone(&self) -> (r: Self)
        ensures
            r@ == self@,
    {
        proof {
            use_type_invariant(self);
        }
        CipherTextCpa { pk: self.pk.clone(), ct: slice_to_vec(self.ct.as_slice()) }
    }
}

} // verus!
