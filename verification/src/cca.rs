//! The key encapsulation mechanism that is secure against chosen
//! ciphertexts: the receiver encrypts again what it decrypted and, where the
//! result is not the ciphertext it was given, derives the secret from a
//! private seed instead of failing.

use vstd::prelude::*;
use vstd::slice::{slice_subrange, slice_to_vec};
use core::marker::PhantomData;
use crate::hash::{append, block32, h, lemma_split_join, shake256_output};
use crate::kem::Kem;
use crate::message::{Message, expanded_first, expanded_second, hashed};
use crate::pke::{
    Codable,
    Parameter,
    Pke,
    PublicKey,
    SecretKey,
    cipher_encoding,
    cipher_spec,
    decrypt_spec,
    lemma_cipher_decoding,
    lemma_public_decoding,
    lemma_public_round_trip,
    public_decodable,
    public_decoding,
    public_encoding,
    public_spec,
    secret_spec,
};
use crate::poly::{lemma_pack_unpack, pack_spec, unpack_spec, unpackable};
use crate::sample::{SQUEEZE_LIMIT, uniform_spec, uniform_within};
use crate::sizes::{PolySize, compressed_length, packed_length};

verus! {

/// The mechanism for the polynomial length `N`.
pub struct Cca<N: PolySize>(PhantomData<N>);

/// A public key: the key of the encryption scheme and the seed of the
/// public parameter, with the parameter expanded.
#[derive(Debug)]
pub struct PublicKeyCca<N: PolySize> {
    pub(crate) pk: PublicKey<N>,
    pub(crate) parameter: Parameter<N>,
    pub(crate) seed: [u8; 32],
}

/// A secret key: the key of the encryption scheme, the public key for the
/// encryption that checks a ciphertext, the hash of the public key, and the
/// seed of the secret that a rejected ciphertext gets.
#[derive(Debug)]
pub struct SecretKeyCca<N: PolySize> {
    pub(crate) sk: SecretKey<N>,
    pub(crate) pk: PublicKeyCca<N>,
    pub(crate) pk_hash: [u8; 32],
    pub(crate) reject: [u8; 32],
}

/// A ciphertext: that of the encryption scheme and a tag of 32 bytes.
#[derive(Debug)]
pub struct CipherTextCca<N: PolySize> {
    pub(crate) pk: PublicKey<N>,
    pub(crate) ct: Vec<u8>,
    pub(crate) check: [u8; 32],
}

/// What a secret key holds.
pub struct SecretCca {
    /// The residues of the key of the encryption scheme.
    pub sk: Seq<int>,
    /// The public key: its residues and the seed of the parameter.
    pub pk: (Seq<int>, Seq<u8>),
    /// The hash of the public key.
    pub pk_hash: Seq<u8>,
    /// The seed for rejected ciphertexts.
    pub reject: Seq<u8>,
}

/// What a ciphertext holds.
pub struct CipherCca {
    /// The residues of the fresh public key of the sender.
    pub pk: Seq<int>,
    /// The compressed polynomial.
    pub ct: Seq<u8>,
    /// The tag.
    pub check: Seq<u8>,
}

/// The seed for rejected ciphertexts in a pair seed of 64 bytes.
pub open spec fn cca_reject(seed: Seq<u8>) -> Seq<u8> {
    seed.subrange(0, 32)
}

/// The seed of the keys in a pair seed of 64 bytes.
pub open spec fn cca_inner_seed(seed: Seq<u8>) -> Seq<u8> {
    seed.subrange(32, 64)
}

/// The public key that the pair seed gives.
pub open spec fn cca_public_spec(seed: Seq<u8>, n: nat) -> (Seq<int>, Seq<u8>) {
    (
        public_spec(
            uniform_spec(expanded_first(1, cca_inner_seed(seed)), n),
            expanded_second(1, cca_inner_seed(seed)),
        ),
        expanded_first(1, cca_inner_seed(seed)),
    )
}

/// The secret key that the pair seed gives.
pub open spec fn cca_secret_spec(seed: Seq<u8>, n: nat) -> SecretCca {
    SecretCca {
        sk: secret_spec(expanded_second(1, cca_inner_seed(seed)), n),
        pk: cca_public_spec(seed, n),
        pk_hash: hashed(public_encoding(cca_public_spec(seed, n))),
        reject: cca_reject(seed),
    }
}

/// The message that an encapsulation seed leads to.
pub open spec fn cca_message(seed: Seq<u8>) -> Seq<u8> {
    shake256_output(seq![4u8] + seed, 32)
}

/// The 96 bytes that a message and the hash of a public key lead to: the
/// seed of the shared secret, the seed of the noise, and the tag.
pub open spec fn cca_buffer(message: Seq<u8>, pk_hash: Seq<u8>) -> Seq<u8> {
    shake256_output(seq![8u8] + message + pk_hash, 96)
}

/// The ciphertext of a message for a public key and the hash that goes
/// with it.
pub open spec fn cca_cipher_spec(pk: (Seq<int>, Seq<u8>), pk_hash: Seq<u8>, message: Seq<u8>)
    -> CipherCca {
    let buffer = cca_buffer(message, pk_hash);
    CipherCca {
        pk: public_spec(uniform_spec(pk.1, pk.0.len()), buffer.subrange(32, 64)),
        ct: cipher_spec(buffer.subrange(32, 64), pk.0, message),
        check: buffer.subrange(64, 96),
    }
}

/// The encoding of a ciphertext: that of the ciphertext of the encryption
/// scheme, then the tag.
pub open spec fn cca_cipher_encoding(ct: CipherCca) -> Seq<u8> {
    cipher_encoding((ct.pk, ct.ct)) + ct.check
}

/// The secret that is derived from a seed of 32 bytes and a ciphertext: the
/// hash of the seed followed by the hash of the encoded ciphertext.
pub open spec fn cca_shared(key: Seq<u8>, ct: CipherCca) -> Seq<u8> {
    shake256_output(key + hashed(cca_cipher_encoding(ct)), 32)
}

/// The ciphertext that an encapsulation seed gives for a public key.
pub open spec fn cca_encapsulate_cipher(pk: (Seq<int>, Seq<u8>), seed: Seq<u8>) -> CipherCca {
    cca_cipher_spec(pk, hashed(public_encoding(pk)), cca_message(seed))
}

/// The secret that an encapsulation seed gives for a public key.
pub open spec fn cca_encapsulate_shared(pk: (Seq<int>, Seq<u8>), seed: Seq<u8>) -> Seq<u8> {
    cca_shared(
        cca_buffer(cca_message(seed), hashed(public_encoding(pk))).subrange(0, 32),
        cca_encapsulate_cipher(pk, seed),
    )
}

/// The ciphertext that the receiver makes again from what it decrypted.
pub open spec fn cca_check_cipher(sk: SecretCca, ct: CipherCca) -> CipherCca {
    cca_cipher_spec(sk.pk, sk.pk_hash, decrypt_spec(ct.pk, sk.sk, ct.ct))
}

/// The receiver accepts a ciphertext when the one that it makes again has
/// the same encoding.
pub open spec fn cca_accepts(sk: SecretCca, ct: CipherCca) -> bool {
    cca_cipher_encoding(ct) == cca_cipher_encoding(cca_check_cipher(sk, ct))
}

/// The secret that the receiver derives: from the seed that the decrypted
/// message leads to where it accepts the ciphertext, from its seed for
/// rejected ciphertexts where it does not.
pub open spec fn cca_decapsulate_spec(sk: SecretCca, ct: CipherCca) -> Seq<u8> {
    if cca_accepts(sk, ct) {
        cca_shared(
            cca_buffer(decrypt_spec(ct.pk, sk.sk, ct.ct), sk.pk_hash).subrange(0, 32),
            ct,
        )
    } else {
        cca_shared(sk.reject, ct)
    }
}

/// Both sides hold the same secret where the secret key belongs to the
/// public key and decryption gives the message back.
pub proof fn lemma_cca_agreement(sk: SecretCca, pk: (Seq<int>, Seq<u8>), seed: Seq<u8>)
    requires
        sk.pk == pk,
        sk.pk_hash == hashed(public_encoding(pk)),
        decrypt_spec(
            cca_encapsulate_cipher(pk, seed).pk,
            sk.sk,
            cca_encapsulate_cipher(pk, seed).ct,
        ) == cca_message(seed),
    ensures
        cca_accepts(sk, cca_encapsulate_cipher(pk, seed)),
        cca_decapsulate_spec(sk, cca_encapsulate_cipher(pk, seed)) == cca_encapsulate_shared(
            pk,
            seed,
        ),
{
}

/// A ciphertext that the receiver does not accept gets the secret that the
/// seed for rejected ciphertexts and the ciphertext give, whatever it
/// decrypts to.
pub proof fn lemma_cca_rejection(sk: SecretCca, ct: CipherCca)
    requires
        !cca_accepts(sk, ct),
    ensures
        cca_decapsulate_spec(sk, ct) == shake256_output(
            sk.reject + shake256_output(cca_cipher_encoding(ct), 32),
            32,
        ),
{
}

/// The encoding of a secret key: the packed key, the encoded public key,
/// the hash of the public key, and the seed for rejected ciphertexts.
pub open spec fn cca_secret_encoding(sk: SecretCca) -> Seq<u8> {
    pack_spec(sk.sk) + public_encoding(sk.pk) + sk.pk_hash + sk.reject
}

/// The bytes are the encoding of a secret key for `n` coefficients.
pub open spec fn cca_secret_decodable(buffer: Seq<u8>, n: nat) -> bool {
    let p = packed_length(n) as int;
    &&& buffer.len() == 2 * p + 96
    &&& unpackable(buffer.subrange(0, p), n)
    &&& public_decodable(buffer.subrange(p, 2 * p + 32), n)
}

/// The secret key that the bytes encode.
pub open spec fn cca_secret_decoding(buffer: Seq<u8>, n: nat) -> SecretCca {
    let p = packed_length(n) as int;
    SecretCca {
        sk: unpack_spec(buffer.subrange(0, p), n),
        pk: public_decoding(buffer.subrange(p, 2 * p + 32), n),
        pk_hash: buffer.subrange(2 * p + 32, 2 * p + 64),
        reject: buffer.subrange(2 * p + 64, 2 * p + 96),
    }
}

/// The bytes are the encoding of a ciphertext for `n` coefficients.
pub open spec fn cca_cipher_decodable(buffer: Seq<u8>, n: nat) -> bool {
    &&& buffer.len() == packed_length(n) + compressed_length(n) + 32
    &&& unpackable(buffer.subrange(0, packed_length(n) as int), n)
}

/// The ciphertext that the bytes encode.
pub open spec fn cca_cipher_decoding(buffer: Seq<u8>, n: nat) -> CipherCca {
    let p = packed_length(n) as int;
    let c = compressed_length(n) as int;
    CipherCca {
        pk: unpack_spec(buffer.subrange(0, p), n),
        ct: buffer.subrange(p, p + c),
        check: buffer.subrange(p + c, p + c + 32),
    }
}

/// Decoding the encoding of a secret key gives the key back, where the seed
/// of the parameter of its public key expands within the limit of the
/// sampler.
pub proof fn lemma_cca_secret_round_trip(sk: SecretCca, n: nat)
    requires
        n == 512 || n == 1024,
        sk.sk.len() == n,
        forall|i: int| 0 <= i < n ==> 0 <= #[trigger] sk.sk[i] < 12289,
        sk.pk.0.len() == n,
        forall|i: int| 0 <= i < n ==> 0 <= #[trigger] sk.pk.0[i] < 12289,
        sk.pk.1.len() == 32,
        uniform_within(sk.pk.1, n, SQUEEZE_LIMIT as nat),
        sk.pk_hash.len() == 32,
        sk.reject.len() == 32,
    ensures
        cca_secret_decodable(cca_secret_encoding(sk), n),
        cca_secret_decoding(cca_secret_encoding(sk), n) == sk,
{
    crate::poly::lemma_unpack_pack(sk.sk);
    lemma_public_round_trip(sk.pk, n);
    let b = cca_secret_encoding(sk);
    let p = packed_length(n) as int;
    assert(b.subrange(0, p) =~= pack_spec(sk.sk));
    assert(b.subrange(p, 2 * p + 32) =~= public_encoding(sk.pk));
    assert(b.subrange(2 * p + 32, 2 * p + 64) =~= sk.pk_hash);
    assert(b.subrange(2 * p + 64, 2 * p + 96) =~= sk.reject);
}

/// Decoding the encoding of a ciphertext gives the ciphertext back.
pub proof fn lemma_cca_cipher_round_trip(ct: CipherCca, n: nat)
    requires
        n == 512 || n == 1024,
        ct.pk.len() == n,
        forall|i: int| 0 <= i < n ==> 0 <= #[trigger] ct.pk[i] < 12289,
        ct.ct.len() == compressed_length(n),
        ct.check.len() == 32,
    ensures
        cca_cipher_decodable(cca_cipher_encoding(ct), n),
        cca_cipher_decoding(cca_cipher_encoding(ct), n) == ct,
{
    crate::poly::lemma_unpack_pack(ct.pk);
    let b = cca_cipher_encoding(ct);
    let p = packed_length(n) as int;
    let c = compressed_length(n) as int;
    assert(b.subrange(0, p) =~= pack_spec(ct.pk));
    assert(b.subrange(p, p + c) =~= ct.ct);
    assert(b.subrange(p + c, p + c + 32) =~= ct.check);
}

/// Encoding what decodable bytes decode to gives the bytes back.
proof fn lemma_cca_secret_decoding(buffer: Seq<u8>, n: nat)
    requires
        n == 512 || n == 1024,
        buffer.len() == 2 * packed_length(n) + 96,
        unpackable(buffer.subrange(0, packed_length(n) as int), n),
        unpackable(
            buffer.subrange(packed_length(n) as int, 2 * packed_length(n) as int + 32).subrange(
                0,
                packed_length(n) as int,
            ),
            n,
        ),
    ensures
        cca_secret_encoding(cca_secret_decoding(buffer, n)) == buffer,
{
    let p = packed_length(n) as int;
    let head = buffer.subrange(0, p);
    let middle = buffer.subrange(p, 2 * p + 32);
    let hash = buffer.subrange(2 * p + 32, 2 * p + 64);
    let reject = buffer.subrange(2 * p + 64, 2 * p + 96);
    lemma_pack_unpack(head, n);
    lemma_public_decoding(middle, n);
    lemma_split_join(buffer, 2 * p + 64, 32);
    lemma_split_join(buffer.subrange(0, 2 * p + 64), 2 * p + 32, 32);
    lemma_split_join(buffer.subrange(0, 2 * p + 32), p, p + 32);
    assert(buffer.subrange(0, 2 * p + 64).subrange(0, 2 * p + 32) =~= buffer.subrange(
        0,
        2 * p + 32,
    ));
    assert(buffer.subrange(0, 2 * p + 64).subrange(2 * p + 32, 2 * p + 64) =~= hash);
    assert(buffer.subrange(0, 2 * p + 32).subrange(0, p) =~= head);
    assert(buffer.subrange(0, 2 * p + 32).subrange(p, 2 * p + 32) =~= middle);
}

/// Encoding what decodable bytes decode to gives the bytes back.
proof fn lemma_cca_cipher_decoding(buffer: Seq<u8>, n: nat)
    requires
        n == 512 || n == 1024,
        buffer.len() == packed_length(n) + compressed_length(n) + 32,
        unpackable(buffer.subrange(0, packed_length(n) as int), n),
    ensures
        cca_cipher_encoding(cca_cipher_decoding(buffer, n)) == buffer,
{
    let p = packed_length(n) as int;
    let c = compressed_length(n) as int;
    let inner = buffer.subrange(0, p + c);
    assert(inner.subrange(0, p) =~= buffer.subrange(0, p));
    assert(inner.subrange(p, p + c) =~= buffer.subrange(p, p + c));
    lemma_cipher_decoding(inner, n);
    lemma_split_join(buffer, p + c, 32);
}

/// 0 where the two byte strings are equal and 0xff where they differ,
/// without a branch on the bytes.
pub fn ct_eq(a: &[u8], b: &[u8]) -> (mask: u8)
    requires
        a@.len() == b@.len(),
    ensures
        mask == 0 || mask == 0xff,
        mask == 0 <==> a@ == b@,
{
    let mut difference: u8 = 0;
    let mut i: usize = 0;
    assert(a@.take(0) =~= b@.take(0));
    while i < a.len()
        invariant
            a@.len() == b@.len(),
            i <= a@.len(),
            difference == 0 <==> a@.take(i as int) == b@.take(i as int),
        decreases a@.len() - i,
    {
        let x = a[i];
        let y = b[i];
        let next = difference | (x ^ y);
        assert(next == 0 <==> (difference == 0 && x == y)) by (bit_vector)
            requires
                next == difference | (x ^ y),
        ;
        proof {
            if difference == 0 && x == y {
                assert(a@.take(i + 1) =~= a@.take(i as int).push(x));
                assert(b@.take(i + 1) =~= b@.take(i as int).push(y));
            } else if difference == 0 {
                assert(a@.take(i + 1)[i as int] != b@.take(i + 1)[i as int]);
            } else {
                assert(a@.take(i as int) =~= a@.take(i + 1).take(i as int));
                assert(b@.take(i as int) =~= b@.take(i + 1).take(i as int));
            }
        }
        difference = next;
        i += 1;
    }
    assert(a@.take(a@.len() as int) =~= a@);
    assert(b@.take(b@.len() as int) =~= b@);
    let wide = difference as u16;
    let flipped = 0x100u16 - wide;
    let bit = (flipped >> 8) ^ 1;
    assert(bit == if wide == 0 { 0u16 } else { 1u16 }) by (bit_vector)
        requires
            wide < 0x100,
            flipped == 0x100u16 - wide,
            bit == (flipped >> 8) ^ 1,
    ;
    (bit * 0xff) as u8
}

/// Overwrites `r` with `x` where the mask is 0xff and leaves it where the
/// mask is 0, without a branch on the mask.
pub fn ct_select(r: &mut [u8; 32], x: &[u8; 32], mask: u8)
    requires
        mask == 0 || mask == 0xff,
    ensures
        mask == 0 ==> final(r)@ == old(r)@,
        mask == 0xff ==> final(r)@ == x@,
{
    let ghost before = r@;
    let mut i: usize = 0;
    while i < 32
        invariant
            i <= 32,
            mask == 0 || mask == 0xff,
            forall|j: int| 0 <= j < i ==> r@[j] == if mask == 0 { before[j] } else { x@[j] },
            forall|j: int| i <= j < 32 ==> r@[j] == before[j],
        decreases 32 - i,
    {
        let old_byte = r[i];
        let new_byte = x[i];
        let mixed = old_byte ^ (mask & (new_byte ^ old_byte));
        assert(mixed == if mask == 0 { old_byte } else { new_byte }) by (bit_vector)
            requires
                mask == 0 || mask == 0xff,
                mixed == old_byte ^ (mask & (new_byte ^ old_byte)),
        ;
        r[i] = mixed;
        i += 1;
    }
    proof {
        if mask == 0 {
            assert(r@ =~= before);
        } else {
            assert(r@ =~= x@);
        }
    }
}

/// Overwrites the 32 bytes with zeros: for buffers that held a secret.
pub fn ct_zeroise(buffer: &mut [u8; 32])
    ensures
        forall|i: int| 0 <= i < 32 ==> final(buffer)@[i] == 0,
{
    let mut i: usize = 0;
    while i < 32
        invariant
            i <= 32,
            forall|j: int| 0 <= j < i ==> buffer@[j] == 0,
        decreases 32 - i,
    {
        buffer[i] = 0;
        i += 1;
    }
}

impl<N: PolySize> PublicKeyCca<N> {
    /// The parameter is the one that the seed expands to, within the limit
    /// of the sampler.
    #[verifier::type_invariant]
    pub open(crate) spec fn well_formed(&self) -> bool {
        &&& self.parameter@ == uniform_spec(self.seed@, N::spec_length())
        &&& uniform_within(self.seed@, N::spec_length(), SQUEEZE_LIMIT as nat)
    }

    /// The residues of the key and the seed of the parameter.
    pub open(crate) spec fn view(&self) -> (Seq<int>, Seq<u8>) {
        (self.pk@, self.seed@)
    }
}

impl<N: PolySize> SecretKeyCca<N> {
    /// What the key holds.
    pub open(crate) spec fn view(&self) -> SecretCca {
        SecretCca { sk: self.sk@, pk: self.pk@, pk_hash: self.pk_hash@, reject: self.reject@ }
    }
}

impl<N: PolySize> CipherTextCca<N> {
    /// The compressed polynomial has the length of one.
    #[verifier::type_invariant]
    pub open(crate) spec fn well_formed(&self) -> bool {
        self.ct@.len() == compressed_length(N::spec_length())
    }

    /// What the ciphertext holds.
    pub open(crate) spec fn view(&self) -> CipherCca {
        CipherCca { pk: self.pk@, ct: self.ct@, check: self.check@ }
    }
}

impl<N: PolySize> Cca<N> {
    /// The ciphertext of the message for the public key with the hash that
    /// goes with it, and the seed of the shared secret.
    fn encrypt_message(public_key: &PublicKeyCca<N>, pk_hash: &[u8; 32], message: &[u8; 32]) -> (r:
        (CipherTextCca<N>, [u8; 32]))
        ensures
            r.0@ == cca_cipher_spec(public_key@, pk_hash@, message@),
            r.1@ == cca_buffer(message@, pk_hash@).subrange(0, 32),
    {
        proof {
            use_type_invariant(public_key);
            public_key.pk.0.lemma_view();
        }
        let mut input: Vec<u8> = Vec::with_capacity(65);
        input.push(8);
        append(&mut input, message.as_slice());
        append(&mut input, pk_hash.as_slice());
        assert(input@ =~= seq![8u8] + message@ + pk_hash@);
        let buffer = h(input.as_slice(), 96);
        let b0 = block32(buffer.as_slice(), 0);
        let b1 = block32(buffer.as_slice(), 32);
        let b2 = block32(buffer.as_slice(), 64);
        let (pk, ct) = public_key.parameter.encrypt(&b1, &public_key.pk, message);
        (CipherTextCca { pk, ct, check: b2 }, b0)
    }

    /// The secret that a seed of 32 bytes and a ciphertext give.
    fn shared(key: &[u8; 32], cipher_text: &CipherTextCca<N>) -> (r: Message)
        ensures
            r@ == cca_shared(key@, cipher_text@),
    {
        let encoded = cipher_text.encode();
        let ct_hash = h(encoded.as_slice(), 32);
        let mut input: Vec<u8> = Vec::with_capacity(64);
        append(&mut input, key.as_slice());
        append(&mut input, ct_hash.as_slice());
        assert(input@ =~= key@ + hashed(cca_cipher_encoding(cipher_text@)));
        let out = h(input.as_slice(), 32);
        assert(out@.subrange(0, 32) =~= out@);
        Message(block32(out.as_slice(), 0))
    }
}

impl<N: PolySize> Kem for Cca<N> {
    type PublicKey = PublicKeyCca<N>;

    type SecretKey = SecretKeyCca<N>;

    type CipherText = CipherTextCca<N>;

    type PairSeed = [u8; 64];

    open spec fn generates(seed: &[u8; 64]) -> bool {
        uniform_within(
            expanded_first(1, cca_inner_seed(seed@)),
            N::spec_length(),
            SQUEEZE_LIMIT as nat,
        )
    }

    open spec fn is_pair_of(seed: &[u8; 64], pk: &PublicKeyCca<N>, sk: &SecretKeyCca<N>) -> bool {
        &&& pk@ == cca_public_spec(seed@, N::spec_length())
        &&& sk@ == cca_secret_spec(seed@, N::spec_length())
    }

    open spec fn is_cipher_of(pk: &PublicKeyCca<N>, seed: &Message, ct: &CipherTextCca<N>) -> bool {
        ct@ == cca_encapsulate_cipher(pk@, seed@)
    }

    open spec fn sender_secret(pk: &PublicKeyCca<N>, seed: &Message) -> Seq<u8> {
        cca_encapsulate_shared(pk@, seed@)
    }

    open spec fn receiver_secret(sk: &SecretKeyCca<N>, ct: &CipherTextCca<N>) -> Seq<u8> {
        cca_decapsulate_spec(sk@, ct@)
    }

    fn generate_pair(seed: &[u8; 64]) -> (r: (PublicKeyCca<N>, SecretKeyCca<N>))
        ensures
            r.0@ == cca_public_spec(seed@, N::spec_length()),
            r.1@ == cca_secret_spec(seed@, N::spec_length()),
    {
        let reject = block32(seed.as_slice(), 0);
        let inner = Message(block32(seed.as_slice(), 32));
        let (parameter_seed, pk_seed) = inner.expand(1);
        let parameter = Parameter::<N>::new(&parameter_seed.0);
        let (pk, sk) = parameter.generate(&pk_seed.0);
        let public_key = PublicKeyCca { pk, parameter, seed: parameter_seed.0 };
        let encoded = public_key.encode();
        let hash = h(encoded.as_slice(), 32);
        assert(hash@.subrange(0, 32) =~= hash@);
        let pk_hash = block32(hash.as_slice(), 0);
        let secret_key = SecretKeyCca { sk, pk: public_key.clone(), pk_hash, reject };
        (public_key, secret_key)
    }

    fn try_generate_pair(seed: &[u8; 64]) -> (r: Option<(PublicKeyCca<N>, SecretKeyCca<N>)>)
        ensures
            r is Some ==> r->Some_0.0@ == cca_public_spec(seed@, N::spec_length()),
            r is Some ==> r->Some_0.1@ == cca_secret_spec(seed@, N::spec_length()),
    {
        let inner = Message(block32(seed.as_slice(), 32));
        let (parameter_seed, _) = inner.expand(1);
        if crate::poly::Poly::<N>::expands(&parameter_seed.0) {
            Some(Self::generate_pair(seed))
        } else {
            None
        }
    }

    fn encapsulate(public_key: &PublicKeyCca<N>, seed: &Message) -> (r: (CipherTextCca<N>, Message))
        ensures
            r.0@ == cca_encapsulate_cipher(public_key@, seed@),
            r.1@ == cca_encapsulate_shared(public_key@, seed@),
    {
        let mut input: Vec<u8> = Vec::with_capacity(33);
        input.push(4);
        append(&mut input, seed.0.as_slice());
        assert(input@ =~= seq![4u8] + seed@);
        let hashed_seed = h(input.as_slice(), 32);
        assert(hashed_seed@.subrange(0, 32) =~= hashed_seed@);
        let message = block32(hashed_seed.as_slice(), 0);
        let encoded = public_key.encode();
        let hash = h(encoded.as_slice(), 32);
        assert(hash@.subrange(0, 32) =~= hash@);
        let pk_hash = block32(hash.as_slice(), 0);
        let (cipher_text, b0) = Self::encrypt_message(public_key, &pk_hash, &message);
        let shared = Self::shared(&b0, &cipher_text);
        (cipher_text, shared)
    }

    fn decapsulate(secret_key: &SecretKeyCca<N>, cipher_text: &CipherTextCca<N>) -> (r: Message)
        ensures
            r@ == cca_decapsulate_spec(secret_key@, cipher_text@),
    {
        proof {
            use_type_invariant(cipher_text);
        }
        let mut message = Parameter::<N>::decrypt(
            &cipher_text.pk,
            &secret_key.sk,
            cipher_text.ct.as_slice(),
        );
        let (check, b0) = Self::encrypt_message(&secret_key.pk, &secret_key.pk_hash, &message);
        let given = cipher_text.encode();
        let made = check.encode();
        proof {
            use_type_invariant(&check);
            cipher_text.pk.0.lemma_view();
            check.pk.0.lemma_view();
        }
        let fail = ct_eq(given.as_slice(), made.as_slice());
        let mut key = b0;
        ct_select(&mut key, &secret_key.reject, fail);
        let shared = Self::shared(&key, cipher_text);
        ct_zeroise(&mut key);
        ct_zeroise(&mut message);
        shared
    }
}

impl<N: PolySize> Codable for PublicKeyCca<N> {
    open spec fn spec_size() -> nat {
        packed_length(N::spec_length()) + 32
    }

    open spec fn encoding(&self) -> Seq<u8> {
        public_encoding(self@)
    }

    open spec fn decodable(buffer: Seq<u8>) -> bool {
        public_decodable(buffer, N::spec_length())
    }

    fn size() -> (n: usize) {
        proof {
            N::lemma_length();
        }
        N::length() / 4 * 7 + 32
    }

    fn encode(&self) -> (r: Vec<u8>)
        ensures
            public_decoding(r@, N::spec_length()) == self@,
    {
        proof {
            use_type_invariant(self);
            N::lemma_length();
            self.pk.0.lemma_view();
            lemma_public_round_trip(self@, N::spec_length());
        }
        let mut r = self.pk.encode();
        append(&mut r, self.seed.as_slice());
        r
    }

    fn decode(buffer: &[u8]) -> (r: Result<Self, ()>)
        ensures
            r is Ok ==> r->Ok_0@ == public_decoding(buffer@, N::spec_length()),
    {
        proof {
            N::lemma_length();
        }
        let packed = N::length() / 4 * 7;
        if buffer.len() != packed + 32 {
            return Err(());
        }
        let seed = block32(buffer, packed);
        match PublicKey::<N>::decode(slice_subrange(buffer, 0, packed)) {
            Ok(pk) => {
                match Parameter::<N>::try_new(&seed) {
                    Some(parameter) => {
                        proof {
                            lemma_public_decoding(buffer@, N::spec_length());
                        }
                        Ok(PublicKeyCca { pk, parameter, seed })
                    },
                    None => Err(()),
                }
            },
            Err(e) => Err(e),
        }
    }
}

impl<N: PolySize> Codable for SecretKeyCca<N> {
    open spec fn spec_size() -> nat {
        2 * packed_length(N::spec_length()) + 96
    }

    open spec fn encoding(&self) -> Seq<u8> {
        cca_secret_encoding(self@)
    }

    open spec fn decodable(buffer: Seq<u8>) -> bool {
        cca_secret_decodable(buffer, N::spec_length())
    }

    fn size() -> (n: usize) {
        proof {
            N::lemma_length();
        }
        2 * (N::length() / 4 * 7) + 96
    }

    fn encode(&self) -> (r: Vec<u8>)
        ensures
            cca_secret_decoding(r@, N::spec_length()) == self@,
    {
        proof {
            use_type_invariant(&self.pk);
            N::lemma_length();
            self.sk.0.lemma_view();
            self.pk.pk.0.lemma_view();
            lemma_cca_secret_round_trip(self@, N::spec_length());
        }
        let mut r = self.sk.encode();
        let public_key = self.pk.encode();
        append(&mut r, public_key.as_slice());
        append(&mut r, self.pk_hash.as_slice());
        append(&mut r, self.reject.as_slice());
        r
    }

    fn decode(buffer: &[u8]) -> (r: Result<Self, ()>)
        ensures
            r is Ok ==> r->Ok_0@ == cca_secret_decoding(buffer@, N::spec_length()),
    {
        proof {
            N::lemma_length();
        }
        let packed = N::length() / 4 * 7;
        if buffer.len() != 2 * packed + 96 {
            return Err(());
        }
        let pk_hash = block32(buffer, 2 * packed + 32);
        let reject = block32(buffer, 2 * packed + 64);
        match SecretKey::<N>::decode(slice_subrange(buffer, 0, packed)) {
            Ok(sk) => {
                match PublicKeyCca::<N>::decode(slice_subrange(buffer, packed, 2 * packed + 32)) {
                    Ok(pk) => {
                        proof {
                            lemma_cca_secret_decoding(buffer@, N::spec_length());
                        }
                        Ok(SecretKeyCca { sk, pk, pk_hash, reject })
                    },
                    Err(e) => Err(e),
                }
            },
            Err(e) => Err(e),
        }
    }
}

impl<N: PolySize> Codable for CipherTextCca<N> {
    open spec fn spec_size() -> nat {
        packed_length(N::spec_length()) + compressed_length(N::spec_length()) + 32
    }

    open spec fn encoding(&self) -> Seq<u8> {
        cca_cipher_encoding(self@)
    }

    open spec fn decodable(buffer: Seq<u8>) -> bool {
        cca_cipher_decodable(buffer, N::spec_length())
    }

    fn size() -> (n: usize) {
        proof {
            N::lemma_length();
        }
        N::length() / 4 * 7 + N::length() / 8 * 3 + 32
    }

    fn encode(&self) -> (r: Vec<u8>)
        ensures
            cca_cipher_decoding(r@, N::spec_length()) == self@,
    {
        proof {
            use_type_invariant(self);
            N::lemma_length();
            self.pk.0.lemma_view();
            lemma_cca_cipher_round_trip(self@, N::spec_length());
        }
        let mut r = self.pk.encode();
        append(&mut r, self.ct.as_slice());
        append(&mut r, self.check.as_slice());
        r
    }

    fn decode(buffer: &[u8]) -> (r: Result<Self, ()>)
        ensures
            r is Ok ==> r->Ok_0@ == cca_cipher_decoding(buffer@, N::spec_length()),
    {
        proof {
            N::lemma_length();
        }
        let packed = N::length() / 4 * 7;
        let compressed = N::length() / 8 * 3;
        if buffer.len() != packed + compressed + 32 {
            return Err(());
        }
        let check = block32(buffer, packed + compressed);
        match PublicKey::<N>::decode(slice_subrange(buffer, 0, packed)) {
            Ok(pk) => {
                let ct = slice_to_vec(slice_subrange(buffer, packed, packed + compressed));
                proof {
                    lemma_cca_cipher_decoding(buffer@, N::spec_length());
                }
                Ok(CipherTextCca { pk, ct, check })
            },
            Err(e) => Err(e),
        }
    }
}

impl<N: PolySize> Clone for PublicKeyCca<N> {
    /// A copy of the key.
    fn clone(&self) -> (r: Self)
        ensures
            r@ == self@,
    {
        proof {
            use_type_invariant(self);
        }
        PublicKeyCca { pk: self.pk.clone(), parameter: self.parameter.clone(), seed: self.seed }
    }
}

impl<N: PolySize> Clone for SecretKeyCca<N> {
    /// A copy of the key.
    fn clone(&self) -> (r: Self)
        ensures
            r@ == self@,
    {
        SecretKeyCca {
            sk: self.sk.clone(),
            pk: self.pk.clone(),
            pk_hash: self.pk_hash,
            reject: self.reject,
        }
    }
}

impl<N: PolySize> Clone for CipherTextCca<N> {
    /// A copy of the ciphertext.
    fn clone(&self) -> (r: Self)
        ensures
            r@ == self@,
    {
        proof {
            use_type_invariant(self);
        }
        CipherTextCca {
            pk: self.pk.clone(),
            ct: slice_to_vec(self.ct.as_slice()),
            check: self.check,
        }
    }
}

} // verus!
