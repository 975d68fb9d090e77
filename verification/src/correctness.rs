//! When decryption gives the message back: wherever what is left besides
//! the message, coefficient by coefficient, stays nearer to zero than a
//! quarter of q.

use vstd::prelude::*;
use crate::cca::{
    cca_accepts,
    cca_buffer,
    cca_decapsulate_spec,
    cca_encapsulate_cipher,
    cca_encapsulate_shared,
    cca_inner_seed,
    cca_message,
    cca_public_spec,
    cca_secret_spec,
    lemma_cca_agreement,
};
use crate::coefficient::{flip_abs_value, residue};
use crate::cpa::{
    cpa_cipher_spec,
    cpa_decapsulate_spec,
    cpa_key_seed,
    cpa_message,
    cpa_noise_seed,
    cpa_parameter_seed,
    cpa_public_spec,
    lemma_cpa_agreement,
};
use crate::message::{expanded_first, expanded_second, hashed};
use crate::ntt::{inv_ntt_spec, multiply_spec, ntt_spec, reverse_bits_spec, transform_spec};
use crate::pke::{
    cipher_spec,
    decrypt_spec,
    public_encoding,
    public_spec,
    secret_spec,
    shared_spec,
};
use crate::poly::{
    decoded_bit,
    decompress_spec,
    flip_sum,
    from_message_spec,
    lemma_message_of_bits,
    message_bit,
    mul_spec,
    sub_spec,
    to_message_spec,
};
use crate::sample::{sample_spec, uniform_spec};
use crate::sizes::layer_count;
use crate::tables::{gammas_bitrev, omegas_inv_bitrev};

verus! {

/// How far the residue `r` lies from zero, going round the modulus.
pub open spec fn distance(r: int) -> int {
    if r <= 6144 {
        r
    } else {
        12289 - r
    }
}

/// The farthest from zero that what is left of a coefficient may lie for
/// the bit to be read right.
pub open spec fn budget() -> int {
    3070
}

/// What decryption is left with besides the message: the shared polynomial
/// of the receiver, minus what was received, plus the encoded message.
pub open spec fn remainder_spec(shared: Seq<int>, received: Seq<int>, plain: Seq<u8>) -> Seq<int> {
    Seq::new(
        shared.len(),
        |i: int| residue(shared[i] - received[i] + from_message_spec(plain, shared.len())[i]),
    )
}

/// Every residue lies within the budget.
pub open spec fn within_budget(e: Seq<int>) -> bool {
    forall|i: int| 0 <= i < e.len() ==> distance(#[trigger] e[i]) <= budget()
}

/// What the decryption of the ciphertext of `plain` is left with, for the
/// keys that `key_seed` gives under the parameter `a` and the encryption
/// under `seed`.
pub open spec fn error_spec(a: Seq<int>, key_seed: Seq<u8>, seed: Seq<u8>, plain: Seq<u8>) -> Seq<
    int,
> {
    remainder_spec(
        shared_spec(public_spec(a, seed), secret_spec(key_seed, a.len())),
        decompress_spec(cipher_spec(seed, public_spec(a, key_seed), plain), a.len()),
        plain,
    )
}

/// The layers of butterflies keep the length.
pub proof fn lemma_transform_length(p: Seq<int>, omegas: Seq<u16>, layers: nat)
    ensures
        transform_spec(p, omegas, layers).len() == p.len(),
    decreases layers,
{
    if layers > 0 {
        lemma_transform_length(p, omegas, (layers - 1) as nat);
    }
}

/// The shared polynomial and a public key are as long as the parameter.
pub proof fn lemma_lengths(a: Seq<int>, seed: Seq<u8>, sk: Seq<int>)
    ensures
        public_spec(a, seed).len() == a.len(),
        shared_spec(public_spec(a, seed), sk).len() == a.len(),
{
    let n = a.len();
    let noise = sample_spec(seed, 1, n);
    let scaled = multiply_spec(noise, gammas_bitrev(n));
    lemma_transform_length(scaled, gammas_bitrev(n), layer_count(n));
    assert(ntt_spec(noise).len() == n);
    let pk = public_spec(a, seed);
    assert(pk.len() == n);
    let product = reverse_bits_spec(mul_spec(pk, sk));
    assert(product.len() == n);
    lemma_transform_length(product, omegas_inv_bitrev(n), layer_count(n));
    assert(inv_ntt_spec(product).len() == n);
}

/// One coefficient: with the remainder within the budget, the difference
/// lies near q / 2 where the bit is set and far from it where it is not.
proof fn lemma_coefficient(shared: int, received: int, set: bool)
    requires
        distance(
            residue(
                shared - received + if set {
                    6144int
                } else {
                    0int
                },
            ),
        ) <= budget(),
    ensures
        set ==> flip_abs_value(residue(shared - received)) <= 3071,
        !set ==> flip_abs_value(residue(shared - received)) >= 3074,
{
}

/// The sum of the distances of the copies of one bit.
proof fn lemma_flip_sum_bounds(shared: Seq<int>, received: Seq<int>, plain: Seq<u8>, l: int, k: nat)
    requires
        0 <= l < 256,
        l + 256 * k <= shared.len() + 255,
        within_budget(remainder_spec(shared, received, plain)),
    ensures
        message_bit(plain, l) ==> flip_sum(sub_spec(shared, received), l, k) <= 3071 * k,
        !message_bit(plain, l) ==> flip_sum(sub_spec(shared, received), l, k) >= 3074 * k,
    decreases k,
{
    if k > 0 {
        lemma_flip_sum_bounds(shared, received, plain, l, (k - 1) as nat);
        let i = l + 256 * (k - 1);
        assert(0 <= i < shared.len());
        assert(i % 256 == l);
        let e = remainder_spec(shared, received, plain);
        assert(distance(e[i]) <= budget());
        lemma_coefficient(shared[i], received[i], message_bit(plain, l));
    }
}

/// Decoding gives the message back where what is left besides it stays
/// within the budget.
pub proof fn lemma_decoding(shared: Seq<int>, received: Seq<int>, plain: Seq<u8>)
    requires
        shared.len() == 512 || shared.len() == 1024,
        plain.len() == 32,
        within_budget(remainder_spec(shared, received, plain)),
    ensures
        to_message_spec(sub_spec(shared, received)) == plain,
{
    let w = sub_spec(shared, received);
    let copies = shared.len() / 256;
    assert forall|l: int| 0 <= l < 256 implies #[trigger] decoded_bit(w, l) == message_bit(
        plain,
        l,
    ) by {
        lemma_flip_sum_bounds(shared, received, plain, l, copies);
    }
    lemma_message_of_bits(w, plain);
}

/// Decryption undoes encryption: for the keys that `key_seed` gives under
/// the parameter `a`, the ciphertext of a message under any seed decrypts
/// to the message, where the error stays within the budget.
pub proof fn lemma_decryption(a: Seq<int>, key_seed: Seq<u8>, seed: Seq<u8>, plain: Seq<u8>)
    requires
        a.len() == 512 || a.len() == 1024,
        plain.len() == 32,
        within_budget(error_spec(a, key_seed, seed, plain)),
    ensures
        decrypt_spec(
            public_spec(a, seed),
            secret_spec(key_seed, a.len()),
            cipher_spec(seed, public_spec(a, key_seed), plain),
        ) == plain,
{
    let sk = secret_spec(key_seed, a.len());
    lemma_lengths(a, seed, sk);
    lemma_decoding(
        shared_spec(public_spec(a, seed), sk),
        decompress_spec(cipher_spec(seed, public_spec(a, key_seed), plain), a.len()),
        plain,
    );
}

/// What is left besides the message where the receiver of the mechanism
/// without the check of ciphertexts, with the keys of `pair_seed`, decrypts
/// what the sender made under `seed`.
pub open spec fn cpa_error(pair_seed: Seq<u8>, seed: Seq<u8>, n: nat) -> Seq<int> {
    error_spec(
        uniform_spec(cpa_parameter_seed(pair_seed), n),
        cpa_key_seed(pair_seed),
        cpa_noise_seed(seed),
        cpa_message(seed),
    )
}

/// Both sides of the mechanism without the check of ciphertexts hold the
/// same secret: what the receiver with the keys of `pair_seed` derives from
/// the ciphertext that the sender made under `seed` is the secret of the
/// sender, where the error stays within the budget.
pub proof fn lemma_cpa_correct(pair_seed: Seq<u8>, seed: Seq<u8>, n: nat)
    requires
        n == 512 || n == 1024,
        cpa_message(seed).len() == 32,
        within_budget(cpa_error(pair_seed, seed, n)),
    ensures
        cpa_decapsulate_spec(
            secret_spec(cpa_key_seed(pair_seed), n),
            cpa_cipher_spec(cpa_public_spec(pair_seed, n), seed),
        ) == hashed(cpa_message(seed)),
{
    let a = uniform_spec(cpa_parameter_seed(pair_seed), n);
    let sk = secret_spec(cpa_key_seed(pair_seed), n);
    lemma_lengths(a, cpa_key_seed(pair_seed), sk);
    lemma_decryption(a, cpa_key_seed(pair_seed), cpa_noise_seed(seed), cpa_message(seed));
    lemma_cpa_agreement(sk, cpa_public_spec(pair_seed, n), seed);
}

/// The seed of the noise that the sender of the mechanism with the check of
/// ciphertexts uses under `seed` for the public key of `pair_seed`.
pub open spec fn cca_noise_seed(pair_seed: Seq<u8>, seed: Seq<u8>, n: nat) -> Seq<u8> {
    cca_buffer(cca_message(seed), hashed(public_encoding(cca_public_spec(pair_seed, n)))).subrange(
        32,
        64,
    )
}

/// What is left besides the message where the receiver of the mechanism
/// with the check of ciphertexts, with the keys of `pair_seed`, decrypts
/// what the sender made under `seed`.
pub open spec fn cca_error(pair_seed: Seq<u8>, seed: Seq<u8>, n: nat) -> Seq<int> {
    error_spec(
        uniform_spec(expanded_first(1, cca_inner_seed(pair_seed)), n),
        expanded_second(1, cca_inner_seed(pair_seed)),
        cca_noise_seed(pair_seed, seed, n),
        cca_message(seed),
    )
}

/// Both sides of the mechanism with the check of ciphertexts hold the same
/// secret: the receiver with the keys of `pair_seed` accepts the ciphertext
/// that the sender made under `seed` and derives the secret of the sender,
/// where the error stays within the budget.
pub proof fn lemma_cca_correct(pair_seed: Seq<u8>, seed: Seq<u8>, n: nat)
    requires
        n == 512 || n == 1024,
        cca_message(seed).len() == 32,
        within_budget(cca_error(pair_seed, seed, n)),
    ensures
        cca_accepts(
            cca_secret_spec(pair_seed, n),
            cca_encapsulate_cipher(cca_public_spec(pair_seed, n), seed),
        ),
        cca_decapsulate_spec(
            cca_secret_spec(pair_seed, n),
            cca_encapsulate_cipher(cca_public_spec(pair_seed, n), seed),
        ) == cca_encapsulate_shared(cca_public_spec(pair_seed, n), seed),
{
    let key_seed = expanded_second(1, cca_inner_seed(pair_seed));
    let a = uniform_spec(expanded_first(1, cca_inner_seed(pair_seed)), n);
    let sk = cca_secret_spec(pair_seed, n);
    lemma_lengths(a, key_seed, sk.sk);
    lemma_decryption(a, key_seed, cca_noise_seed(pair_seed, seed, n), cca_message(seed));
    lemma_cca_agreement(sk, cca_public_spec(pair_seed, n), seed);
}

} // verus!
