//! What a key encapsulation mechanism offers.

use vstd::prelude::*;
use crate::message::Message;

verus! {

/// A key encapsulation mechanism: a pair of keys from a seed, a ciphertext
/// and a shared secret from a public key and a seed, and the shared secret
/// again from the secret key and the ciphertext.
pub trait Kem {
    /// The public key.
    type PublicKey;

    /// The secret key.
    type SecretKey;

    /// The ciphertext.
    type CipherText;

    /// The seed of a pair of keys.
    type PairSeed;

    /// The seed gives a pair of keys: the public parameter that it leads to
    /// can be sampled within the limit of the sampler.
    spec fn generates(seed: &Self::PairSeed) -> bool;

    /// The two keys are the pair that the seed gives.
    spec fn is_pair_of(seed: &Self::PairSeed, pk: &Self::PublicKey, sk: &Self::SecretKey) -> bool;

    /// The ciphertext is the one that the seed gives for the public key.
    spec fn is_cipher_of(pk: &Self::PublicKey, seed: &Message, ct: &Self::CipherText) -> bool;

    /// The secret that the sender shares with the owner of the public key
    /// under the seed.
    spec fn sender_secret(pk: &Self::PublicKey, seed: &Message) -> Seq<u8>;

    /// The secret that the owner of the secret key reads from the
    /// ciphertext.
    spec fn receiver_secret(sk: &Self::SecretKey, ct: &Self::CipherText) -> Seq<u8>;

    /// The pair of keys that the seed gives.
    fn generate_pair(seed: &Self::PairSeed) -> (r: (Self::PublicKey, Self::SecretKey))
        requires
            Self::generates(seed),
        ensures
            Self::is_pair_of(seed, &r.0, &r.1),
    ;

    /// The pair of keys that the seed gives, or nothing where the sampler of
    /// the public parameter gives up on it.
    fn try_generate_pair(seed: &Self::PairSeed) -> (r: Option<(Self::PublicKey, Self::SecretKey)>)
        ensures
            r is Some <==> Self::generates(seed),
            r is Some ==> Self::is_pair_of(seed, &r->Some_0.0, &r->Some_0.1),
    ;

    /// A ciphertext for the public key and the secret that it shares.
    fn encapsulate(public_key: &Self::PublicKey, seed: &Message) -> (r: (Self::CipherText, Message))
        ensures
            Self::is_cipher_of(public_key, seed, &r.0),
            r.1@ == Self::sender_secret(public_key, seed),
    ;

    /// The secret that the ciphertext shares with the owner of the secret
    /// key.
    fn decapsulate(secret_key: &Self::SecretKey, cipher_text: &Self::CipherText) -> (r: Message)
        ensures
            r@ == Self::receiver_secret(secret_key, cipher_text),
    ;
}

} // verus!
