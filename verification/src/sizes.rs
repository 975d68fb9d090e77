//! The two polynomial lengths and the byte lengths that follow from them.

use vstd::prelude::*;
use core::marker::PhantomData;

verus! {

/// A polynomial length: 512 or 1024. A type that implements this trait
/// stands for one of the two.
pub trait PolySize: Sized {
    /// The number of coefficients.
    spec fn spec_length() -> nat;

    /// Only the two lengths exist.
    proof fn lemma_length()
        ensures
            Self::spec_length() == 512 || Self::spec_length() == 1024,
    ;

    /// The number of coefficients.
    fn length() -> (n: usize)
        ensures
            n == Self::spec_length(),
    ;
}

/// The number of bytes of a polynomial of `n` coefficients packed at
/// fourteen bits each.
pub open spec fn packed_length(n: nat) -> nat {
    n / 4 * 7
}

/// The number of bytes of a polynomial of `n` coefficients compressed to
/// three bits each.
pub open spec fn compressed_length(n: nat) -> nat {
    n / 8 * 3
}

/// The number of butterfly layers of the transform of length `n`.
pub open spec fn layer_count(n: nat) -> nat {
    if n == 512 {
        9
    } else {
        10
    }
}

/// The length 512.
#[derive(Clone, Copy, Debug, PartialEq, Eq)]
pub struct Base512;

/// The length 1024.
#[derive(Clone, Copy, Debug, PartialEq, Eq)]
pub struct Base1024;

impl PolySize for Base512 {
    open spec fn spec_length() -> nat {
        512
    }

    proof fn lemma_length() {
    }

    fn length() -> (n: usize) {
        512
    }
}

impl PolySize for Base1024 {
    open spec fn spec_length() -> nat {
        1024
    }

    proof fn lemma_length() {
    }

    fn length() -> (n: usize) {
        1024
    }
}

/// The byte lengths of the parts that keys and ciphertexts are made of.
pub trait NewHopeBaseSize: PolySize {
    /// The number of coefficients.
    fn size() -> (n: usize)
        ensures
            n == Self::spec_length(),
    ;

    /// The length of a seed, a message, a hash or a shared secret.
    fn sym() -> (n: usize)
        ensures
            n == 32,
    ;

    /// The length of a packed polynomial.
    fn poly() -> (n: usize)
        ensures
            n == packed_length(Self::spec_length()),
    ;

    /// The length of a compressed polynomial.
    fn poly_compressed() -> (n: usize)
        ensures
            n == compressed_length(Self::spec_length()),
    ;
}

impl NewHopeBaseSize for Base512 {
    fn size() -> (n: usize) {
        512
    }

    fn sym() -> (n: usize) {
        32
    }

    fn poly() -> (n: usize) {
        896
    }

    fn poly_compressed() -> (n: usize) {
        192
    }
}

impl NewHopeBaseSize for Base1024 {
    fn size() -> (n: usize) {
        1024
    }

    fn sym() -> (n: usize) {
        32
    }

    fn poly() -> (n: usize) {
        1792
    }

    fn poly_compressed() -> (n: usize) {
        384
    }
}

/// The byte lengths of the serialized keys, ciphertext and shared secret of
/// a key encapsulation mechanism.
pub trait NewHopeSize {
    /// The serialized length of a public key, as a number.
    spec fn spec_public_key() -> nat;

    /// The serialized length of a secret key, as a number.
    spec fn spec_secret_key() -> nat;

    /// The serialized length of a ciphertext, as a number.
    spec fn spec_cipher_text() -> nat;

    /// The serialized length of a public key.
    fn public_key() -> (n: usize)
        ensures
            n == Self::spec_public_key(),
    ;

    /// The serialized length of a secret key.
    fn secret_key() -> (n: usize)
        ensures
            n == Self::spec_secret_key(),
    ;

    /// The serialized length of a ciphertext.
    fn cipher_text() -> (n: usize)
        ensures
            n == Self::spec_cipher_text(),
    ;

    /// The length of a shared secret.
    fn shared_secret() -> (n: usize)
        ensures
            n == 32,
    ;
}

/// The sizes of the mechanism that is secure against chosen plaintexts.
pub struct Cpakem<B: NewHopeBaseSize>(PhantomData<B>);

/// The sizes of the mechanism that is secure against chosen ciphertexts.
pub struct Ccakem<B: NewHopeBaseSize>(PhantomData<B>);

impl<B: NewHopeBaseSize> NewHopeSize for Cpakem<B> {
    open spec fn spec_public_key() -> nat {
        packed_length(B::spec_length()) + 32
    }

    open spec fn spec_secret_key() -> nat {
        packed_length(B::spec_length())
    }

    open spec fn spec_cipher_text() -> nat {
        packed_length(B::spec_length()) + compressed_length(B::spec_length())
    }

    fn public_key() -> (n: usize) {
        proof {
            B::lemma_length();
        }
        B::poly() + B::sym()
    }

    fn secret_key() -> (n: usize) {
        B::poly()
    }

    fn cipher_text() -> (n: usize) {
        proof {
            B::lemma_length();
        }
        B::poly() + B::poly_compressed()
    }

    fn shared_secret() -> (n: usize) {
        B::sym()
    }
}

impl<B: NewHopeBaseSize> NewHopeSize for Ccakem<B> {
    open spec fn spec_public_key() -> nat {
        packed_length(B::spec_length()) + 32
    }

    open spec fn spec_secret_key() -> nat {
        2 * packed_length(B::spec_length()) + 3 * 32
    }

    open spec fn spec_cipher_text() -> nat {
        packed_length(B::spec_length()) + compressed_length(B::spec_length()) + 32
    }

    fn public_key() -> (n: usize) {
        proof {
            B::lemma_length();
        }
        B::poly() + B::sym()
    }

    fn secret_key() -> (n: usize) {
        proof {
            B::lemma_length();
        }
        2 * B::poly() + 3 * B::sym()
    }

    fn cipher_text() -> (n: usize) {
        proof {
            B::lemma_length();
        }
        B::poly() + B::poly_compressed() + B::sym()
    }

    fn shared_secret() -> (n: usize) {
        B::sym()
    }
}

} // verus!
