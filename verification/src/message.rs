//! Messages, seeds and secrets of 32 bytes, and the two derivations that the
//! key encapsulation mechanisms make from them with SHAKE256.

use vstd::prelude::*;
use crate::hash::{block32, h, shake256_output};

verus! {

/// What a seed expands to under the domain byte `nonce`: 64 bytes of
/// SHAKE256 output for the byte followed by the seed.
pub open spec fn expanded(nonce: u8, seed: Seq<u8>) -> Seq<u8> {
    shake256_output(seq![nonce] + seed, 64)
}

/// The first half of what a seed expands to.
pub open spec fn expanded_first(nonce: u8, seed: Seq<u8>) -> Seq<u8> {
    expanded(nonce, seed).subrange(0, 32)
}

/// The second half of what a seed expands to.
pub open spec fn expanded_second(nonce: u8, seed: Seq<u8>) -> Seq<u8> {
    expanded(nonce, seed).subrange(32, 64)
}

/// The hash of 32 bytes: 32 bytes of SHAKE256 output.
pub open spec fn hashed(message: Seq<u8>) -> Seq<u8> {
    shake256_output(message, 32)
}

/// 32 bytes: a seed, a message or a shared secret.
#[derive(Clone, Copy, Debug, Default, PartialEq, Eq)]
pub struct Message(pub [u8; 32]);

impl Message {
    /// The number of bytes.
    pub const SIZE: usize = 32;

    /// The bytes.
    pub open spec fn view(&self) -> Seq<u8> {
        self.0@
    }

    /// The two seeds that this seed expands to under the domain byte
    /// `nonce`.
    pub fn expand(self, nonce: u8) -> (r: (Message, Message))
        ensures
            r.0@ == expanded_first(nonce, self@),
            r.1@ == expanded_second(nonce, self@),
    {
        let mut input: Vec<u8> = Vec::with_capacity(33);
        input.push(nonce);
        crate::hash::append(&mut input, self.0.as_slice());
        assert(input@ =~= seq![nonce] + self@);
        let buffer = h(input.as_slice(), 64);
        (Message(block32(buffer.as_slice(), 0)), Message(block32(buffer.as_slice(), 32)))
    }

    /// The hash of the message.
    pub fn hash(self) -> (r: Message)
        ensures
            r@ == hashed(self@),
    {
        let buffer = h(self.0.as_slice(), 32);
        assert(buffer@.subrange(0, 32) =~= buffer@);
        Message(block32(buffer.as_slice(), 0))
    }
}

} // verus!
