//! The NewHope key encapsulation mechanism over the ring of polynomials
//! modulo X^n + 1 with coefficients modulo 12289.

pub mod butterfly;
pub mod cca;
pub mod coefficient;
pub mod correctness;
pub mod cpa;
pub mod fourier;
pub mod hash;
pub mod inversion;
pub mod kem;
pub mod message;
pub mod ntt;
pub mod pke;
pub mod poly;
pub mod round_trip;
pub mod sample;
pub mod sizes;
pub mod smallest;
pub mod spectrum;
pub mod tables;

pub use crate::cca::Cca;
pub use crate::coefficient::Coefficient;
pub use crate::cpa::Cpa;
pub use crate::hash::h;
pub use crate::kem::Kem;
pub use crate::message::Message;
pub use crate::ntt::{Ntt, ReverseBits};
pub use crate::pke::{Codable, Parameter, Pke, PublicKey, SecretKey};
pub use crate::poly::{CoefficientRich, Involution, Poly, PolyState};
pub use crate::sizes::{Base1024, Base512, PolySize};
