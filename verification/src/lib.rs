//! A bijective codec between unsigned integers and pronounceable words built
//! from alternating character alphabets, together with a generator of random
//! words of the same shape.

pub mod alphabet;
pub mod codec;
pub mod generate;
pub mod laws;
pub mod model;

pub use alphabet::default_alphabets;
pub use codec::{decode, encode, is_valid, BananaError, DecodeParams, EncodeParams};
pub use generate::random;
