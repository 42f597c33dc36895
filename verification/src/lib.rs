//! Static arithmetic coding over bytes with an integer rescaling engine.
//!
//! A frequency table is gathered from the input, the input is narrowed
//! symbol by symbol into a pair of fixed-width registers, and the bits that
//! leave the registers are packed into 32-bit words. The container keeps the
//! code words, the table and a short trailer together.

pub mod error;
pub mod symbols;
pub mod bitseq;
pub mod coder;
pub mod agreement;
pub mod registers;
pub mod coding;
pub mod bitpack;
pub mod container;
pub mod encoder;
pub mod decoder;
pub mod codec;

pub use crate::codec::{compress, decompress};
pub use crate::coding::{verify_gp2_minus_one, ArithmeticCoding, Operation};
pub use crate::decoder::ArithmeticDecoder;
pub use crate::encoder::ArithmeticEncoder;
pub use crate::error::CodingError;
pub use crate::symbols::Symbols;
