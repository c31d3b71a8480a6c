//! Structured access to the dependency parses printed by J.DepP.
//!
//! J.DepP prints its analysis in the CaboCha format: a chunk header line
//! `* <id> <head><type>` opens each chunk (bunsetsu), the morpheme lines of
//! that chunk follow, and a line `EOS` closes the sentence.  This crate turns
//! such text into [`ParsedSentence`] values; every step of that parse is
//! specified over sequences of characters and proved.

pub mod text;
pub mod types;
pub mod cabocha;
pub mod message;
pub mod laws;
pub mod roundtrip;

pub use cabocha::{parse_cabocha_like, parse_jdepp_output};
pub use types::{Chunk, Error, NulByteError, ParseError, ParsedSentence, Token};
