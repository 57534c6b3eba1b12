//! A fixed-width codec for textual keys: any string is padded and cut to 32
//! characters, lower-cased by Unicode's case mapping into a 32-character
//! canonical key over a 37-symbol alphabet, and packed into a 36-byte blob;
//! a blob is unpacked back into a 32-character string.

pub mod alphabet;
pub mod codec;
pub mod laws;

pub use alphabet::{convert_char, deconvert_char};
pub use codec::{decode, encode};
