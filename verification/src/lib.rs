//! Hexadecimal dump format: recognizing, parsing, printing and patching.
pub mod text;
pub mod hex;
pub mod parse;
pub mod dump;
pub mod load;
pub mod patch;
pub mod laws;
