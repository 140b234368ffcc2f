//! The two tokenizer variants: over the raw byte stream, and over chunks cut
//! by a splitting pattern.
pub mod basic;
pub mod regex;
