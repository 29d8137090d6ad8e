//! A small toolkit of classical substitution ciphers over ASCII text: a
//! fixed-shift (Caesar) cipher, a homophonic one-to-many substitution
//! cipher, and a repeating-key polyalphabetic (Vigenère-style) cipher,
//! together with the substitution-table abstraction they share.

pub mod algorithms;
mod random;
pub mod text;
pub mod utils;
