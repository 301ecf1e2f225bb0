//! Search helpers for a key-range puzzle hunt: configuration text and
//! parsing, candidate enumeration, key and address derivation.

pub mod address;
pub mod config;
pub mod base58;
pub mod digits;
pub mod hashing;
pub mod keys;
pub mod search;
pub mod text;

pub use text::{first_word, get_conf_text, start_zero};
