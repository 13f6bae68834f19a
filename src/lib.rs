//! Splitting a byte buffer into words separated by a delimiter byte, where a
//! delimiter preceded by an odd run of escape bytes is part of a word.
//!
//! [`Iter`] hands out the words from the front ([`Iter::next`]) and from the
//! back ([`Iter::next_back`]), in any interleaving, as slices of the buffer.
//! `model` states what the words are, `laws` what holds of every buffer.
pub mod laws;
pub mod model;
pub mod proofs;
pub mod scanner;

pub use scanner::{iter, Iter};
