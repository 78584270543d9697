//! A SHA-1 digest engine and a wordlist preimage scanner built on it.
//!
//! The engine absorbs bytes incrementally and renders the 160-bit digest as a
//! 40-character lowercase hexadecimal string. The scanner hashes candidate
//! lines one at a time and reports the first whose digest equals a target.

pub mod scan;
pub mod sha1;
