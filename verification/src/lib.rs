//! Text-to-speech generation pipeline with a verified core.
//!
//! The library splits input text into provider-sized chunks, classifies
//! provider responses, decides retries with bounded exponential backoff,
//! assembles audio segments in order, and keeps a usage ledger with
//! aggregate queries.

#![verifier::loop_isolation(false)]

pub mod assembler;
pub mod chunker;
pub mod cli;
pub mod client;
pub mod error;
pub mod file_manager;
pub mod ledger;
pub mod service;

use vstd::prelude::*;

verus! {

use vstd::string::StrSliceExecFns;

/// Character count of a text, as the usage ledger records it.
pub fn count_characters(text: &str) -> (n: usize)
    ensures
        n == text@.len(),
{
    text.unicode_len()
}

} // verus!
