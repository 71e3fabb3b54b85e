//! Streaming count of the (possibly overlapping) occurrences of a literal
//! byte pattern in a byte stream that arrives in chunks.
//!
//! `occurrences` holds the mathematical model and its lemmas, `search` the
//! searches within one slice, and `counter` the streaming counter, which
//! keeps only a suffix shorter than the pattern between chunks.

pub mod counter;
pub mod occurrences;
pub mod search;

pub use counter::NeedleCounter;
pub use search::first_possible_prefix;
