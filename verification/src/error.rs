//! The failure conditions of an alignment attempt.  All of them abort the
//! whole batch; none is retried internally.

use vstd::prelude::*;

verus! {

/// Why an alignment attempt failed.
#[derive(Debug, Clone, PartialEq, Eq)]
pub enum AlignError {
    /// The pasted translation has a different number of lines than the text
    /// that was handed out; the user must re-paste a matching translation.
    LineCountMismatch { expected: usize, got: usize },
    /// A line pair has zero source words but target words to distribute:
    /// no proportional allocation exists.
    DegenerateSourceLine,
    /// The text walked during alignment diverged from the text that was
    /// extracted for translation: the word token read did not equal the
    /// source word of the next allocation.
    TokenSyncMismatch { expected_word: String, observed_token: String, position: usize },
    /// The allocation stream ended while word tokens remained, or
    /// allocations were left over after every entry was rewritten.
    StreamExhaustion,
}

} // verus!
