//! Timed subtitle entries: the structured document whose text the aligner
//! rewrites.  Index and timing fields are carried through unchanged; only
//! the text field is ever read or replaced.

use vstd::prelude::*;

pub mod clean;
pub mod ext;
pub mod extract;
pub mod path;
pub mod translation;

verus! {

/// A point in time, as hours, minutes, seconds and milliseconds.
#[derive(Debug, Clone, Copy, PartialEq, Eq, Structural)]
pub struct Timestamp {
    pub hours: u8,
    pub minutes: u8,
    pub seconds: u8,
    pub milliseconds: u16,
}

impl Timestamp {
    pub fn new(hours: u8, minutes: u8, seconds: u8, milliseconds: u16) -> (r: Timestamp)
        ensures
            r == (Timestamp { hours, minutes, seconds, milliseconds }),
    {
        Timestamp { hours, minutes, seconds, milliseconds }
    }
}

/// One timed entry of a subtitle document.
#[derive(Debug, Clone, PartialEq)]
pub struct Subtitle {
    pub num: usize,
    pub start_time: Timestamp,
    pub end_time: Timestamp,
    pub text: String,
}

impl Subtitle {
    pub fn new(num: usize, start_time: Timestamp, end_time: Timestamp, text: String) -> (r:
        Subtitle)
        ensures
            r.num == num,
            r.start_time == start_time,
            r.end_time == end_time,
            r.text == text,
    {
        Subtitle { num, start_time, end_time, text }
    }
}

} // verus!
