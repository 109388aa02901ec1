//! The start of a recording: it opens with its header.

use vstd::prelude::*;
use crate::event::{Event, HeaderBody};

verus! {

/// Why a recording could not be read.
#[derive(Copy, Clone, Debug, PartialEq, Eq, Structural)]
pub enum ReadError {
    /// The data does not start with a proper header.
    MissingHeader,
}

/// The header of a recording, from its first event.
pub fn parse_events(first: Event) -> (header: Result<HeaderBody, ReadError>)
    ensures
        header == (match first {
            Event::Header(body) => Ok::<HeaderBody, ReadError>(body),
            _ => Err(ReadError::MissingHeader),
        }),
{
    match first {
        Event::Header(body) => Ok(body),
        _ => Err(ReadError::MissingHeader),
    }
}

} // verus!
