//! Protocol bridge for a line-oriented child worker process.
//!
//! The bridge reassembles newline-delimited frames from an arbitrarily
//! chunked byte stream ([`frame`]), encodes outgoing requests and decodes
//! incoming responses on the JSON wire protocol ([`codec`]), classifies
//! each assembled line into exactly one event ([`pump`]), serializes
//! writes to the child's input stream ([`channel`]), and tracks the
//! child-process lifecycle ([`supervisor`]).

use vstd::prelude::*;

pub mod channel;
pub mod codec;
pub mod commands;
pub mod frame;
pub mod json;
pub mod pump;
pub mod supervisor;
pub mod text;

verus! {

/// Maximum number of bytes the frame assembler keeps while waiting for a
/// line terminator; beyond this the buffered bytes are discarded.
pub const MAX_MESSAGE_SIZE: usize = 10485760;

} // verus!
