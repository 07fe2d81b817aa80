//! Host-side driver core for a UART debug access port.
//!
//! A remote target exposes an interactive debug shell over a serial line.
//! This crate holds the verified protocol engine: formatting of memory
//! read/write commands into prompt-level command lines, assembly of raw
//! serial bytes into lines, and the two-state parser that correlates read
//! commands with their multi-line hex-dump responses and decodes them into
//! 32-bit word events.
//!
//! Serial-port and channel plumbing is not part of this crate's logic; the
//! functions here are pure state transformers that an asynchronous shell
//! drives with received bytes and application commands.

use vstd::prelude::*;

pub mod linebuf;
pub mod numtext;
pub mod parser;
pub mod session;
pub mod text;
pub mod types;
pub mod wire;

pub use linebuf::LineBuffer;
pub use parser::ParserState;
pub use session::Session;
pub use types::Command;
pub use types::DapError;
pub use types::Echo;
pub use types::Event;
pub use types::LineEnding;
pub use types::Target;
pub use wire::frame_command;

verus! {

/// Initial capacity of the inbound line buffer.
pub const LINE_BUFFER_SIZE: usize = 4096;

/// Number of payload bytes a single hex-dump response line carries at most.
pub const MAX_BYTES_PER_LINE: u32 = 16;

/// Number of bytes a read command requests when the user omits a length.
pub const READ_DEFAULT_NBYTES: u32 = 16;

} // verus!
