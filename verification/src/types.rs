//! The driver's data model: commands, events, and per-session configuration.

use vstd::prelude::*;

verus! {

/// Whether the driver re-injects its own transmitted command lines into its
/// inbound parser (`Local`), or relies on the target to echo them (`Remote`).
#[derive(Debug, Clone, Copy, PartialEq, Eq, Structural)]
pub enum Echo {
    Local,
    Remote,
}

impl Echo {
    /// True when each application command must also be duplicated onto the
    /// local echo path before it goes to the serial transmitter.
    pub fn is_local(&self) -> (r: bool)
        ensures
            r == (*self == Echo::Local),
    {
        matches!(self, Echo::Local)
    }
}

/// Line ending appended to each outbound command line. Inbound framing
/// always terminates on a line feed, whatever this is set to.
#[derive(Debug, Clone, Copy, PartialEq, Eq, Structural)]
pub enum LineEnding {
    Lf,
    CrLf,
}

/// The bytes that a [`LineEnding`] puts on the wire.
pub open spec fn line_ending_bytes(e: LineEnding) -> Seq<u8> {
    match e {
        LineEnding::Lf => seq![10u8],
        LineEnding::CrLf => seq![13u8, 10u8],
    }
}

impl LineEnding {
    /// The byte form of this line ending.
    pub fn to_bytes(&self) -> (r: Vec<u8>)
        ensures
            r@ == line_ending_bytes(*self),
    {
        match self {
            LineEnding::Lf => {
                let mut v: Vec<u8> = Vec::new();
                v.push(10u8);
                proof {
                    assert(v@ =~= line_ending_bytes(LineEnding::Lf));
                }
                v
            },
            LineEnding::CrLf => {
                let mut v: Vec<u8> = Vec::new();
                v.push(13u8);
                v.push(10u8);
                proof {
                    assert(v@ =~= line_ending_bytes(LineEnding::CrLf));
                }
                v
            },
        }
    }
}

/// Operating system running on the remote target. Informational only: both
/// targets speak the same command syntax, so parsing does not depend on it.
#[derive(Debug, Clone, Copy, PartialEq, Eq, Structural)]
pub enum Target {
    /// Wind River VxWorks
    VxWorks,
    /// Green Hills Integrity
    Integrity,
}

/// A structured memory command, as submitted by the application and as it
/// appears (in textual form) on the wire.
#[derive(Debug, Clone, Copy, PartialEq, Eq, Structural)]
pub enum Command {
    Read { addr: u32, nbytes: u32 },
    Write { addr: u32, data: u32 },
}

/// A decoded observation delivered to the application. A write command
/// yields one `Write` event; a read command yields one `Read` event per
/// decoded 32-bit word.
#[derive(Debug, Clone, Copy, PartialEq, Eq, Structural)]
pub enum Event {
    Read { addr: u32, data: u32 },
    Write { addr: u32, data: u32 },
}

/// The fatal session errors the driver distinguishes. Malformed hex-dump
/// framing is not here: it only abandons the pending response.
#[derive(Debug, Clone, Copy, PartialEq, Eq, Structural)]
pub enum DapError {
    /// A serial read or write failed.
    Transport,
    /// An internal queue ended unexpectedly.
    ChannelClosed,
    /// A framed hex-dump line held a token that is not a hex byte; the
    /// driver is desynchronized from the target.
    InvalidHex,
}

} // verus!
