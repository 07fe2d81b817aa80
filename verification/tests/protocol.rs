// End-to-end protocol scenarios, driven through the pure session engine.

use uart_dap::{Command, DapError, Echo, Event, LineEnding, ParserState, Session, Target};

fn write_cmd() -> Command {
    Command::Write {
        addr: 0x600df00d,
        data: 0xa5a5a5a5,
    }
}

#[test]
fn performs_write_command() {
    // The driver must put exactly this line on the wire.
    let frame = uart_dap::frame_command(&write_cmd(), LineEnding::Lf);
    assert_eq!(frame, b"mw kernel 0x600df00d 0xa5a5a5a5\n".to_vec());

    // The target prints its prompt (no newline yet) ...
    let mut session = Session::new(LineEnding::Lf);
    let events = session.feed_bytes(b"DEBUG> ").unwrap();
    assert!(events.is_empty());

    // ... and the local echo completes the line: exactly one write event.
    let events = session.feed_echo(&write_cmd()).unwrap();
    assert_eq!(
        events,
        vec![Event::Write {
            addr: 0x600df00d,
            data: 0xa5a5a5a5
        }]
    );
    assert_eq!(session.state, ParserState::WaitForCommand);
}

#[test]
fn performs_read_command() {
    let command = Command::Read {
        addr: 0x600df00d,
        nbytes: 20,
    };
    let frame = uart_dap::frame_command(&command, LineEnding::Lf);
    assert_eq!(frame, b"mr kernel 0x600df00d 20\n".to_vec());

    let mut session = Session::new(LineEnding::Lf);
    assert!(session.feed_bytes(b"DEBUG> ").unwrap().is_empty());
    // The echoed read arms the parser without emitting anything.
    assert!(session.feed_echo(&command).unwrap().is_empty());
    assert_eq!(
        session.state,
        ParserState::WaitForResponse {
            addr: 0x600df00d,
            nbytes: 20
        }
    );

    let events = session
        .feed_bytes(b"600df00d: 5a 5a 5a 5a  01 02 03 04  05 06 07 08  09 0a 0b 0c |-------|\n")
        .unwrap();
    assert_eq!(
        events,
        vec![
            Event::Read {
                addr: 0x600df00d,
                data: 0x5a5a5a5a
            },
            Event::Read {
                addr: 0x600df011,
                data: 0x04030201
            },
            Event::Read {
                addr: 0x600df015,
                data: 0x08070605
            },
            Event::Read {
                addr: 0x600df019,
                data: 0x0c0b0a09
            },
        ]
    );

    let events = session
        .feed_bytes(b"600df01d: 0d 0e 0f 10                                        |-------|\n")
        .unwrap();
    assert_eq!(
        events,
        vec![Event::Read {
            addr: 0x600df01d,
            data: 0x100f0e0d
        }]
    );
    assert_eq!(session.state, ParserState::WaitForCommand);
}

#[test]
fn read_default_length_single_line() {
    let command = Command::Read {
        addr: 0xC0000010,
        nbytes: 16,
    };
    let frame = uart_dap::frame_command(&command, LineEnding::Lf);
    assert_eq!(frame, b"mr kernel 0xc0000010 16\n".to_vec());

    let mut session = Session::new(LineEnding::Lf);
    assert!(session.feed_bytes(b"DEBUG> ").unwrap().is_empty());
    assert!(session.feed_echo(&command).unwrap().is_empty());
    let events = session
        .feed_bytes(b"c0000010: 03 0a 30 18  00 00 00 00  00 00 00 80  00 07 00 00 |..0.............|\n")
        .unwrap();
    assert_eq!(
        events,
        vec![
            Event::Read {
                addr: 0xC0000010,
                data: 0x18300a03
            },
            Event::Read {
                addr: 0xC0000014,
                data: 0
            },
            Event::Read {
                addr: 0xC0000018,
                data: 0x80000000
            },
            Event::Read {
                addr: 0xC000001C,
                data: 0x0700
            },
        ]
    );
    assert_eq!(session.state, ParserState::WaitForCommand);
}

#[test]
fn malformed_dump_aborts_response_cleanly() {
    let mut session = Session::new(LineEnding::Lf);
    session.state = ParserState::WaitForResponse {
        addr: 0x1000,
        nbytes: 16,
    };
    // No ": " / " |" framing: the pending response is dropped, silently.
    let events = session
        .feed_bytes(b"DEBUG> garbage without delimiters\n")
        .unwrap();
    assert!(events.is_empty());
    assert_eq!(session.state, ParserState::WaitForCommand);

    // A subsequent valid write echo is handled normally.
    let events = session
        .feed_bytes(b"DEBUG> mw kernel 0x10 0x20\n")
        .unwrap();
    assert_eq!(
        events,
        vec![Event::Write {
            addr: 0x10,
            data: 0x20
        }]
    );
}

#[test]
fn unrelated_chatter_is_ignored() {
    let mut session = Session::new(LineEnding::Lf);
    let events = session
        .feed_bytes(b"Booting VxWorks...\n[timestamp] ready\n")
        .unwrap();
    assert!(events.is_empty());
    assert_eq!(session.state, ParserState::WaitForCommand);
}

#[test]
fn bad_hex_token_is_fatal() {
    let mut session = Session::new(LineEnding::Lf);
    session.state = ParserState::WaitForResponse {
        addr: 0x1000,
        nbytes: 16,
    };
    // Properly framed, but the payload is not hex: desynchronized, fatal.
    let err = session.feed_bytes(b"1000: zz 11 |..|\n").unwrap_err();
    assert_eq!(err, DapError::InvalidHex);
}

#[test]
fn crlf_response_lines_are_tolerated() {
    let mut session = Session::new(LineEnding::CrLf);
    assert!(session.feed_bytes(b"DEBUG> ").unwrap().is_empty());
    let events = session
        .feed_echo(&Command::Write {
            addr: 0x10,
            data: 0x20,
        })
        .unwrap();
    assert_eq!(
        events,
        vec![Event::Write {
            addr: 0x10,
            data: 0x20
        }]
    );
    // Inbound lines ending in \r\n parse the same as \n.
    session.state = ParserState::WaitForResponse {
        addr: 0x10,
        nbytes: 4,
    };
    let events = session.feed_bytes(b"10: 01 02 03 04 |....|\r\n").unwrap();
    assert_eq!(
        events,
        vec![Event::Read {
            addr: 0x10,
            data: 0x04030201
        }]
    );
}

#[test]
fn partial_lines_are_retained_across_reads() {
    let mut session = Session::new(LineEnding::Lf);
    session.state = ParserState::WaitForResponse {
        addr: 0,
        nbytes: 4,
    };
    // The dump line arrives split into three reads.
    assert!(session.feed_bytes(b"0: 0a ").unwrap().is_empty());
    assert!(session.feed_bytes(b"0b 0c 0d |.").unwrap().is_empty());
    let events = session.feed_bytes(b"...|\n").unwrap();
    assert_eq!(
        events,
        vec![Event::Read {
            addr: 0,
            data: 0x0d0c0b0a
        }]
    );
}

#[test]
fn remote_echo_line_drives_the_parser() {
    // Under Echo::Remote, the target echoes the command itself; a timestamped
    // prompt line is ignored, a clean prompt line is parsed.
    assert!(!Echo::Remote.is_local());
    assert!(Echo::Local.is_local());
    let mut session = Session::new(LineEnding::Lf);
    let events = session
        .feed_bytes(b"[20220204T044316] DEBUG> mr kernel 0xC0000010\n")
        .unwrap();
    // A leading timestamp means the first token is not the prompt: ignored.
    assert!(events.is_empty());
    assert_eq!(session.state, ParserState::WaitForCommand);

    let events = session.feed_bytes(b"DEBUG> mr kernel 0xC0000010\n").unwrap();
    assert!(events.is_empty());
    assert_eq!(
        session.state,
        ParserState::WaitForResponse {
            addr: 0xC0000010,
            nbytes: 16
        }
    );
}

#[test]
fn targets_share_the_command_syntax() {
    // Target identity is informational only.
    let _ = Target::VxWorks;
    let _ = Target::Integrity;
    assert_ne!(Target::VxWorks, Target::Integrity);
}
