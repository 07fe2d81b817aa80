// Line assembly and the low-level parser step.

use uart_dap::parser::{process_line, ParserState};
use uart_dap::{DapError, Event, LineBuffer};

#[test]
fn buffer_drains_whole_lines_and_keeps_the_tail() {
    let mut buf = LineBuffer::new();
    let lines = buf.push_bytes(b"one\ntwo\r\nthree");
    assert_eq!(lines, vec![b"one".to_vec(), b"two".to_vec()]);
    // "three" stays buffered until its newline arrives.
    let lines = buf.push_bytes(b" four\n");
    assert_eq!(lines, vec![b"three four".to_vec()]);
    let lines = buf.push_bytes(b"");
    assert!(lines.is_empty());
}

#[test]
fn buffer_skips_blank_lines() {
    let mut buf = LineBuffer::new();
    let lines = buf.push_bytes(b"\n   \n\r\nx\n");
    assert_eq!(lines, vec![b"x".to_vec()]);
}

#[test]
fn buffer_trims_surrounding_whitespace() {
    let mut buf = LineBuffer::new();
    let lines = buf.push_bytes(b"  DEBUG> mw kernel 0x1 0x2  \r\n");
    assert_eq!(lines, vec![b"DEBUG> mw kernel 0x1 0x2".to_vec()]);
}

#[test]
fn step_ignores_prompt_without_command() {
    let (state, events) = process_line(ParserState::WaitForCommand, b"DEBUG>").unwrap();
    assert_eq!(state, ParserState::WaitForCommand);
    assert!(events.is_empty());
}

#[test]
fn step_emits_one_write_event() {
    let (state, events) =
        process_line(ParserState::WaitForCommand, b"DEBUG> mw kernel 0x10 0xff").unwrap();
    assert_eq!(state, ParserState::WaitForCommand);
    assert_eq!(
        events,
        vec![Event::Write {
            addr: 0x10,
            data: 0xff
        }]
    );
}

#[test]
fn step_arms_response_state_for_reads() {
    let (state, events) =
        process_line(ParserState::WaitForCommand, b"DEBUG> mr kernel 0x10 40").unwrap();
    assert_eq!(
        state,
        ParserState::WaitForResponse {
            addr: 0x10,
            nbytes: 40
        }
    );
    assert!(events.is_empty());

    // 40 bytes outstanding: a full line advances by 16 bytes ...
    let (state, events) = process_line(
        state,
        b"10: 00 01 02 03  04 05 06 07  08 09 0a 0b  0c 0d 0e 0f |................|",
    )
    .unwrap();
    assert_eq!(
        state,
        ParserState::WaitForResponse {
            addr: 0x20,
            nbytes: 24
        }
    );
    assert_eq!(events.len(), 4);
    assert_eq!(
        events[0],
        Event::Read {
            addr: 0x10,
            data: 0x03020100
        }
    );
}

#[test]
fn step_discards_trailing_partial_word() {
    // Five hex bytes: one whole word, the fifth byte is dropped.
    let state = ParserState::WaitForResponse {
        addr: 0x100,
        nbytes: 16,
    };
    let (state, events) = process_line(state, b"100: 11 22 33 44 55 |.....|").unwrap();
    assert_eq!(state, ParserState::WaitForCommand);
    assert_eq!(
        events,
        vec![Event::Read {
            addr: 0x100,
            data: 0x44332211
        }]
    );
}

#[test]
fn step_bad_hex_is_invalid_hex_error() {
    let state = ParserState::WaitForResponse {
        addr: 0x100,
        nbytes: 16,
    };
    assert_eq!(
        process_line(state, b"100: 123 |...|").unwrap_err(),
        DapError::InvalidHex
    );
    assert_eq!(
        process_line(state, b"100: gg |...|").unwrap_err(),
        DapError::InvalidHex
    );
}
