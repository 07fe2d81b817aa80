// The command grammar: token parsing, integer literals, and formatting.

use uart_dap::{Command, LineEnding};

#[test]
fn from_tokens_read_with_length() {
    assert_eq!(
        Command::from_tokens(&["mr", "kernel", "0x600df00d", "20"]),
        Some(Command::Read {
            addr: 0x600df00d,
            nbytes: 20
        })
    );
}

#[test]
fn from_tokens_read_default_length() {
    assert_eq!(
        Command::from_tokens(&["mr", "kernel", "0xC0000010"]),
        Some(Command::Read {
            addr: 0xC0000010,
            nbytes: 16
        })
    );
}

#[test]
fn from_tokens_write() {
    assert_eq!(
        Command::from_tokens(&["mw", "kernel", "0x600df00d", "0xa5a5a5a5"]),
        Some(Command::Write {
            addr: 0x600df00d,
            data: 0xa5a5a5a5
        })
    );
}

#[test]
fn from_tokens_rejects_other_shapes() {
    assert_eq!(Command::from_tokens(&[]), None);
    assert_eq!(Command::from_tokens(&["mr"]), None);
    assert_eq!(Command::from_tokens(&["mr", "kernel"]), None);
    assert_eq!(Command::from_tokens(&["mw", "kernel", "0x10"]), None);
    assert_eq!(Command::from_tokens(&["md", "kernel", "0x10", "4"]), None);
    assert_eq!(Command::from_tokens(&["mr", "user", "0x10", "4"]), None);
    assert_eq!(
        Command::from_tokens(&["mr", "kernel", "0x10", "4", "extra"]),
        None
    );
    assert_eq!(Command::from_tokens(&["mr", "kernel", "wat"]), None);
}

#[test]
fn parse_based_int_bases() {
    assert_eq!(uart_dap::numtext::parse_based_int("42"), Some(42));
    assert_eq!(uart_dap::numtext::parse_based_int("0x2a"), Some(42));
    assert_eq!(uart_dap::numtext::parse_based_int("0X2A"), Some(42));
    assert_eq!(uart_dap::numtext::parse_based_int("0b101010"), Some(42));
    assert_eq!(uart_dap::numtext::parse_based_int("0B101010"), Some(42));
    assert_eq!(uart_dap::numtext::parse_based_int("0"), Some(0));
    assert_eq!(uart_dap::numtext::parse_based_int("0x0"), Some(0));
}

#[test]
fn parse_based_int_limits_and_rejects() {
    assert_eq!(
        uart_dap::numtext::parse_based_int("4294967295"),
        Some(u32::MAX)
    );
    assert_eq!(uart_dap::numtext::parse_based_int("4294967296"), None);
    assert_eq!(
        uart_dap::numtext::parse_based_int("0xffffffff"),
        Some(u32::MAX)
    );
    assert_eq!(uart_dap::numtext::parse_based_int("0x100000000"), None);
    assert_eq!(uart_dap::numtext::parse_based_int(""), None);
    assert_eq!(uart_dap::numtext::parse_based_int("0x"), None);
    assert_eq!(uart_dap::numtext::parse_based_int("0b"), None);
    assert_eq!(uart_dap::numtext::parse_based_int("0b2"), None);
    assert_eq!(uart_dap::numtext::parse_based_int("12a"), None);
    assert_eq!(uart_dap::numtext::parse_based_int("-1"), None);
    assert_eq!(uart_dap::numtext::parse_based_int(" 12"), None);
}

#[test]
fn formats_are_canonical() {
    let read = Command::Read {
        addr: 0xC0000010,
        nbytes: 16,
    };
    assert_eq!(read.to_wire_bytes(), b"mr kernel 0xc0000010 16".to_vec());
    let write = Command::Write { addr: 0, data: 0 };
    assert_eq!(write.to_wire_bytes(), b"mw kernel 0x0 0x0".to_vec());
    assert_eq!(
        uart_dap::frame_command(&write, LineEnding::CrLf),
        b"mw kernel 0x0 0x0\r\n".to_vec()
    );
    assert_eq!(LineEnding::Lf.to_bytes(), b"\n".to_vec());
    assert_eq!(LineEnding::CrLf.to_bytes(), b"\r\n".to_vec());
}

#[test]
fn format_then_parse_is_identity() {
    // The proved round trip, exercised on a concrete pair.
    let cases = [
        Command::Read {
            addr: 0xdeadbeef,
            nbytes: 64,
        },
        Command::Write {
            addr: 1,
            data: 0xffffffff,
        },
    ];
    for c in cases {
        let text = c.to_wire_bytes();
        let text = String::from_utf8(text).unwrap();
        let tokens: Vec<&str> = text.split_ascii_whitespace().collect();
        assert_eq!(Command::from_tokens(&tokens), Some(c));
    }
}

#[test]
fn div_ceil_counts_response_lines() {
    assert_eq!(uart_dap::numtext::div_ceil(0, 16), 0);
    assert_eq!(uart_dap::numtext::div_ceil(1, 16), 1);
    assert_eq!(uart_dap::numtext::div_ceil(16, 16), 1);
    assert_eq!(uart_dap::numtext::div_ceil(17, 16), 2);
    assert_eq!(uart_dap::numtext::div_ceil(20, 16), 2);
    assert_eq!(uart_dap::numtext::div_ceil(u32::MAX, 16), 0x10000000);
    assert_eq!(uart_dap::numtext::div_ceil(7, 1), 7);
}
