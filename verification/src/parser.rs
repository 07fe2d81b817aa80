//! The response parser: a two-state machine over the unified inbound line
//! stream.
//!
//! In `WaitForCommand` it recognizes prompt-prefixed command echoes, emits a
//! write event per write echo, and arms itself for the hex-dump response of
//! a read echo. In `WaitForResponse` it extracts the hex bytes of one dump
//! line, decodes them into little-endian 32-bit words, and emits one read
//! event per word at consecutive addresses.

use crate::numtext::parse_hex_byte;
use crate::numtext::spec_hex_byte;
use crate::text::copy_range;
use crate::text::find_pair_within;
use crate::text::first_match;
use crate::text::spec_tokenize;
use crate::text::tokenize;
use crate::types::Command;
use crate::types::DapError;
use crate::types::Event;
use crate::wire::command_from_byte_tokens;
use crate::wire::prompt;
use crate::wire::spec_from_token_bytes;
use crate::wire::token_is_prompt;
use vstd::arithmetic::div_mod::lemma_add_mod_noop;
use vstd::arithmetic::div_mod::lemma_fundamental_div_mod;
use vstd::arithmetic::div_mod::lemma_fundamental_div_mod_converse;
use vstd::arithmetic::div_mod::lemma_mod_bound;
use vstd::arithmetic::div_mod::lemma_small_mod;
use vstd::prelude::*;
use vstd::slice::slice_index_get;

verus! {

/// Parser state. At most one read command is in flight: a read echo arms
/// `WaitForResponse` with the address and byte count still expected, and
/// each dump line consumes up to [`crate::MAX_BYTES_PER_LINE`] of them.
#[derive(Debug, Clone, Copy, PartialEq, Eq, Structural)]
pub enum ParserState {
    WaitForCommand,
    WaitForResponse { addr: u32, nbytes: u32 },
}

/// `a + d` in 32-bit address space, wrapping around.
pub open spec fn wrap_add(a: u32, d: int) -> u32
    recommends
        0 <= d,
{
    ((a + d) % 0x1_0000_0000) as u32
}

/// The little-endian 32-bit word whose bytes sit at `b[i .. i + 4]`.
pub open spec fn word_at(b: Seq<u8>, i: int) -> u32
    recommends
        0 <= i,
        i + 4 <= b.len(),
{
    (b[i] + b[i + 1] * 0x100 + b[i + 2] * 0x10000 + b[i + 3] * 0x1000000) as u32
}

/// All complete little-endian words of a byte run; a trailing partial group
/// is discarded.
pub open spec fn words_of(b: Seq<u8>) -> Seq<u32> {
    Seq::new(b.len() / 4, |k: int| word_at(b, 4 * k))
}

/// The read events for `words`, at consecutive word addresses from `addr`.
pub open spec fn read_events(addr: u32, words: Seq<u32>) -> Seq<Event> {
    Seq::new(words.len(), |k: int| Event::Read { addr: wrap_add(addr, 4 * k), data: words[k] })
}

/// The hex-byte payload of a dump line: the segment between the first `": "`
/// and the first `" |"`, when both delimiters frame it.
pub open spec fn dump_payload(line: Seq<u8>) -> Option<Seq<u8>> {
    match first_match(line, seq![0x20u8, 0x7cu8]) {
        None => None,
        Some(p) => {
            let prefix = line.take(p);
            match first_match(prefix, seq![0x3au8, 0x20u8]) {
                None => None,
                Some(c) => Some(prefix.skip(c + 2)),
            }
        },
    }
}

/// Whether every token is a one- or two-digit hex byte.
pub open spec fn hex_tokens_valid(toks: Seq<Seq<u8>>) -> bool {
    forall|i: int| 0 <= i < toks.len() ==> spec_hex_byte(#[trigger] toks[i]) is Some
}

/// The byte values of valid hex tokens.
pub open spec fn hex_token_bytes(toks: Seq<Seq<u8>>) -> Seq<u8> {
    Seq::new(toks.len(), |i: int| spec_hex_byte(toks[i]).unwrap())
}

/// One step of the parser in `WaitForCommand`: a line whose first token is
/// the prompt and whose rest is a write command emits that write's event; a
/// read command arms the response state; everything else is ignored.
pub open spec fn spec_step_command(line: Seq<u8>) -> (ParserState, Seq<Event>) {
    let toks = spec_tokenize(line);
    if toks.len() >= 1 && toks[0] == prompt() {
        match spec_from_token_bytes(toks.skip(1)) {
            Some(Command::Write { addr, data }) => (
                ParserState::WaitForCommand,
                seq![Event::Write { addr, data }],
            ),
            Some(Command::Read { addr, nbytes }) => (
                ParserState::WaitForResponse { addr, nbytes },
                Seq::empty(),
            ),
            None => (ParserState::WaitForCommand, Seq::empty()),
        }
    } else {
        (ParserState::WaitForCommand, Seq::empty())
    }
}

/// One step of the parser in `WaitForResponse`. A line without the dump
/// delimiters abandons the response. A framed line must tokenize into hex
/// bytes — anything else is the fatal desynchronization error — and emits
/// its words; more than a full line of outstanding bytes keeps the state
/// armed for the next dump line, sixteen bytes further.
pub open spec fn spec_step_response(addr: u32, nbytes: u32, line: Seq<u8>) -> Option<
    (ParserState, Seq<Event>),
> {
    match dump_payload(line) {
        None => Some((ParserState::WaitForCommand, Seq::empty())),
        Some(payload) => {
            let toks = spec_tokenize(payload);
            if hex_tokens_valid(toks) {
                let next = if nbytes > crate::MAX_BYTES_PER_LINE {
                    ParserState::WaitForResponse {
                        addr: wrap_add(addr, crate::MAX_BYTES_PER_LINE as int),
                        nbytes: (nbytes - crate::MAX_BYTES_PER_LINE) as u32,
                    }
                } else {
                    ParserState::WaitForCommand
                };
                Some((next, read_events(addr, words_of(hex_token_bytes(toks)))))
            } else {
                None
            }
        },
    }
}

/// One parser step on one trimmed line; the fatal hex error is the only
/// failure.
pub open spec fn spec_step(state: ParserState, line: Seq<u8>) -> Option<(ParserState, Seq<Event>)> {
    match state {
        ParserState::WaitForCommand => Some(spec_step_command(line)),
        ParserState::WaitForResponse { addr, nbytes } => spec_step_response(addr, nbytes, line),
    }
}

/// Run the parser over whole lines in order. `None` means some line hit the
/// fatal hex error; events of the lines before it were already emitted then.
pub open spec fn spec_run(state: ParserState, lines: Seq<Seq<u8>>) -> Option<
    (ParserState, Seq<Event>),
>
    decreases lines.len(),
{
    if lines.len() == 0 {
        Some((state, Seq::empty()))
    } else {
        match spec_step(state, lines[0]) {
            None => None,
            Some(first) => match spec_run(first.0, lines.skip(1)) {
                None => None,
                Some(rest) => Some((rest.0, first.1 + rest.1)),
            },
        }
    }
}

/// Feed one line to the parser.
///
/// Returns the successor state and the decoded events, in emission order,
/// or the fatal [`DapError::InvalidHex`] exactly when a framed dump line
/// holds a token that is not a hex byte.
pub fn process_line(state: ParserState, line: &[u8]) -> (r: Result<
    (ParserState, Vec<Event>),
    DapError,
>)
    ensures
        match spec_step(state, line@) {
            Some(s) => r matches Ok(p) && p.0 == s.0 && p.1@ == s.1,
            None => r matches Err(e) && e == DapError::InvalidHex,
        },
{
    match state {
        ParserState::WaitForCommand => {
            let toks = tokenize(line);
            if toks.len() >= 1 && token_is_prompt(slice_index_get(toks.as_slice(), 0).as_slice()) {
                proof {
                    assert(toks.deep_view()[0] == toks@[0]@);
                }
                match command_from_byte_tokens(toks.as_slice(), 1) {
                    Some(Command::Write { addr, data }) => {
                        let mut evs: Vec<Event> = Vec::new();
                        evs.push(Event::Write { addr, data });
                        proof {
                            assert(evs@ =~= seq![Event::Write { addr, data }]);
                        }
                        Ok((ParserState::WaitForCommand, evs))
                    },
                    Some(Command::Read { addr, nbytes }) => Ok(
                        (ParserState::WaitForResponse { addr, nbytes }, Vec::new()),
                    ),
                    None => Ok((ParserState::WaitForCommand, Vec::new())),
                }
            } else {
                proof {
                    if toks.deep_view().len() >= 1 {
                        assert(toks.deep_view()[0] == toks@[0]@);
                    }
                }
                Ok((ParserState::WaitForCommand, Vec::new()))
            }
        },
        ParserState::WaitForResponse { addr, nbytes } => {
            let len = line.len();
            proof {
                assert(line@.subrange(0, len as int) =~= line@);
            }
            let pipe = match find_pair_within(line, 0, len, 0x20, 0x7c) {
                Some(p) => p,
                None => {
                    return Ok((ParserState::WaitForCommand, Vec::new()));
                },
            };
            let ghost prefix = line@.take(pipe as int);
            proof {
                assert(line@.subrange(0, pipe as int) =~= prefix);
            }
            let colon = match find_pair_within(line, 0, pipe, 0x3a, 0x20) {
                Some(c) => c,
                None => {
                    return Ok((ParserState::WaitForCommand, Vec::new()));
                },
            };
            let payload = copy_range(line, colon + 2, pipe);
            proof {
                assert(payload@ =~= prefix.skip(colon + 2));
                assert(dump_payload(line@) == Some(payload@));
            }
            let toks = tokenize(payload.as_slice());
            let ghost stoks = spec_tokenize(payload@);
            let mut bytes: Vec<u8> = Vec::new();
            let ntoks = toks.len();
            let mut i: usize = 0;
            while i < ntoks
                invariant
                    i <= ntoks,
                    ntoks == toks@.len(),
                    stoks == toks.deep_view(),
                    stoks == spec_tokenize(payload@),
                    dump_payload(line@) == Some(payload@),
                    state == (ParserState::WaitForResponse { addr, nbytes }),
                    forall|j: int| 0 <= j < i ==> spec_hex_byte(#[trigger] stoks[j]) is Some,
                    bytes@ =~= hex_token_bytes(stoks.take(i as int)),
                decreases ntoks - i,
            {
                proof {
                    assert(stoks[i as int] == toks@[i as int]@);
                }
                match parse_hex_byte(slice_index_get(toks.as_slice(), i).as_slice()) {
                    Some(b) => {
                        bytes.push(b);
                        proof {
                            assert(bytes@ =~= hex_token_bytes(stoks.take(i + 1)));
                        }
                    },
                    None => {
                        proof {
                            assert(spec_hex_byte(stoks[i as int]) is None);
                            assert(!hex_tokens_valid(stoks));
                            assert(dump_payload(line@) == Some(payload@));
                            assert(spec_step(state, line@) is None);
                        }
                        return Err(DapError::InvalidHex);
                    },
                }
                i = i + 1;
            }
            proof {
                assert(stoks.take(ntoks as int) =~= stoks);
                assert(hex_tokens_valid(stoks));
            }
            let events = decode_words(addr, &bytes);
            if nbytes > crate::MAX_BYTES_PER_LINE {
                Ok((
                    ParserState::WaitForResponse {
                        addr: wrapping_add_u32(addr, crate::MAX_BYTES_PER_LINE),
                        nbytes: nbytes - crate::MAX_BYTES_PER_LINE,
                    },
                    events,
                ))
            } else {
                Ok((ParserState::WaitForCommand, events))
            }
        },
    }
}

/// `a + d` wrapping around the 32-bit address space.
fn wrapping_add_u32(a: u32, d: u32) -> (r: u32)
    ensures
        r == wrap_add(a, d as int),
{
    let r = a.wrapping_add(d);
    proof {
        if a + d > u32::MAX {
            assert((a + d - 0x1_0000_0000) % 0x1_0000_0000 == (a + d) % 0x1_0000_0000) by {
                lemma_add_mod_noop(a + d - 0x1_0000_0000, 0x1_0000_0000, 0x1_0000_0000);
                lemma_small_mod((a + d - 0x1_0000_0000) as nat, 0x1_0000_0000);
                lemma_small_mod(0, 0x1_0000_0000);
            };
            lemma_small_mod((a + d - 0x1_0000_0000) as nat, 0x1_0000_0000);
        } else {
            lemma_small_mod((a + d) as nat, 0x1_0000_0000);
        }
    }
    r
}

/// Decode the complete words of `bytes` into read events at consecutive
/// word addresses from `addr`.
fn decode_words(addr: u32, bytes: &Vec<u8>) -> (events: Vec<Event>)
    ensures
        events@ == read_events(addr, words_of(bytes@)),
{
    let nwords = bytes.len() / 4;
    let mut events: Vec<Event> = Vec::new();
    let mut cur = addr;
    let mut k: usize = 0;
    proof {
        lemma_small_mod(addr as nat, 0x1_0000_0000);
        vstd::arithmetic::div_mod::lemma_fundamental_div_mod(bytes@.len() as int, 4);
        vstd::arithmetic::div_mod::lemma_mod_bound(bytes@.len() as int, 4);
    }
    while k < nwords
        invariant
            k <= nwords,
            nwords == bytes@.len() / 4,
            4 * nwords <= bytes@.len(),
            bytes@.len() <= usize::MAX,
            cur == wrap_add(addr, 4 * k),
            events@ =~= read_events(addr, words_of(bytes@)).take(k as int),
        decreases nwords - k,
    {
        let b0 = *slice_index_get(bytes.as_slice(), 4 * k) as u32;
        let b1 = *slice_index_get(bytes.as_slice(), 4 * k + 1) as u32;
        let b2 = *slice_index_get(bytes.as_slice(), 4 * k + 2) as u32;
        let b3 = *slice_index_get(bytes.as_slice(), 4 * k + 3) as u32;
        let word = b0 + b1 * 0x100 + b2 * 0x10000 + b3 * 0x1000000;
        events.push(Event::Read { addr: cur, data: word });
        proof {
            assert(word == word_at(bytes@, 4 * k));
            assert(word_at(bytes@, 4 * k) == words_of(bytes@)[k as int]);
            assert(events@ =~= read_events(addr, words_of(bytes@)).take(k + 1));
            lemma_add_mod_noop(addr + 4 * k, 4, 0x1_0000_0000);
            lemma_small_mod(4, 0x1_0000_0000);
        }
        cur = wrapping_add_u32(cur, 4);
        proof {
            assert(cur == wrap_add(addr, 4 * (k + 1))) by {
                assert(wrap_add(wrap_add(addr, 4 * k), 4) == ((addr + 4 * k) % 0x1_0000_0000 + 4)
                    % 0x1_0000_0000);
                lemma_add_mod_noop(addr + 4 * k, 4, 0x1_0000_0000);
                lemma_small_mod(4, 0x1_0000_0000);
                lemma_small_mod(((addr + 4 * k) % 0x1_0000_0000) as nat, 0x1_0000_0000);
            };
        }
        k = k + 1;
    }
    proof {
        assert(read_events(addr, words_of(bytes@)).take(nwords as int) =~= read_events(
            addr,
            words_of(bytes@),
        ));
    }
    events
}

/// Little-endian decoding: each emitted word is its four wire bytes with
/// the first byte in the lowest lane.
pub proof fn lemma_word_little_endian(b: Seq<u8>, k: int)
    requires
        0 <= k,
        4 * k + 4 <= b.len(),
    ensures
        words_of(b)[k] == (b[4 * k] as u32) | ((b[4 * k + 1] as u32) << 8) | ((b[4 * k + 2]
            as u32) << 16) | ((b[4 * k + 3] as u32) << 24),
{
    let x0 = b[4 * k] as u32;
    let x1 = b[4 * k + 1] as u32;
    let x2 = b[4 * k + 2] as u32;
    let x3 = b[4 * k + 3] as u32;
    assert(x0 + x1 * 0x100 + x2 * 0x10000 + x3 * 0x1000000 == (x0 | (x1 << 8) | (x2 << 16) | (x3
        << 24))) by (bit_vector)
        requires
            x0 < 0x100 && x1 < 0x100 && x2 < 0x100 && x3 < 0x100,
    ;
}

/// Progress of the response state: one line either finishes or abandons the
/// response, or strictly shrinks the outstanding byte count. The parser can
/// never sit in `WaitForResponse` across a whole request/response cycle.
pub proof fn lemma_response_progress(addr: u32, nbytes: u32, line: Seq<u8>)
    ensures
        match spec_step(ParserState::WaitForResponse { addr, nbytes }, line) {
            Some(s) => s.0 == ParserState::WaitForCommand || (s.0 matches
                ParserState::WaitForResponse { addr: _, nbytes: n2 } && n2 < nbytes),
            None => true,
        },
{
}

/// In `WaitForCommand`, a line yields at most one event, and only a write
/// echo yields one: its single write event, with the parser still waiting
/// for commands. Together with the splitter duplicating each command once,
/// every write command produces at most one write event.
pub proof fn lemma_command_line_events(line: Seq<u8>)
    ensures
        spec_step_command(line).1.len() <= 1,
        spec_step_command(line).1.len() == 1 ==> spec_step_command(line).0
            == ParserState::WaitForCommand && spec_step_command(line).1[0] matches Event::Write {
            ..
        },
{
}

/// The byte values a dump line carries, when it is framed and all its
/// tokens are hex bytes.
pub open spec fn dump_line_bytes(line: Seq<u8>) -> Option<Seq<u8>> {
    match dump_payload(line) {
        None => None,
        Some(payload) => {
            let toks = spec_tokenize(payload);
            if hex_tokens_valid(toks) {
                Some(hex_token_bytes(toks))
            } else {
                None
            }
        },
    }
}

/// Words of a concatenation split at a word boundary.
proof fn lemma_words_concat(a: Seq<u8>, b: Seq<u8>)
    requires
        a.len() % 4 == 0,
    ensures
        words_of(a + b) =~= words_of(a) + words_of(b),
{
    let qa = a.len() as int / 4;
    lemma_fundamental_div_mod(a.len() as int, 4);
    lemma_fundamental_div_mod(b.len() as int, 4);
    lemma_mod_bound(b.len() as int, 4);
    let qb = b.len() as int / 4;
    let rb = b.len() as int % 4;
    assert((qa + qb) * 4 + rb == a.len() + b.len()) by (nonlinear_arith)
        requires a.len() == 4 * qa && b.len() == 4 * qb + rb,
    ;
    lemma_fundamental_div_mod_converse((a + b).len() as int, 4, qa + qb, rb);
    assert forall|k: int| 0 <= k < qa + qb implies words_of(a + b)[k] == (words_of(a) + words_of(
        b,
    ))[k] by {
        if k < qa {
            assert(4 * k + 3 < a.len());
        } else {
            let j = k - qa;
            assert((a + b)[4 * k] == b[4 * j]);
            assert((a + b)[4 * k + 1] == b[4 * j + 1]);
            assert((a + b)[4 * k + 2] == b[4 * j + 2]);
            assert((a + b)[4 * k + 3] == b[4 * j + 3]);
        }
    }
}

/// Read events of concatenated word runs split into two bursts, the second
/// starting one word past the first's last address.
proof fn lemma_read_events_concat(addr: u32, w1: Seq<u32>, w2: Seq<u32>)
    ensures
        read_events(addr, w1 + w2) =~= read_events(addr, w1) + read_events(
            wrap_add(addr, 4 * w1.len() as int),
            w2,
        ),
{
    let m = 0x1_0000_0000int;
    assert forall|k: int| 0 <= k < w1.len() + w2.len() implies read_events(addr, w1 + w2)[k]
        == (read_events(addr, w1) + read_events(wrap_add(addr, 4 * w1.len() as int), w2))[k] by {
        if k >= w1.len() {
            let l = w1.len() as int;
            let x = addr + 4 * l;
            let y = 4 * k - 4 * l;
            lemma_mod_bound(x, m);
            lemma_small_mod((x % m) as nat, m as nat);
            lemma_add_mod_noop(x % m, y, m);
            lemma_add_mod_noop(x, y, m);
            lemma_mod_bound(y, m);
            if y < m {
                lemma_small_mod(y as nat, m as nat);
            } else {
                lemma_add_mod_noop(x % m, y % m, m);
            }
            assert(wrap_add(wrap_add(addr, 4 * l), 4 * (k - l)) == wrap_add(addr, 4 * k));
        }
    }
}

/// Completion of a read: from `WaitForResponse { addr, nbytes }`, a full set
/// of well-formed dump lines — one per `spec_div_ceil(nbytes, 16)`, each
/// carrying sixteen byte values except the last, which carries the rest —
/// drives the parser back to `WaitForCommand` and emits exactly one read
/// event per word of the concatenated payload, at consecutive addresses
/// starting at `addr`: `nbytes / 4` events in all.
pub proof fn lemma_read_response_completes(
    addr: u32,
    nbytes: u32,
    lines: Seq<Seq<u8>>,
    payloads: Seq<Seq<u8>>,
)
    requires
        nbytes >= 1,
        nbytes % 4 == 0,
        addr + nbytes <= 0x1_0000_0000,
        lines.len() == crate::numtext::spec_div_ceil(nbytes as nat, 16),
        payloads.len() == lines.len(),
        forall|i: int| 0 <= i < lines.len() ==> dump_line_bytes(#[trigger] lines[i]) == Some(
            payloads[i],
        ),
        forall|i: int| 0 <= i < payloads.len() ==> #[trigger] payloads[i].len() == (if i
            < payloads.len() - 1 {
            16int
        } else {
            nbytes - 16 * i
        }),
    ensures
        ({
            let r = spec_run(ParserState::WaitForResponse { addr, nbytes }, lines);
            &&& r is Some
            &&& r.unwrap().0 == ParserState::WaitForCommand
            &&& r.unwrap().1 == read_events(addr, words_of(payloads.flatten()))
            &&& words_of(payloads.flatten()).len() == nbytes / 4
        }),
    decreases lines.len(),
{
    let state = ParserState::WaitForResponse { addr, nbytes };
    let q = nbytes as int / 16;
    let r16 = nbytes as int % 16;
    lemma_fundamental_div_mod(nbytes as int, 16);
    lemma_mod_bound(nbytes as int, 16);
    lemma_fundamental_div_mod(nbytes as int, 4);
    lemma_mod_bound(nbytes as int, 4);
    assert(lines.len() >= 1);
    assert(dump_line_bytes(lines[0]) == Some(payloads[0]));
    let step0 = spec_step(state, lines[0]);
    assert(step0 is Some);
    let ev0 = read_events(addr, words_of(payloads[0]));
    if lines.len() == 1 {
        assert(nbytes <= 16);
        assert(payloads[0].len() == nbytes);
        assert(step0.unwrap().0 == ParserState::WaitForCommand);
        assert(step0.unwrap().1 == ev0);
        assert(spec_run(ParserState::WaitForCommand, lines.skip(1)) == Some((
            ParserState::WaitForCommand,
            Seq::<Event>::empty(),
        )));
        assert(payloads.flatten() =~= payloads[0] + payloads.skip(1).flatten());
        assert(payloads.skip(1).len() == 0);
        assert(payloads.skip(1).flatten() =~= Seq::<u8>::empty());
        assert(payloads.flatten() =~= payloads[0]);
        assert(ev0 + Seq::<Event>::empty() =~= ev0);
    } else {
        assert(nbytes > 16);
        assert(payloads[0].len() == 16);
        let addr2 = wrap_add(addr, 16);
        lemma_small_mod((addr + 16) as nat, 0x1_0000_0000);
        assert(addr2 == addr + 16);
        let nbytes2 = (nbytes - 16) as u32;
        assert(step0.unwrap().0 == ParserState::WaitForResponse { addr: addr2, nbytes: nbytes2 });
        // the remaining transfer still splits into whole words and lines
        assert((nbytes as int / 4 - 4) * 4 + 0 == nbytes2) by (nonlinear_arith)
            requires nbytes == 4 * (nbytes as int / 4) && nbytes2 == nbytes - 16,
        ;
        lemma_fundamental_div_mod_converse(nbytes2 as int, 4, nbytes as int / 4 - 4, 0);
        assert((q - 1) * 16 + r16 == nbytes2) by (nonlinear_arith)
            requires nbytes == 16 * q + r16 && nbytes2 == nbytes - 16,
        ;
        assert(q >= 1);
        lemma_fundamental_div_mod_converse(nbytes2 as int, 16, q - 1, r16);
        assert(lines.skip(1).len() == crate::numtext::spec_div_ceil(nbytes2 as nat, 16));
        assert(forall|i: int| 0 <= i < lines.skip(1).len() ==> dump_line_bytes(
            #[trigger] lines.skip(1)[i],
        ) == Some(payloads.skip(1)[i]));
        assert forall|i: int| 0 <= i < payloads.skip(1).len() implies #[trigger] payloads.skip(
            1,
        )[i].len() == (if i < payloads.skip(1).len() - 1 {
            16int
        } else {
            nbytes2 - 16 * i
        }) by {
            assert(payloads.skip(1)[i] == payloads[i + 1]);
        }
        lemma_read_response_completes(addr2, nbytes2, lines.skip(1), payloads.skip(1));
        let rest = spec_run(step0.unwrap().0, lines.skip(1));
        assert(rest is Some);
        let ev_rest = rest.unwrap().1;
        assert(payloads.flatten() =~= payloads[0] + payloads.skip(1).flatten());
        lemma_words_concat(payloads[0], payloads.skip(1).flatten());
        assert(words_of(payloads[0]).len() == 4);
        lemma_read_events_concat(addr, words_of(payloads[0]), words_of(payloads.skip(1).flatten()));
        assert(ev0 + ev_rest =~= read_events(addr, words_of(payloads.flatten())));
    }
}

} // verus!
