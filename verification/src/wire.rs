//! Wire text of commands.
//!
//! A command goes on the wire as exactly one line:
//!
//! - read:  `mr kernel 0x<addr-hex> <nbytes-decimal>`
//! - write: `mw kernel 0x<addr-hex> 0x<data-hex>`
//!
//! with lowercase, unpadded hexadecimal. The same grammar, prefixed by the
//! target's `DEBUG>` prompt, is what the response parser recognizes in the
//! inbound line stream, and what the front-end accepts from the user.

use crate::numtext::digit_char;
use crate::numtext::parse_based_bytes;
use crate::numtext::push_digits;
use crate::numtext::spec_based_u32;
use crate::numtext::spec_digits;
use crate::text::is_ws;
use crate::text::lemma_tokenize_token_prefix;
use crate::text::lemma_tokenize_ws_prefix;
use crate::text::spec_tokenize;
use crate::types::Command;
use crate::types::LineEnding;
use crate::types::line_ending_bytes;
use vstd::prelude::*;
use vstd::seq_lib::lemma_concat_associative;
use vstd::slice::slice_index_get;
use vstd::string::StringSliceAdditionalSpecFns;
use vstd::string::StrSliceExecFns;

verus! {

/// The read verb, `mr`.
pub open spec fn kw_mr() -> Seq<u8> {
    seq![0x6du8, 0x72u8]
}

/// The write verb, `mw`.
pub open spec fn kw_mw() -> Seq<u8> {
    seq![0x6du8, 0x77u8]
}

/// The address-space word both verbs take, `kernel`.
pub open spec fn kw_kernel() -> Seq<u8> {
    seq![0x6bu8, 0x65u8, 0x72u8, 0x6eu8, 0x65u8, 0x6cu8]
}

/// The debug shell's prompt, `DEBUG>`.
pub open spec fn prompt() -> Seq<u8> {
    seq![0x44u8, 0x45u8, 0x42u8, 0x55u8, 0x47u8, 0x3eu8]
}

/// The literal prefix `0x`.
pub open spec fn hex_prefix() -> Seq<u8> {
    seq![0x30u8, 0x78u8]
}

/// The whitespace-separated tokens of a command's canonical wire text.
pub open spec fn command_tokens(c: Command) -> Seq<Seq<u8>> {
    match c {
        Command::Read { addr, nbytes } => seq![
            kw_mr(),
            kw_kernel(),
            hex_prefix() + spec_digits(addr as nat, 16),
            spec_digits(nbytes as nat, 10),
        ],
        Command::Write { addr, data } => seq![
            kw_mw(),
            kw_kernel(),
            hex_prefix() + spec_digits(addr as nat, 16),
            hex_prefix() + spec_digits(data as nat, 16),
        ],
    }
}

/// Tokens joined by single spaces.
pub open spec fn join_tokens(ts: Seq<Seq<u8>>) -> Seq<u8>
    decreases ts.len(),
{
    if ts.len() == 0 {
        Seq::empty()
    } else if ts.len() == 1 {
        ts[0]
    } else {
        ts[0] + seq![0x20u8] + join_tokens(ts.skip(1))
    }
}

/// The canonical one-line wire text of a command, without line ending.
pub open spec fn spec_format_command(c: Command) -> Seq<u8> {
    join_tokens(command_tokens(c))
}

/// What a token sequence means as a command, if anything: the grammar the
/// debug shell accepts after its prompt. A read without a byte count
/// defaults to [`crate::READ_DEFAULT_NBYTES`].
pub open spec fn spec_from_token_bytes(toks: Seq<Seq<u8>>) -> Option<Command> {
    if toks.len() == 4 && toks[0] == kw_mr() && toks[1] == kw_kernel() {
        match (spec_based_u32(toks[2]), spec_based_u32(toks[3])) {
            (Some(addr), Some(nbytes)) => Some(Command::Read { addr, nbytes }),
            _ => None,
        }
    } else if toks.len() == 3 && toks[0] == kw_mr() && toks[1] == kw_kernel() {
        match spec_based_u32(toks[2]) {
            Some(addr) => Some(Command::Read { addr, nbytes: crate::READ_DEFAULT_NBYTES }),
            None => None,
        }
    } else if toks.len() == 4 && toks[0] == kw_mw() && toks[1] == kw_kernel() {
        match (spec_based_u32(toks[2]), spec_based_u32(toks[3])) {
            (Some(addr), Some(data)) => Some(Command::Write { addr, data }),
            _ => None,
        }
    } else {
        None
    }
}

/// Byte-wise equality of a token against a two-byte word.
fn token_is2(t: &[u8], a: u8, b: u8) -> (r: bool)
    ensures
        r == (t@ == seq![a, b]),
{
    if t.len() != 2 {
        return false;
    }
    let r = *slice_index_get(t, 0) == a && *slice_index_get(t, 1) == b;
    proof {
        if r {
            assert(t@ =~= seq![a, b]);
        }
    }
    r
}

/// Whether the token is the word `kernel`.
fn token_is_kernel(t: &[u8]) -> (r: bool)
    ensures
        r == (t@ == kw_kernel()),
{
    if t.len() != 6 {
        return false;
    }
    let r = *slice_index_get(t, 0) == 0x6b && *slice_index_get(t, 1) == 0x65
        && *slice_index_get(t, 2) == 0x72 && *slice_index_get(t, 3) == 0x6e
        && *slice_index_get(t, 4) == 0x65 && *slice_index_get(t, 5) == 0x6c;
    proof {
        if r {
            assert(t@ =~= kw_kernel());
        }
    }
    r
}

/// Whether the token is the prompt `DEBUG>`.
pub fn token_is_prompt(t: &[u8]) -> (r: bool)
    ensures
        r == (t@ == prompt()),
{
    if t.len() != 6 {
        return false;
    }
    let r = *slice_index_get(t, 0) == 0x44 && *slice_index_get(t, 1) == 0x45
        && *slice_index_get(t, 2) == 0x42 && *slice_index_get(t, 3) == 0x55
        && *slice_index_get(t, 4) == 0x47 && *slice_index_get(t, 5) == 0x3e;
    proof {
        if r {
            assert(t@ =~= prompt());
        }
    }
    r
}

/// [`Command::from_tokens`] on tokens that are already byte runs, starting
/// at token `from` (so a caller can skip a leading prompt token).
pub fn command_from_byte_tokens(toks: &[Vec<u8>], from: usize) -> (r: Option<Command>)
    requires
        from <= toks@.len(),
    ensures
        r == spec_from_token_bytes(toks.deep_view().skip(from as int)),
{
    let ghost ts = toks.deep_view().skip(from as int);
    proof {
        assert(forall|i: int| 0 <= i < ts.len() ==> ts[i] == toks@[from + i]@);
    }
    let n = toks.len() - from;
    if n == 4 {
        let t0 = slice_index_get(toks, from);
        let t1 = slice_index_get(toks, from + 1);
        if token_is2(t0.as_slice(), 0x6d, 0x72) && token_is_kernel(t1.as_slice()) {
            let addr = parse_based_bytes(slice_index_get(toks, from + 2).as_slice());
            let nbytes = parse_based_bytes(slice_index_get(toks, from + 3).as_slice());
            return match (addr, nbytes) {
                (Some(addr), Some(nbytes)) => Some(Command::Read { addr, nbytes }),
                _ => None,
            };
        }
        if token_is2(t0.as_slice(), 0x6d, 0x77) && token_is_kernel(t1.as_slice()) {
            let addr = parse_based_bytes(slice_index_get(toks, from + 2).as_slice());
            let data = parse_based_bytes(slice_index_get(toks, from + 3).as_slice());
            return match (addr, data) {
                (Some(addr), Some(data)) => Some(Command::Write { addr, data }),
                _ => None,
            };
        }
        return None;
    }
    if n == 3 {
        let t0 = slice_index_get(toks, from);
        let t1 = slice_index_get(toks, from + 1);
        if token_is2(t0.as_slice(), 0x6d, 0x72) && token_is_kernel(t1.as_slice()) {
            return match parse_based_bytes(slice_index_get(toks, from + 2).as_slice()) {
                Some(addr) => Some(Command::Read { addr, nbytes: crate::READ_DEFAULT_NBYTES }),
                None => None,
            };
        }
        return None;
    }
    None
}

impl Command {
    /// Parse the whitespace-separated tokens of a user-entered or echoed
    /// command line (without the prompt) into a command.
    pub fn from_tokens(tokens: &[&str]) -> (r: Option<Command>)
        ensures
            r == spec_from_token_bytes(Seq::new(tokens@.len(), |i: int| tokens@[i].spec_bytes())),
    {
        let ghost goal = Seq::new(tokens@.len(), |i: int| tokens@[i].spec_bytes());
        let mut byte_toks: Vec<Vec<u8>> = Vec::new();
        let mut i: usize = 0;
        let len = tokens.len();
        while i < len
            invariant
                i <= len,
                len == tokens@.len(),
                goal == Seq::new(tokens@.len(), |j: int| tokens@[j].spec_bytes()),
                byte_toks.deep_view() =~= goal.take(i as int),
            decreases len - i,
        {
            let t: &str = *slice_index_get(tokens, i);
            let ghost old_dv = byte_toks.deep_view();
            byte_toks.push(t.as_bytes_vec());
            proof {
                assert(byte_toks.deep_view() =~~= old_dv.push(tokens@[i as int].spec_bytes()));
                assert(byte_toks.deep_view() =~~= goal.take(i + 1));
            }
            i = i + 1;
        }
        proof {
            assert(goal.take(len as int) =~= goal);
            assert(byte_toks.deep_view().skip(0) =~~= byte_toks.deep_view());
        }
        command_from_byte_tokens(byte_toks.as_slice(), 0)
    }

    /// The canonical wire text of this command, without line ending.
    pub fn to_wire_bytes(&self) -> (r: Vec<u8>)
        ensures
            r@ == spec_format_command(*self),
    {
        let mut out: Vec<u8> = Vec::new();
        match self {
            Command::Read { addr, nbytes } => {
                out.push(0x6d);
                out.push(0x72);
                out.push(0x20);
                push_kernel_sp(&mut out);
                out.push(0x30);
                out.push(0x78);
                push_digits(*addr, 16, &mut out);
                out.push(0x20);
                push_digits(*nbytes, 10, &mut out);
                proof {
                    lemma_format_read_shape(*addr, *nbytes);
                    assert(out@ =~= spec_format_command(*self));
                }
            },
            Command::Write { addr, data } => {
                out.push(0x6d);
                out.push(0x77);
                out.push(0x20);
                push_kernel_sp(&mut out);
                out.push(0x30);
                out.push(0x78);
                push_digits(*addr, 16, &mut out);
                out.push(0x20);
                out.push(0x30);
                out.push(0x78);
                push_digits(*data, 16, &mut out);
                proof {
                    lemma_format_write_shape(*addr, *data);
                    assert(out@ =~= spec_format_command(*self));
                }
            },
        }
        out
    }
}

/// Append `kernel ` (with trailing space).
fn push_kernel_sp(out: &mut Vec<u8>)
    ensures
        final(out)@ == old(out)@ + kw_kernel() + seq![0x20u8],
{
    out.push(0x6b);
    out.push(0x65);
    out.push(0x72);
    out.push(0x6e);
    out.push(0x65);
    out.push(0x6c);
    out.push(0x20);
    proof {
        assert(final(out)@ =~= old(out)@ + kw_kernel() + seq![0x20u8]);
    }
}

/// The joined form of a read command's tokens, written out flat.
proof fn lemma_format_read_shape(addr: u32, nbytes: u32)
    ensures
        spec_format_command(Command::Read { addr, nbytes }) == seq![0x6du8, 0x72u8, 0x20u8]
            + (kw_kernel() + seq![0x20u8]) + hex_prefix() + spec_digits(addr as nat, 16)
            + seq![0x20u8] + spec_digits(nbytes as nat, 10),
{
    let ts = command_tokens(Command::Read { addr, nbytes });
    let sp = seq![0x20u8];
    let c = hex_prefix();
    let d = spec_digits(addr as nat, 16);
    let t2 = c + d;
    let t3 = spec_digits(nbytes as nat, 10);
    let rest1 = seq![kw_kernel(), t2, t3];
    let rest2 = seq![t2, t3];
    let rest3 = seq![t3];
    assert(ts.skip(1) =~= rest1);
    assert(rest1.skip(1) =~= rest2);
    assert(rest2.skip(1) =~= rest3);
    assert(join_tokens(rest3) == t3);
    assert(join_tokens(rest2) == t2 + sp + t3);
    assert(join_tokens(rest1) == kw_kernel() + sp + (t2 + sp + t3));
    assert(join_tokens(ts) == kw_mr() + sp + (kw_kernel() + sp + (t2 + sp + t3)));
    let n = kw_mr() + sp;
    let k = kw_kernel() + sp;
    lemma_concat_associative(n, k, t2 + sp + t3);
    lemma_concat_associative(n + k, t2 + sp, t3);
    lemma_concat_associative(n + k, t2, sp);
    lemma_concat_associative(n + k, c, d);
    assert(n =~= seq![0x6du8, 0x72u8, 0x20u8]);
}

/// The joined form of a write command's tokens, written out flat.
proof fn lemma_format_write_shape(addr: u32, data: u32)
    ensures
        spec_format_command(Command::Write { addr, data }) == seq![0x6du8, 0x77u8, 0x20u8]
            + (kw_kernel() + seq![0x20u8]) + hex_prefix() + spec_digits(addr as nat, 16)
            + seq![0x20u8] + hex_prefix() + spec_digits(data as nat, 16),
{
    let ts = command_tokens(Command::Write { addr, data });
    let sp = seq![0x20u8];
    let c = hex_prefix();
    let d = spec_digits(addr as nat, 16);
    let d2 = spec_digits(data as nat, 16);
    let t2 = c + d;
    let t3 = c + d2;
    let rest1 = seq![kw_kernel(), t2, t3];
    let rest2 = seq![t2, t3];
    let rest3 = seq![t3];
    assert(ts.skip(1) =~= rest1);
    assert(rest1.skip(1) =~= rest2);
    assert(rest2.skip(1) =~= rest3);
    assert(join_tokens(rest3) == t3);
    assert(join_tokens(rest2) == t2 + sp + t3);
    assert(join_tokens(rest1) == kw_kernel() + sp + (t2 + sp + t3));
    assert(join_tokens(ts) == kw_mw() + sp + (kw_kernel() + sp + (t2 + sp + t3)));
    let n = kw_mw() + sp;
    let k = kw_kernel() + sp;
    lemma_concat_associative(n, k, t2 + sp + t3);
    lemma_concat_associative(n + k, t2 + sp, t3);
    lemma_concat_associative(n + k, t2, sp);
    lemma_concat_associative(n + k, c, d);
    lemma_concat_associative(n + k + c + d + sp, c, d2);
    assert(n =~= seq![0x6du8, 0x77u8, 0x20u8]);
}

/// Append the line ending to a command's wire text: the exact bytes the
/// serial transmitter writes per command, one line per command.
pub fn frame_command(c: &Command, ending: LineEnding) -> (r: Vec<u8>)
    ensures
        r@ == spec_format_command(*c) + line_ending_bytes(ending),
{
    let mut out = c.to_wire_bytes();
    let e = ending.to_bytes();
    out.extend_from_slice(e.as_slice());
    out
}

/// Every framed command is exactly one wire line: its frame ends in a line
/// feed and holds no other, so a sequence of framed commands reaches the
/// target as one line per command, in transmission order.
pub proof fn lemma_frame_single_line(c: Command, e: LineEnding)
    ensures
        ({
            let frame = spec_format_command(c) + line_ending_bytes(e);
            &&& frame.len() > 0
            &&& frame.last() == 0x0a
            &&& forall|i: int| 0 <= i < frame.len() - 1 ==> #[trigger] frame[i] != 0x0a
        }),
{
    let f = spec_format_command(c);
    let frame = f + line_ending_bytes(e);
    lemma_format_clean(c);
    assert forall|i: int| 0 <= i < frame.len() - 1 implies #[trigger] frame[i] != 0x0a by {
        if i < f.len() {
            assert(frame[i] == f[i]);
        } else {
            assert(frame[i] == 0x0d);
        }
    }
}

/// Digit runs never hold whitespace.
proof fn lemma_digits_no_ws(n: nat, radix: nat)
    requires
        2 <= radix <= 16,
    ensures
        spec_digits(n, radix).len() > 0,
        forall|i: int| 0 <= i < spec_digits(n, radix).len()
            ==> !is_ws(#[trigger] spec_digits(n, radix)[i]),
    decreases n,
{
    if n >= radix {
        vstd::arithmetic::div_mod::lemma_div_decreases(n as int, radix as int);
        lemma_digits_no_ws(n / radix, radix);
        assert(forall|i: int| 0 <= i < spec_digits(n / radix, radix).len()
            ==> spec_digits(n, radix)[i] == spec_digits(n / radix, radix)[i]);
    }
}

/// Each token of a command's text is nonempty and free of whitespace.
proof fn lemma_command_tokens_clean(c: Command)
    ensures
        forall|i: int| 0 <= i < command_tokens(c).len() ==> #[trigger] command_tokens(
            c,
        )[i].len() > 0,
        forall|i: int, j: int|
            0 <= i < command_tokens(c).len() && 0 <= j < command_tokens(c)[i].len()
                ==> !is_ws(#[trigger] command_tokens(c)[i][j]),
{
    match c {
        Command::Read { addr, nbytes } => {
            lemma_digits_no_ws(addr as nat, 16);
            lemma_digits_no_ws(nbytes as nat, 10);
        },
        Command::Write { addr, data } => {
            lemma_digits_no_ws(addr as nat, 16);
            lemma_digits_no_ws(data as nat, 16);
        },
    }
}

/// A single-space join of clean tokens starts and ends with non-whitespace
/// and holds no whitespace byte but the separating spaces.
proof fn lemma_join_clean(ts: Seq<Seq<u8>>)
    requires
        ts.len() > 0,
        forall|i: int| 0 <= i < ts.len() ==> #[trigger] ts[i].len() > 0,
        forall|i: int, j: int| 0 <= i < ts.len() && 0 <= j < ts[i].len()
            ==> !is_ws(#[trigger] ts[i][j]),
    ensures
        join_tokens(ts).len() > 0,
        !is_ws(join_tokens(ts)[0]),
        !is_ws(join_tokens(ts).last()),
        forall|i: int| 0 <= i < join_tokens(ts).len() ==> join_tokens(ts)[i] == 0x20 || !is_ws(
            #[trigger] join_tokens(ts)[i],
        ),
    decreases ts.len(),
{
    if ts.len() == 1 {
        assert(join_tokens(ts) == ts[0]);
    } else {
        let rest = ts.skip(1);
        lemma_join_clean(rest);
        let s = join_tokens(ts);
        let head = ts[0] + seq![0x20u8];
        assert(s == head + join_tokens(rest));
        assert(s.last() == join_tokens(rest).last());
        assert(s[0] == ts[0][0]);
        assert forall|i: int| 0 <= i < s.len() implies s[i] == 0x20 || !is_ws(#[trigger] s[i]) by {
            if i < ts[0].len() {
                assert(s[i] == ts[0][i]);
            } else if i == ts[0].len() {
                assert(s[i] == 0x20);
            } else {
                assert(s[i] == join_tokens(rest)[i - head.len()]);
            }
        }
    }
}

/// A command's wire text starts and ends with non-whitespace and holds no
/// whitespace but its separating spaces; in particular it holds no line
/// feed, so it frames as exactly one line.
pub proof fn lemma_format_clean(c: Command)
    ensures
        spec_format_command(c).len() > 0,
        !is_ws(spec_format_command(c)[0]),
        !is_ws(spec_format_command(c).last()),
        forall|i: int| 0 <= i < spec_format_command(c).len() ==> spec_format_command(c)[i] == 0x20
            || !is_ws(#[trigger] spec_format_command(c)[i]),
{
    lemma_command_tokens_clean(c);
    lemma_join_clean(command_tokens(c));
}

/// Tokenizing a single-space join of clean tokens gives the tokens back.
proof fn lemma_tokenize_join(ts: Seq<Seq<u8>>)
    requires
        ts.len() > 0,
        forall|i: int| 0 <= i < ts.len() ==> #[trigger] ts[i].len() > 0,
        forall|i: int, j: int| 0 <= i < ts.len() && 0 <= j < ts[i].len()
            ==> !is_ws(#[trigger] ts[i][j]),
    ensures
        spec_tokenize(join_tokens(ts)) == ts,
    decreases ts.len(),
{
    if ts.len() == 1 {
        lemma_tokenize_token_prefix(ts[0], Seq::empty());
        assert(ts[0] + Seq::<u8>::empty() =~= ts[0]);
        assert(seq![ts[0]] + spec_tokenize(Seq::<u8>::empty()) =~= ts);
    } else {
        let rest = ts.skip(1);
        let tail = seq![0x20u8] + join_tokens(rest);
        assert(ts[0] + seq![0x20u8] + join_tokens(rest) =~= ts[0] + tail);
        lemma_tokenize_token_prefix(ts[0], tail);
        lemma_tokenize_ws_prefix(seq![0x20u8], join_tokens(rest));
        lemma_tokenize_join(rest);
        assert(seq![ts[0]] + rest =~= ts);
    }
}

/// Framing is lossless at the token level: tokenizing a command's canonical
/// text yields exactly its tokens.
pub proof fn lemma_command_text_tokens(c: Command)
    ensures
        spec_tokenize(spec_format_command(c)) == command_tokens(c),
{
    lemma_command_tokens_clean(c);
    lemma_tokenize_join(command_tokens(c));
}

/// A number's shortest digit run starts with `0` only when it is zero.
proof fn lemma_digits_no_leading_zero(n: nat, radix: nat)
    requires
        2 <= radix <= 16,
        n >= 1,
    ensures
        spec_digits(n, radix)[0] != 0x30,
    decreases n,
{
    if n < radix {
    } else {
        vstd::arithmetic::div_mod::lemma_div_decreases(n as int, radix as int);
        vstd::arithmetic::div_mod::lemma_div_non_zero(n as int, radix as int);
        lemma_digits_no_leading_zero(n / radix, radix);
    }
}

/// A `0x`-prefixed hexadecimal rendering parses back to the number.
proof fn lemma_hex_token_parses(v: u32)
    ensures
        spec_based_u32(hex_prefix() + spec_digits(v as nat, 16)) == Some(v),
{
    let t = hex_prefix() + spec_digits(v as nat, 16);
    crate::numtext::lemma_digits_round_trip(v as nat, 16);
    assert(t.skip(2) =~= spec_digits(v as nat, 16));
    assert(t[0] == 0x30 && t[1] == 0x78);
}

/// A decimal rendering parses back to the number.
proof fn lemma_dec_token_parses(v: u32)
    ensures
        spec_based_u32(spec_digits(v as nat, 10)) == Some(v),
{
    let t = spec_digits(v as nat, 10);
    crate::numtext::lemma_digits_round_trip(v as nat, 10);
    if t.len() >= 2 {
        lemma_digits_no_leading_zero(v as nat, 10);
        assert(t[0] != 0x30);
    }
}

/// Framing is lossless end to end: parsing the tokens of `format(c)` gives
/// `c` back, for every command.
pub proof fn lemma_command_round_trip(c: Command)
    ensures
        spec_from_token_bytes(spec_tokenize(spec_format_command(c))) == Some(c),
{
    lemma_command_text_tokens(c);
    let ts = command_tokens(c);
    match c {
        Command::Read { addr, nbytes } => {
            lemma_hex_token_parses(addr);
            lemma_dec_token_parses(nbytes);
            assert(ts.len() == 4 && ts[0] == kw_mr() && ts[1] == kw_kernel());
        },
        Command::Write { addr, data } => {
            lemma_hex_token_parses(addr);
            lemma_hex_token_parses(data);
            assert(ts.len() == 4 && ts[0] == kw_mw() && ts[1] == kw_kernel());
            assert(ts[0] != kw_mr());
        },
    }
}

} // verus!
