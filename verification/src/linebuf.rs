//! Inbound line assembly.
//!
//! Raw serial bytes and locally echoed command text accumulate in one
//! reusable byte buffer. Whenever line feeds are present, every whole line
//! is drained at once — trimmed of surrounding ASCII whitespace (which
//! strips the `\r` of `\r\n`), blank lines skipped — and only the trailing
//! partial line stays behind for the next read.
//!
//! The buffer itself is `bytes::BytesMut`, the growable byte buffer that
//! asynchronous reads fill; this crate sees it only through the trusted
//! declarations below.

use crate::text::first_match;
use crate::text::lemma_first_match_bounds;
use crate::text::spec_trim;
use crate::text::trim_bytes;
use crate::text::copy_range;
use vstd::prelude::*;

verus! {

#[verifier::external_type_specification]
#[verifier::external_body]
pub struct ExBytesMut(bytes::BytesMut);

/// The bytes a `bytes::BytesMut` currently holds.
pub uninterp spec fn bytes_mut_view(b: bytes::BytesMut) -> Seq<u8>;

/// Relies on bytes::BytesMut::with_capacity: the new buffer contains no
/// data, whatever it has room for.
#[verifier::external_body]
fn bytes_mut_with_capacity(capacity: usize) -> (r: bytes::BytesMut)
    ensures
        bytes_mut_view(r) == Seq::<u8>::empty(),
{
    bytes::BytesMut::with_capacity(capacity)
}

/// Relies on bytes::BytesMut::extend_from_slice: appends the given bytes
/// after the ones already held.
#[verifier::external_body]
fn bytes_mut_extend(b: &mut bytes::BytesMut, data: &[u8])
    ensures
        bytes_mut_view(*final(b)) == bytes_mut_view(*old(b)) + data@,
{
    b.extend_from_slice(data)
}

/// Relies on bytes::BytesMut::clear: removes all data.
#[verifier::external_body]
fn bytes_mut_clear(b: &mut bytes::BytesMut)
    ensures
        bytes_mut_view(*final(b)) == Seq::<u8>::empty(),
{
    b.clear()
}

/// Relies on <bytes::BytesMut as AsRef<[u8]>>::as_ref: the held bytes as a
/// slice.
#[verifier::external_body]
fn bytes_mut_as_slice(b: &bytes::BytesMut) -> (r: &[u8])
    ensures
        r@ == bytes_mut_view(*b),
{
    b.as_ref()
}

/// The whole lines of `s`, as the parser is to see them: one per line feed,
/// trimmed of surrounding ASCII whitespace, blank lines dropped.
pub open spec fn parser_lines(s: Seq<u8>) -> Seq<Seq<u8>>
    decreases s.len(),
    via parser_lines_decreases
{
    match first_match(s, seq![0x0au8]) {
        None => Seq::empty(),
        Some(i) => {
            let line = spec_trim(s.take(i));
            let rest = parser_lines(s.skip(i + 1));
            if line.len() > 0 {
                seq![line] + rest
            } else {
                rest
            }
        },
    }
}

#[via_fn]
proof fn parser_lines_decreases(s: Seq<u8>) {
    if first_match(s, seq![0x0au8]) is Some {
        lemma_first_match_bounds(s, seq![0x0au8]);
    }
}

/// What stays in the buffer: everything after the last line feed.
pub open spec fn partial_tail(s: Seq<u8>) -> Seq<u8>
    decreases s.len(),
    via partial_tail_decreases
{
    match first_match(s, seq![0x0au8]) {
        None => s,
        Some(i) => partial_tail(s.skip(i + 1)),
    }
}

#[via_fn]
proof fn partial_tail_decreases(s: Seq<u8>) {
    if first_match(s, seq![0x0au8]) is Some {
        lemma_first_match_bounds(s, seq![0x0au8]);
    }
}

/// Find the first line feed at or past `from`.
fn find_line_feed(s: &[u8], from: usize) -> (r: Option<usize>)
    requires
        from <= s@.len(),
    ensures
        match r {
            Some(i) => from <= i && i < s@.len() && first_match(
                s@.skip(from as int),
                seq![0x0au8],
            ) == Some(i - from),
            None => first_match(s@.skip(from as int), seq![0x0au8]) is None,
        },
    decreases s@.len() - from,
{
    let ghost w = s@.skip(from as int);
    if from == s.len() {
        return None;
    }
    proof {
        assert(w.take(1) =~= seq![s@[from as int]]);
    }
    if *vstd::slice::slice_index_get(s, from) == 0x0a {
        proof {
            assert(w.take(1) =~= seq![0x0au8]);
        }
        Some(from)
    } else {
        proof {
            assert(seq![s@[from as int]][0] == s@[from as int]);
            assert(seq![0x0au8][0] == 0x0au8);
            assert(w.take(1) != seq![0x0au8]);
            assert(w.skip(1) =~= s@.skip(from + 1));
        }
        find_line_feed(s, from + 1)
    }
}

/// Drain the whole lines of `s[pos..]` into `lines`; the return value is
/// the trailing partial line.
fn split_from(s: &[u8], pos: usize, lines: &mut Vec<Vec<u8>>) -> (tail: Vec<u8>)
    requires
        pos <= s@.len(),
    ensures
        final(lines).deep_view() == old(lines).deep_view() + parser_lines(s@.skip(pos as int)),
        tail@ == partial_tail(s@.skip(pos as int)),
    decreases s@.len() - pos,
{
    let ghost w = s@.skip(pos as int);
    let len = s.len();
    match find_line_feed(s, pos) {
        None => {
            proof {
                assert(old(lines).deep_view() + parser_lines(w) =~~= old(lines).deep_view());
                assert(w =~= s@.subrange(pos as int, s@.len() as int));
            }
            copy_range(s, pos, s.len())
        },
        Some(nl) => {
            let seg = copy_range(s, pos, nl);
            proof {
                assert(w.take(nl - pos) =~= s@.subrange(pos as int, nl as int));
                assert(w.skip(nl - pos + 1) =~= s@.skip(nl + 1));
            }
            let trimmed = trim_bytes(seg.as_slice());
            if trimmed.len() > 0 {
                let ghost old_dv = lines.deep_view();
                lines.push(trimmed);
                proof {
                    assert(lines.deep_view() =~~= old_dv.push(spec_trim(w.take(nl - pos))));
                }
                let tail = split_from(s, nl + 1, lines);
                proof {
                    assert(final(lines).deep_view() =~~= old(lines).deep_view() + parser_lines(
                        w,
                    ));
                }
                tail
            } else {
                let tail = split_from(s, nl + 1, lines);
                proof {
                    assert(final(lines).deep_view() =~~= old(lines).deep_view() + parser_lines(
                        w,
                    ));
                }
                tail
            }
        },
    }
}

/// The line assembler's buffer.
pub struct LineBuffer {
    buf: bytes::BytesMut,
}

impl View for LineBuffer {
    type V = Seq<u8>;

    closed spec fn view(&self) -> Seq<u8> {
        bytes_mut_view(self.buf)
    }
}

impl LineBuffer {
    /// An empty buffer, with room for a typical burst of lines.
    pub fn new() -> (r: Self)
        ensures
            r@ == Seq::<u8>::empty(),
    {
        LineBuffer { buf: bytes_mut_with_capacity(crate::LINE_BUFFER_SIZE) }
    }

    /// Append received bytes, drain every whole line — trimmed, blanks
    /// skipped — and retain only the trailing partial line.
    pub fn push_bytes(&mut self, data: &[u8]) -> (lines: Vec<Vec<u8>>)
        ensures
            lines.deep_view() == parser_lines(old(self)@ + data@),
            final(self)@ == partial_tail(old(self)@ + data@),
    {
        bytes_mut_extend(&mut self.buf, data);
        let mut lines: Vec<Vec<u8>> = Vec::new();
        let tail;
        {
            let s = bytes_mut_as_slice(&self.buf);
            proof {
                assert(s@.skip(0) =~= s@);
            }
            tail = split_from(s, 0, &mut lines);
            proof {
                assert(lines.deep_view() =~~= parser_lines(old(self)@ + data@));
            }
        }
        bytes_mut_clear(&mut self.buf);
        bytes_mut_extend(&mut self.buf, tail.as_slice());
        proof {
            assert(Seq::<u8>::empty() + tail@ =~= tail@);
        }
        lines
    }
}

} // verus!
