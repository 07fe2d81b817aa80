//! One session's receive side: the line assembler driving the parser.
//!
//! The asynchronous shell around this crate owns the serial port and the
//! queues; whenever bytes arrive from the port it calls [`Session::feed_bytes`],
//! and whenever local echo re-injects a transmitted command it calls
//! [`Session::feed_echo`]. Both hand back the decoded events, ready to be
//! forwarded to the application, in emission order.

use crate::linebuf::LineBuffer;
use crate::linebuf::parser_lines;
use crate::linebuf::partial_tail;
use crate::parser::ParserState;
use crate::parser::process_line;
use crate::parser::spec_run;
use crate::parser::spec_step_command;
use crate::types::Command;
use crate::types::DapError;
use crate::types::Event;
use crate::types::LineEnding;
use crate::types::line_ending_bytes;
use crate::text::has_match_at;
use crate::text::is_ws;
use crate::text::lemma_first_match_at;
use crate::text::lemma_tokenize_token_prefix;
use crate::text::lemma_tokenize_ws_prefix;
use crate::text::lemma_trim_clean;
use crate::text::spec_tokenize;
use crate::text::spec_trim;
use crate::text::trim_end;
use crate::text::trim_start;
use crate::wire::command_tokens;
use crate::wire::frame_command;
use crate::wire::lemma_command_round_trip;
use crate::wire::lemma_command_text_tokens;
use crate::wire::lemma_format_clean;
use crate::wire::prompt;
use crate::wire::spec_format_command;
use vstd::prelude::*;
use vstd::slice::slice_index_get;

verus! {

/// Parser state plus line buffer plus outbound framing configuration: all
/// the receive-side state of one driver session.
pub struct Session {
    pub state: ParserState,
    pub buffer: LineBuffer,
    pub line_ending: LineEnding,
}

impl Session {
    /// A fresh session: waiting for a command echo, nothing buffered.
    pub fn new(line_ending: LineEnding) -> (r: Session)
        ensures
            r.state == ParserState::WaitForCommand,
            r.buffer@ == Seq::<u8>::empty(),
            r.line_ending == line_ending,
    {
        Session { state: ParserState::WaitForCommand, buffer: LineBuffer::new(), line_ending }
    }

    /// Feed bytes received from the serial port: assemble lines, run the
    /// parser over each whole line, and return the decoded events.
    ///
    /// The error is the parser's fatal hex error, exactly when some
    /// assembled line hits it; the session is then desynchronized and done.
    pub fn feed_bytes(&mut self, data: &[u8]) -> (r: Result<Vec<Event>, DapError>)
        ensures
            final(self).line_ending == old(self).line_ending,
            match spec_run(old(self).state, parser_lines(old(self).buffer@ + data@)) {
                Some(s) => r matches Ok(evs) && evs@ == s.1 && final(self).state == s.0
                    && final(self).buffer@ == partial_tail(old(self).buffer@ + data@),
                None => r matches Err(e) && e == DapError::InvalidHex,
            },
    {
        let ghost init_state = self.state;
        let ghost slines = parser_lines(old(self).buffer@ + data@);
        let lines = self.buffer.push_bytes(data);
        let mut evs: Vec<Event> = Vec::new();
        let mut st = self.state;
        let n = lines.len();
        let mut i: usize = 0;
        proof {
            assert(slines.skip(0) =~= slines);
        }
        while i < n
            invariant
                i <= n,
                n == lines@.len(),
                slines == lines.deep_view(),
                init_state == old(self).state,
                slines == parser_lines(old(self).buffer@ + data@),
                self.line_ending == old(self).line_ending,
                self.buffer@ == partial_tail(old(self).buffer@ + data@),
                spec_run(init_state, slines) == (match spec_run(st, slines.skip(i as int)) {
                    None => None::<(ParserState, Seq<Event>)>,
                    Some(s) => Some((s.0, evs@ + s.1)),
                }),
            decreases n - i,
        {
            proof {
                assert(slines[i as int] == lines@[i as int]@);
            }
            match process_line(st, slice_index_get(lines.as_slice(), i).as_slice()) {
                Ok(p) => {
                    let st2 = p.0;
                    let mut newevs = p.1;
                    let ghost evs_before = evs@;
                    let ghost new_before = newevs@;
                    evs.append(&mut newevs);
                    proof {
                        assert(slines.skip(i as int).skip(1) =~= slines.skip(i + 1));
                        if let Some(s) = spec_run(st2, slines.skip(i + 1)) {
                            assert((evs_before + new_before) + s.1 =~= evs_before + (new_before
                                + s.1));
                        }
                    }
                    st = st2;
                    i = i + 1;
                },
                Err(e) => {
                    proof {
                        assert(slines.skip(i as int)[0] == slines[i as int]);
                        assert(spec_run(st, slines.skip(i as int)) is None);
                    }
                    return Err(e);
                },
            }
        }
        proof {
            assert(slines.skip(n as int) =~= Seq::<Seq<u8>>::empty());
            assert(evs@ + Seq::<Event>::empty() =~= evs@);
        }
        self.state = st;
        Ok(evs)
    }

    /// Feed a locally echoed command: its framed wire text joins the
    /// inbound stream exactly as if the target had echoed it.
    pub fn feed_echo(&mut self, c: &Command) -> (r: Result<Vec<Event>, DapError>)
        ensures
            final(self).line_ending == old(self).line_ending,
            ({
                let all = old(self).buffer@ + spec_format_command(*c) + line_ending_bytes(
                    old(self).line_ending,
                );
                match spec_run(old(self).state, parser_lines(all)) {
                    Some(s) => r matches Ok(evs) && evs@ == s.1 && final(self).state == s.0
                        && final(self).buffer@ == partial_tail(all),
                    None => r matches Err(e) && e == DapError::InvalidHex,
                }
            }),
    {
        let frame = frame_command(c, self.line_ending);
        let ghost all = old(self).buffer@ + spec_format_command(*c) + line_ending_bytes(
            old(self).line_ending,
        );
        proof {
            assert(old(self).buffer@ + frame@ =~= all);
        }
        self.feed_bytes(frame.as_slice())
    }
}

/// The echo trick is sound: when the target has printed `DEBUG> ` (sitting
/// as the buffer's partial line) and the driver injects a command's framed
/// text, the parser recovers exactly that command — a write yields its one
/// write event and the parser keeps waiting for commands; a read yields no
/// event and arms the response state for its dump lines. The buffer is
/// drained completely. This holds for either line ending.
pub proof fn lemma_prompted_frame_parses(c: Command, e: LineEnding)
    ensures
        ({
            let all = prompt() + seq![0x20u8] + spec_format_command(c) + line_ending_bytes(e);
            let line = prompt() + seq![0x20u8] + spec_format_command(c);
            &&& partial_tail(all) == Seq::<u8>::empty()
            &&& parser_lines(all) == seq![line]
            &&& spec_run(ParserState::WaitForCommand, seq![line]) == Some(
                (
                    (match c {
                        Command::Write { .. } => ParserState::WaitForCommand,
                        Command::Read { addr, nbytes } => ParserState::WaitForResponse {
                            addr,
                            nbytes,
                        },
                    }),
                    (match c {
                        Command::Write { addr, data } => seq![Event::Write { addr, data }],
                        Command::Read { .. } => Seq::<Event>::empty(),
                    }),
                ),
            )
        }),
{
    let f = spec_format_command(c);
    let line = prompt() + seq![0x20u8] + f;
    let all = line + line_ending_bytes(e);
    assert(prompt() + seq![0x20u8] + f + line_ending_bytes(e) =~= all);
    lemma_format_clean(c);
    assert(prompt()[0] == 0x44 && prompt()[1] == 0x45 && prompt()[2] == 0x42 && prompt()[3] == 0x55
        && prompt()[4] == 0x47 && prompt()[5] == 0x3e);
    assert(forall|i: int| 0 <= i < 6 ==> !is_ws(#[trigger] prompt()[i]));
    assert(line[0] == 0x44);
    assert(line.last() == f.last());
    assert forall|i: int| 0 <= i < line.len() implies #[trigger] line[i] != 0x0a by {
        if i < 6 {
            assert(line[i] == prompt()[i]);
        } else if i == 6 {
            assert(line[i] == 0x20);
        } else {
            assert(line[i] == f[i - 7]);
        }
    }
    let nl: int = if e == LineEnding::Lf {
        line.len() as int
    } else {
        line.len() as int + 1
    };
    assert(all.subrange(nl, nl + 1) =~= seq![0x0au8]);
    assert(has_match_at(all, seq![0x0au8], nl));
    assert forall|j: int| 0 <= j < nl implies !#[trigger] has_match_at(all, seq![0x0au8], j) by {
        assert(all.subrange(j, j + 1) =~= seq![all[j]]);
        if j < line.len() {
            assert(all[j] == line[j]);
        } else {
            assert(all[j] == 0x0d);
        }
        assert(seq![all[j]][0] == all[j]);
        assert(seq![0x0au8][0] == 0x0au8);
    }
    lemma_first_match_at(all, seq![0x0au8], nl);
    // the one complete line, trimmed
    let seg = all.take(nl);
    assert(trim_start(line) == line);
    lemma_trim_clean(line);
    if e == LineEnding::Lf {
        assert(seg =~= line);
    } else {
        assert(seg =~= line + seq![0x0du8]);
        assert(seg.last() == 0x0d);
        assert(trim_start(seg) == seg);
        assert(seg.drop_last() =~= line);
        assert(trim_end(seg) == trim_end(line));
        assert(trim_end(line) == spec_trim(line));
    }
    assert(spec_trim(seg) == line);
    assert(all.skip(nl + 1) =~= Seq::<u8>::empty());
    assert(parser_lines(Seq::<u8>::empty()) =~~= Seq::<Seq<u8>>::empty());
    assert(partial_tail(Seq::<u8>::empty()) =~= Seq::<u8>::empty());
    assert(parser_lines(all) =~~= seq![line]);
    // tokenizing the line: the prompt, then the command's own tokens
    let tail = seq![0x20u8] + f;
    assert(line =~= prompt() + tail);
    assert(tail[0] == 0x20);
    lemma_tokenize_token_prefix(prompt(), tail);
    lemma_tokenize_ws_prefix(seq![0x20u8], f);
    lemma_command_text_tokens(c);
    lemma_command_round_trip(c);
    let toks = spec_tokenize(line);
    assert(toks == seq![prompt()] + command_tokens(c));
    assert(toks[0] == prompt());
    assert(toks.skip(1) =~= command_tokens(c));
    // running the parser over that single line
    assert(seq![line][0] == line);
    let rest_lines = seq![line].skip(1);
    assert(rest_lines.len() == 0);
    match c {
        Command::Write { addr, data } => {
            assert(seq![Event::Write { addr, data }] + Seq::<Event>::empty() =~= seq![
                Event::Write { addr, data },
            ]);
            assert(spec_step_command(line) == (
                ParserState::WaitForCommand,
                seq![Event::Write { addr, data }],
            ));
            assert(spec_run(ParserState::WaitForCommand, rest_lines) == Some((
                ParserState::WaitForCommand,
                Seq::<Event>::empty(),
            )));
            assert(spec_run(ParserState::WaitForCommand, seq![line]) == Some((
                ParserState::WaitForCommand,
                seq![Event::Write { addr, data }],
            )));
        },
        Command::Read { addr, nbytes } => {
            assert(Seq::<Event>::empty() + Seq::<Event>::empty() =~= Seq::<Event>::empty());
            assert(spec_step_command(line) == (
                ParserState::WaitForResponse { addr, nbytes },
                Seq::<Event>::empty(),
            ));
            assert(spec_run(ParserState::WaitForResponse { addr, nbytes }, rest_lines) == Some((
                ParserState::WaitForResponse { addr, nbytes },
                Seq::<Event>::empty(),
            )));
            assert(spec_run(ParserState::WaitForCommand, seq![line]) == Some((
                ParserState::WaitForResponse { addr, nbytes },
                Seq::<Event>::empty(),
            )));
        },
    }
}

} // verus!
