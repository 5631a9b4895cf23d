//! The mathematical model of framing: a state machine over bytes.
//!
//! A message is a header block, which ends at the first blank line, followed by
//! a body, which ends where its braces balance outside of quoted sections. The
//! functions here say what the scanner's state is after each byte and which
//! messages a byte stream holds. The executable reader is specified against
//! them.

use vstd::prelude::*;
use crate::json::json_valid;

verus! {

pub const CR: u8 = 13;
pub const LF: u8 = 10;
pub const QUOTE: u8 = 34;
pub const BACKSLASH: u8 = 92;
pub const OPEN_BRACE: u8 = 123;
pub const CLOSE_BRACE: u8 = 125;

/// Which block of a message the scanner is in.
#[derive(Clone, Copy, Debug, PartialEq, Eq, Structural)]
pub enum Phase {
    HeaderScan,
    BodyScan,
}

/// Where the scanner stands inside a body.
pub struct Lexer {
    /// Open braces minus close braces seen outside of quoted sections.
    pub depth: int,
    /// Whether the last byte seen lies inside a quoted section.
    pub in_string: bool,
    /// Whether the next byte is escaped by a backslash before it.
    pub escape: bool,
    /// Whether an open brace was seen outside of quoted sections.
    pub opened: bool,
}

/// One complete message: the header block with its blank line, and the body.
pub struct Frame {
    pub headers: Seq<u8>,
    pub body: Seq<u8>,
}

/// The scanner's whole state between two bytes.
pub struct ScanState {
    pub phase: Phase,
    /// In `HeaderScan` the header bytes seen so far, in `BodyScan` the
    /// finished header block.
    pub headers: Seq<u8>,
    /// The body bytes seen so far.
    pub body: Seq<u8>,
    pub lexer: Lexer,
}

/// What a byte can bring about besides a new state.
pub enum Signal {
    /// The byte completed this message.
    Emit(Frame),
    /// The braces balanced on a body that is no JSON value.
    Reject,
}

/// The lexer at the first byte of a body.
pub open spec fn fresh_lexer() -> Lexer {
    Lexer { depth: 0, in_string: false, escape: false, opened: false }
}

/// The state before the first byte of a message.
pub open spec fn initial_state() -> ScanState {
    ScanState {
        phase: Phase::HeaderScan,
        headers: Seq::empty(),
        body: Seq::empty(),
        lexer: fresh_lexer(),
    }
}

/// Whether the last four bytes of `bytes` are CR LF CR LF.
pub open spec fn ends_with_blank_line(bytes: Seq<u8>) -> bool {
    &&& bytes.len() >= 4
    &&& bytes[bytes.len() - 4] == CR
    &&& bytes[bytes.len() - 3] == LF
    &&& bytes[bytes.len() - 2] == CR
    &&& bytes[bytes.len() - 1] == LF
}

/// The lexer after one more body byte.
pub open spec fn classify(lexer: Lexer, byte: u8) -> Lexer {
    if lexer.in_string {
        if lexer.escape {
            Lexer { escape: false, ..lexer }
        } else if byte == BACKSLASH {
            Lexer { escape: true, ..lexer }
        } else if byte == QUOTE {
            Lexer { in_string: false, ..lexer }
        } else {
            lexer
        }
    } else if byte == QUOTE {
        Lexer { in_string: true, ..lexer }
    } else if byte == OPEN_BRACE {
        Lexer { depth: lexer.depth + 1, opened: true, ..lexer }
    } else if byte == CLOSE_BRACE {
        Lexer { depth: lexer.depth - 1, ..lexer }
    } else {
        lexer
    }
}

/// Whether the braces seen so far have closed again. The depth counts only
/// outside of quoted sections.
pub open spec fn balanced(lexer: Lexer) -> bool {
    !lexer.in_string && lexer.opened && lexer.depth == 0
}

/// The state after one more byte, and what that byte brought about.
///
/// A header byte completes the header block if the block now ends with a blank
/// line. A body byte completes the body if the braces are balanced after it:
/// then the message is emitted if the body is a JSON value and rejected if not,
/// and either way the scanner starts over.
pub open spec fn step(state: ScanState, byte: u8) -> (ScanState, Option<Signal>) {
    match state.phase {
        Phase::HeaderScan => {
            let headers = state.headers.push(byte);
            if ends_with_blank_line(headers) {
                (
                    ScanState {
                        phase: Phase::BodyScan,
                        headers,
                        body: Seq::empty(),
                        lexer: fresh_lexer(),
                    },
                    None,
                )
            } else {
                (ScanState { headers, ..state }, None)
            }
        },
        Phase::BodyScan => {
            let body = state.body.push(byte);
            let lexer = classify(state.lexer, byte);
            if balanced(lexer) {
                if json_valid(body) {
                    (initial_state(), Some(Signal::Emit(Frame { headers: state.headers, body })))
                } else {
                    (initial_state(), Some(Signal::Reject))
                }
            } else {
                (ScanState { body, lexer, ..state }, None)
            }
        },
    }
}

/// The state after all of `input`, and the signals that its bytes raised, in
/// order.
pub open spec fn run(state: ScanState, input: Seq<u8>) -> (ScanState, Seq<Signal>)
    decreases input.len(),
{
    if input.len() == 0 {
        (state, Seq::empty())
    } else {
        let (next, signal) = step(state, input[0]);
        let (last, later) = run(next, input.drop_first());
        match signal {
            Some(s) => (last, seq![s] + later),
            None => (last, later),
        }
    }
}

/// The state after reading each chunk of `chunks` in turn, and the signals
/// raised on the way, in order.
pub open spec fn run_chunks(state: ScanState, chunks: Seq<Seq<u8>>) -> (ScanState, Seq<Signal>)
    decreases chunks.len(),
{
    if chunks.len() == 0 {
        (state, Seq::empty())
    } else {
        let (next, first) = run(state, chunks[0]);
        let (last, later) = run_chunks(next, chunks.drop_first());
        (last, first + later)
    }
}

/// The lexer after all of `body`, read from the first byte of a body.
pub open spec fn lex(body: Seq<u8>) -> Lexer
    decreases body.len(),
{
    if body.len() == 0 {
        fresh_lexer()
    } else {
        classify(lex(body.drop_last()), body.last())
    }
}

/// Whether `headers` is one header block: it ends with a blank line and holds
/// no blank line before that.
pub open spec fn is_header_block(headers: Seq<u8>) -> bool {
    &&& ends_with_blank_line(headers)
    &&& forall|k: int| 0 <= k < headers.len() ==> !ends_with_blank_line(#[trigger] headers.take(k))
}

/// Whether `body` is one body: its braces balance at its last byte and not
/// before.
pub open spec fn is_body_block(body: Seq<u8>) -> bool {
    &&& balanced(lex(body))
    &&& forall|k: int| 0 <= k < body.len() ==> !balanced(lex(#[trigger] body.take(k)))
}

/// Whether `frame` is a message as a sender should write it: one header block,
/// then one body that is a JSON value.
pub open spec fn well_formed(frame: Frame) -> bool {
    &&& is_header_block(frame.headers)
    &&& is_body_block(frame.body)
    &&& json_valid(frame.body)
}

/// The bytes of `frame` on the wire.
pub open spec fn wire(frame: Frame) -> Seq<u8> {
    frame.headers + frame.body
}

/// The bytes of `frames` on the wire, one after the other.
pub open spec fn wire_all(frames: Seq<Frame>) -> Seq<u8>
    decreases frames.len(),
{
    if frames.len() == 0 {
        Seq::empty()
    } else {
        wire(frames[0]) + wire_all(frames.drop_first())
    }
}

/// The signals of a stream that holds exactly `frames`.
pub open spec fn emits(frames: Seq<Frame>) -> Seq<Signal> {
    Seq::new(frames.len(), |i: int| Signal::Emit(frames[i]))
}

/// The state inside a header block of which `seen` has been read.
pub open spec fn in_headers(seen: Seq<u8>) -> ScanState {
    ScanState { phase: Phase::HeaderScan, headers: seen, body: Seq::empty(), lexer: fresh_lexer() }
}

/// The state inside the body that follows `headers`, of which `seen` has been
/// read.
pub open spec fn in_body(headers: Seq<u8>, seen: Seq<u8>) -> ScanState {
    ScanState { phase: Phase::BodyScan, headers, body: seen, lexer: lex(seen) }
}

/// What holds of every state that reading from the start of a message leads
/// to: the bytes held so far are the beginning of one message and nothing
/// more. No blank line lies inside the header bytes; in the body the lexer
/// stands where the body bytes have taken it, and the braces have not balanced
/// yet.
pub open spec fn consistent(state: ScanState) -> bool {
    match state.phase {
        Phase::HeaderScan => forall|k: int|
            0 <= k <= state.headers.len() ==> !ends_with_blank_line(
                #[trigger] state.headers.take(k),
            ),
        Phase::BodyScan => {
            &&& is_header_block(state.headers)
            &&& state.lexer == lex(state.body)
            &&& forall|k: int|
                0 <= k <= state.body.len() ==> !balanced(lex(#[trigger] state.body.take(k)))
        },
    }
}

/// What reading up to the first signal gives.
pub struct Pull {
    /// The state after the last byte read.
    pub state: ScanState,
    /// The signal that ended the reading, or `None` if the input ran out.
    pub signal: Option<Signal>,
    /// How many bytes were read.
    pub used: nat,
}

/// Reads `input` from `state` up to and including the first byte that raises a
/// signal, or to the end of `input` if none does.
pub open spec fn pull(state: ScanState, input: Seq<u8>) -> Pull
    decreases input.len(),
{
    if input.len() == 0 {
        Pull { state, signal: None, used: 0 }
    } else {
        let (next, signal) = step(state, input[0]);
        if signal is Some {
            Pull { state: next, signal, used: 1 }
        } else {
            let rest = pull(next, input.drop_first());
            Pull { used: rest.used + 1, ..rest }
        }
    }
}

/// What relaying gives: the bytes written, and where the relaying stopped.
pub struct Relay {
    /// The state after the last byte read.
    pub state: ScanState,
    /// The messages read, each as it goes over the wire, in the order read.
    pub written: Seq<u8>,
    /// Whether a body was rejected, which stops the relaying; if not, the
    /// input ran out.
    pub rejected: bool,
    /// How many bytes were read.
    pub used: nat,
}

/// Reads `input` from `state` and writes out each message as it completes,
/// up to the first body that is rejected or to the end of `input`.
pub open spec fn relay(state: ScanState, input: Seq<u8>) -> Relay
    decreases input.len(),
{
    if input.len() == 0 {
        Relay { state, written: Seq::empty(), rejected: false, used: 0 }
    } else {
        let (next, signal) = step(state, input[0]);
        match signal {
            Some(Signal::Reject) => Relay {
                state: next,
                written: Seq::empty(),
                rejected: true,
                used: 1,
            },
            Some(Signal::Emit(frame)) => {
                let rest = relay(next, input.drop_first());
                Relay { written: wire(frame) + rest.written, used: rest.used + 1, ..rest }
            },
            None => {
                let rest = relay(next, input.drop_first());
                Relay { used: rest.used + 1, ..rest }
            },
        }
    }
}

} // verus!
