//! Reading framed messages out of a byte stream, and writing them back.

use vstd::prelude::*;
use crate::json::{is_json, json_valid};
use crate::laws::{lemma_pull_heads_run, lemma_relay_by_pull, lemma_step_consistent};
use crate::scan::{
    classify, consistent, initial_state, pull, relay, step, well_formed, wire, Frame, Lexer,
    Phase, Pull, ScanState, Signal, BACKSLASH, CLOSE_BRACE, CR, LF, OPEN_BRACE, QUOTE,
};

verus! {

/// What the server's address file holds: the address alone, or the address
/// with the place of a token file.
#[derive(Clone, Debug, PartialEq, Eq)]
pub enum Active {
    OnlyUri { uri: String },
    WithToken { uri: String, tokenfile_path: String, tokenfile_uri: String },
}

impl Active {
    /// The server's address, whichever shape the file had.
    pub fn to_uri(self) -> (uri: String)
        ensures
            uri == (match self {
                Active::OnlyUri { uri } => uri,
                Active::WithToken { uri, .. } => uri,
            }),
    {
        match self {
            Active::OnlyUri { uri } => uri,
            Active::WithToken { uri, .. } => uri,
        }
    }
}

/// One complete message, as raw bytes. Neither part is interpreted.
#[derive(Clone, Debug, PartialEq, Eq)]
pub struct LspMessage {
    /// The header block, with the blank line that ends it.
    pub headers: Vec<u8>,
    /// The body.
    pub message: Vec<u8>,
}

impl View for LspMessage {
    type V = Frame;

    open spec fn view(&self) -> Frame {
        Frame { headers: self.headers@, body: self.message@ }
    }
}

impl LspMessage {
    pub fn new(headers: Vec<u8>, message: Vec<u8>) -> (msg: Self)
        ensures
            msg.headers == headers,
            msg.message == message,
    {
        LspMessage { headers, message }
    }

    /// Appends the message to `w` as it goes over the wire: the header block,
    /// then the body, with nothing added or changed.
    pub fn write_into(&self, w: &mut Vec<u8>)
        ensures
            final(w)@ == old(w)@ + self.headers@ + self.message@,
    {
        w.extend_from_slice(self.headers.as_slice());
        w.extend_from_slice(self.message.as_slice());
        assert(w@ =~= old(w)@ + self.headers@ + self.message@);
    }
}

/// Why no message could be read.
#[derive(Clone, Debug, PartialEq, Eq)]
pub enum FrameError {
    /// The bytes ended before the message was complete.
    UnexpectedEof,
    /// The source failed; the text is the source's own account of it.
    IoFailure(String),
    /// The braces of a body balanced, but the body is no JSON value.
    MalformedMessage,
}

/// What one attempt to take a byte from a source gave.
#[derive(Clone, Debug, PartialEq, Eq)]
pub enum ReadEvent {
    Byte(u8),
    /// The source has ended.
    End,
    /// The attempt was cut short by a signal; nothing was read and nothing is
    /// wrong.
    Interrupted,
    /// The source failed, with its account of the failure.
    Failed(String),
}

/// Splits a byte stream into messages.
///
/// The reader holds the bytes that were handed to it and not yet read, and the
/// scanner's state after the bytes read so far. Bytes may arrive in pieces of
/// any size: the messages that come out depend on the bytes alone.
#[derive(Debug)]
pub struct LspMessageReader {
    /// The bytes handed in; those before `cursor` have been read.
    inner: Vec<u8>,
    cursor: usize,
    phase: Phase,
    /// The header bytes read so far, or the finished header block.
    headers: Vec<u8>,
    /// The body bytes read so far.
    message: Vec<u8>,
    /// Open braces minus close braces outside of quoted sections. It never
    /// leaves the range that the length of `message` allows.
    depth: i128,
    in_string: bool,
    escape: bool,
    opened: bool,
}

impl LspMessageReader {
    /// What holds of every reader between two calls: the read position lies
    /// within the bytes held, the depth counter has room to move, and the
    /// scanner's state is one that reading from the start of a message leads
    /// to.
    pub closed spec fn wf(&self) -> bool {
        &&& self.cursor <= self.inner.len()
        &&& -(self.message.len() as int) <= self.depth <= self.message.len()
        &&& consistent(self.state())
    }

    /// The scanner's state after the bytes read so far.
    pub closed spec fn state(&self) -> ScanState {
        ScanState {
            phase: self.phase,
            headers: self.headers@,
            body: self.message@,
            lexer: Lexer {
                depth: self.depth as int,
                in_string: self.in_string,
                escape: self.escape,
                opened: self.opened,
            },
        }
    }

    /// The bytes handed to the reader and not yet read.
    pub closed spec fn unread(&self) -> Seq<u8> {
        self.inner@.skip(self.cursor as int)
    }

    /// A well-formed reader is in a consistent state.
    pub proof fn lemma_wf_consistent(&self)
        requires
            self.wf(),
        ensures
            consistent(self.state()),
    {
    }

    /// A reader at the start of a message, with `input` still to read.
    pub fn new(input: Vec<u8>) -> (reader: Self)
        ensures
            reader.wf(),
            reader.state() == initial_state(),
            reader.unread() == input@,
    {
        let reader = LspMessageReader {
            inner: input,
            cursor: 0,
            phase: Phase::HeaderScan,
            headers: Vec::with_capacity(64),
            message: Vec::with_capacity(64),
            depth: 0,
            in_string: false,
            escape: false,
            opened: false,
        };
        assert(reader.inner@.skip(0) =~= input@);
        reader
    }

    /// Hands the reader more bytes, to be read after those it already holds.
    pub fn feed(&mut self, chunk: &[u8])
        requires
            old(self).wf(),
        ensures
            final(self).wf(),
            final(self).state() == old(self).state(),
            final(self).unread() == old(self).unread() + chunk@,
    {
        self.inner.extend_from_slice(chunk);
        assert(self.inner@ =~= old(self).inner@ + chunk@);
        assert(self.inner@.skip(self.cursor as int) =~= old(self).inner@.skip(self.cursor as int)
            + chunk@);
    }

    /// Sorts what a source gave into a byte to scan, nothing to scan, or the
    /// end of the reading.
    ///
    /// An interrupted attempt is no error: the caller asks the source again.
    /// The end of the source is an error here, since a caller asks for a byte
    /// only while a message is incomplete.
    pub fn match_byte(bo: ReadEvent) -> (r: Result<Option<u8>, FrameError>)
        ensures
            r == (match bo {
                ReadEvent::Byte(b) => Ok::<Option<u8>, FrameError>(Some(b)),
                ReadEvent::Interrupted => Ok(None),
                ReadEvent::End => Err(FrameError::UnexpectedEof),
                ReadEvent::Failed(why) => Err(FrameError::IoFailure(why)),
            }),
    {
        match bo {
            ReadEvent::Byte(b) => Ok(Some(b)),
            ReadEvent::Interrupted => Ok(None),
            ReadEvent::End => Err(FrameError::UnexpectedEof),
            ReadEvent::Failed(why) => Err(FrameError::IoFailure(why)),
        }
    }

    /// Closes a message whose braces have balanced: the message itself if its
    /// body was found to be a JSON value, `MalformedMessage` if not.
    pub fn settle(headers: Vec<u8>, message: Vec<u8>, valid: bool) -> (r: Result<
        LspMessage,
        FrameError,
    >)
        ensures
            valid ==> r == Ok::<LspMessage, FrameError>(LspMessage { headers, message }),
            !valid ==> r == Err::<LspMessage, FrameError>(FrameError::MalformedMessage),
    {
        if valid {
            Ok(LspMessage::new(headers, message))
        } else {
            Err(FrameError::MalformedMessage)
        }
    }

    /// Scans one header byte.
    fn parse_headers(&mut self, byte: u8)
        requires
            old(self).wf(),
            old(self).phase == Phase::HeaderScan,
        ensures
            final(self).wf(),
            final(self).state() == step(old(self).state(), byte).0,
            final(self).inner == old(self).inner,
            final(self).cursor == old(self).cursor,
    {
        proof {
            lemma_step_consistent(self.state(), byte);
        }
        self.headers.push(byte);
        let len = self.headers.len();
        if len >= 4 && self.headers[len - 4] == CR && self.headers[len - 3] == LF
            && self.headers[len - 2] == CR && self.headers[len - 1] == LF {
            self.phase = Phase::BodyScan;
            self.message.clear();
            self.depth = 0;
            self.in_string = false;
            self.escape = false;
            self.opened = false;
        }
    }

    /// Scans one byte inside a quoted section of a body.
    fn parse_string(&mut self, byte: u8)
        requires
            old(self).in_string,
        ensures
            final(self).in_string == classify(old(self).state().lexer, byte).in_string,
            final(self).escape == classify(old(self).state().lexer, byte).escape,
            final(self).inner == old(self).inner,
            final(self).cursor == old(self).cursor,
            final(self).phase == old(self).phase,
            final(self).headers == old(self).headers,
            final(self).message == old(self).message,
            final(self).depth == old(self).depth,
            final(self).opened == old(self).opened,
    {
        if self.escape {
            self.escape = false;
        } else if byte == BACKSLASH {
            self.escape = true;
        } else if byte == QUOTE {
            self.in_string = false;
        }
    }

    /// Scans one body byte, and closes the message if the braces balance
    /// after it.
    fn parse_message(&mut self, byte: u8) -> (r: Option<Result<LspMessage, FrameError>>)
        requires
            old(self).wf(),
            old(self).phase == Phase::BodyScan,
        ensures
            final(self).wf(),
            final(self).state() == step(old(self).state(), byte).0,
            final(self).inner == old(self).inner,
            final(self).cursor == old(self).cursor,
            signalled(r, step(old(self).state(), byte).1),
            r matches Some(Ok(msg)) ==> well_formed(msg@),
    {
        proof {
            lemma_step_consistent(self.state(), byte);
        }
        self.message.push(byte);
        if self.in_string {
            self.parse_string(byte);
        } else if byte == QUOTE {
            self.in_string = true;
        } else if byte == OPEN_BRACE {
            self.depth = self.depth + 1;
            self.opened = true;
        } else if byte == CLOSE_BRACE {
            self.depth = self.depth - 1;
        }
        if !self.in_string && self.opened && self.depth == 0 {
            let valid = is_json(self.message.as_slice());
            let mut headers: Vec<u8> = Vec::with_capacity(64);
            let mut message: Vec<u8> = Vec::with_capacity(64);
            core::mem::swap(&mut self.headers, &mut headers);
            core::mem::swap(&mut self.message, &mut message);
            self.phase = Phase::HeaderScan;
            self.escape = false;
            self.opened = false;
            Some(Self::settle(headers, message, valid))
        } else {
            None
        }
    }

    /// Reads the next message out of the bytes held.
    ///
    /// The reader takes bytes up to the one that completes a message and no
    /// further, so what follows a message stays for the next call. If the
    /// bytes run out first, the call fails with `UnexpectedEof` and the reader
    /// keeps what it has scanned: after more bytes are fed, the next call goes
    /// on where this one stopped. After a message or a `MalformedMessage` the
    /// reader stands at the start of a message again. Every message that
    /// comes out is well formed.
    pub fn read_message(&mut self) -> (r: Result<LspMessage, FrameError>)
        requires
            old(self).wf(),
        ensures
            final(self).wf(),
            r matches Ok(msg) ==> well_formed(msg@),
            final(self).state() == pull(old(self).state(), old(self).unread()).state,
            final(self).unread() == old(self).unread().skip(
                pull(old(self).state(), old(self).unread()).used as int,
            ),
            match pull(old(self).state(), old(self).unread()).signal {
                Some(Signal::Emit(frame)) => r is Ok && r->Ok_0@ == frame,
                Some(Signal::Reject) => r == Err::<LspMessage, FrameError>(
                    FrameError::MalformedMessage,
                ),
                None => r == Err::<LspMessage, FrameError>(FrameError::UnexpectedEof),
            },
    {
        let ghost start = self.state();
        let ghost input = self.unread();
        let ghost mut used: nat = 0;
        assert(input.skip(0) =~= input);
        while self.cursor < self.inner.len()
            invariant
                self.wf(),
                start == old(self).state(),
                input == old(self).unread(),
                used <= input.len(),
                self.unread() == input.skip(used as int),
                pull(start, input).state == pull(self.state(), self.unread()).state,
                pull(start, input).signal == pull(self.state(), self.unread()).signal,
                pull(start, input).used == used + pull(self.state(), self.unread()).used,
            decreases self.inner.len() - self.cursor,
        {
            let ghost before = self.state();
            let ghost rest = self.unread();
            let byte = self.inner[self.cursor];
            self.cursor = self.cursor + 1;
            proof {
                assert(rest[0] == byte);
                assert(self.unread() =~= rest.drop_first());
                assert(input.skip(used as int).drop_first() =~= input.skip(used as int + 1));
                used = used + 1;
            }
            let closed = match self.phase {
                Phase::HeaderScan => {
                    self.parse_headers(byte);
                    None
                },
                Phase::BodyScan => self.parse_message(byte),
            };
            proof {
                let (next, signal) = step(before, byte);
                assert(self.state() == next);
                assert(signalled(closed, signal));
                assert(pull(before, rest) == if signal is Some {
                    Pull { state: next, signal, used: 1 }
                } else {
                    Pull {
                        used: pull(next, rest.drop_first()).used + 1,
                        ..pull(next, rest.drop_first())
                    }
                });
            }
            if let Some(outcome) = closed {
                return outcome;
            }
        }
        self.cursor = 0;
        self.inner.clear();
        Err(FrameError::UnexpectedEof)
    }
}

/// Whether `r` is what a reader hands out for `signal`.
pub open spec fn signalled(r: Option<Result<LspMessage, FrameError>>, signal: Option<Signal>) -> bool {
    match signal {
        Some(Signal::Emit(frame)) => r is Some && r->Some_0 is Ok && r->Some_0->Ok_0@ == frame,
        Some(Signal::Reject) => r == Some(
            Err::<LspMessage, FrameError>(FrameError::MalformedMessage),
        ),
        None => r is None,
    }
}

/// Relays the messages that `reader` holds to `write`: reads message after
/// message and appends each, header block then body, unchanged and in the
/// order read.
///
/// The relaying stops at the first failure of the reader and returns it:
/// `MalformedMessage` for a body that was rejected, `UnexpectedEof` where the
/// bytes ran out. In the second case the reader keeps the part of a message
/// that it has scanned.
pub fn copy_messages(reader: &mut LspMessageReader, write: &mut Vec<u8>) -> (stop: FrameError)
    requires
        old(reader).wf(),
    ensures
        final(reader).wf(),
        final(write)@ == old(write)@ + relay(old(reader).state(), old(reader).unread()).written,
        final(reader).state() == relay(old(reader).state(), old(reader).unread()).state,
        final(reader).unread() == old(reader).unread().skip(
            relay(old(reader).state(), old(reader).unread()).used as int,
        ),
        stop == (if relay(old(reader).state(), old(reader).unread()).rejected {
            FrameError::MalformedMessage
        } else {
            FrameError::UnexpectedEof
        }),
{
    let ghost start = reader.state();
    let ghost input = reader.unread();
    let ghost mut used: nat = 0;
    assert(input.skip(0) =~= input);
    assert(write@ + relay(start, input).written =~= old(write)@ + relay(start, input).written);
    loop
        invariant
            reader.wf(),
            start == old(reader).state(),
            input == old(reader).unread(),
            used <= input.len(),
            reader.unread() == input.skip(used as int),
            relay(start, input).state == relay(reader.state(), reader.unread()).state,
            relay(start, input).rejected == relay(reader.state(), reader.unread()).rejected,
            relay(start, input).used == used + relay(reader.state(), reader.unread()).used,
            old(write)@ + relay(start, input).written == write@ + relay(
                reader.state(),
                reader.unread(),
            ).written,
        decreases reader.unread().len(),
    {
        let ghost before = reader.state();
        let ghost rest = reader.unread();
        let ghost sink = write@;
        proof {
            lemma_relay_by_pull(before, rest);
            lemma_pull_heads_run(before, rest);
        }
        match reader.read_message() {
            Ok(msg) => {
                msg.write_into(write);
                proof {
                    let step = pull(before, rest).used;
                    assert(rest.skip(step as int) =~= input.skip(used as int + step));
                    used = used + step;
                    let later = relay(reader.state(), reader.unread()).written;
                    assert(sink + (wire(msg@) + later) =~= (sink + msg.headers@ + msg.message@)
                        + later);
                }
            },
            Err(stop) => {
                proof {
                    let step = pull(before, rest).used;
                    assert(rest.skip(step as int) =~= input.skip(used as int + step));
                    assert(sink + Seq::<u8>::empty() =~= sink);
                }
                return stop;
            },
        }
    }
}

} // verus!
