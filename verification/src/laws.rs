//! What holds of framing whatever the input: the laws that users of the reader
//! may rely on, each proved from the model.

use vstd::prelude::*;
use crate::scan::{
    balanced, classify, consistent, emits, ends_with_blank_line, fresh_lexer, in_body, in_headers,
    initial_state, is_body_block, is_header_block, lex, pull, relay, run, run_chunks, step,
    well_formed,
    wire, wire_all, Frame, Lexer, Phase, Pull, Relay, ScanState, Signal, BACKSLASH,
};

verus! {

/// The scanner starts out consistent.
pub proof fn lemma_initial_consistent()
    ensures
        consistent(initial_state()),
{
}

/// A byte keeps the scanner consistent, and a message that it emits is well
/// formed: its header block ends with its only blank line, and its body is a
/// JSON value whose braces balance at its last byte and not before.
pub proof fn lemma_step_consistent(state: ScanState, byte: u8)
    requires
        consistent(state),
    ensures
        consistent(step(state, byte).0),
        step(state, byte).1 matches Some(Signal::Emit(frame)) ==> well_formed(frame),
{
    match state.phase {
        Phase::HeaderScan => {
            let seen = state.headers;
            let headers = seen.push(byte);
            assert forall|k: int| 0 <= k < headers.len() implies !ends_with_blank_line(
                #[trigger] headers.take(k),
            ) by {
                assert(headers.take(k) =~= seen.take(k));
            }
            assert(headers.take(headers.len() as int) =~= headers);
            if ends_with_blank_line(headers) {
                assert(Seq::<u8>::empty().take(0) =~= Seq::<u8>::empty());
            }
        },
        Phase::BodyScan => {
            let seen = state.body;
            let body = seen.push(byte);
            assert(body.drop_last() =~= seen);
            assert forall|k: int| 0 <= k < body.len() implies !balanced(
                lex(#[trigger] body.take(k)),
            ) by {
                assert(body.take(k) =~= seen.take(k));
            }
            assert(body.take(body.len() as int) =~= body);
        },
    }
}

/// Reading any input keeps the scanner consistent, and every message emitted
/// on the way is well formed.
pub proof fn lemma_run_consistent(state: ScanState, input: Seq<u8>)
    requires
        consistent(state),
    ensures
        consistent(run(state, input).0),
        forall|i: int|
            0 <= i < run(state, input).1.len() ==> (#[trigger] run(state, input).1[i] matches Signal::Emit(
                frame,
            ) ==> well_formed(frame)),
    decreases input.len(),
{
    if input.len() > 0 {
        lemma_step_consistent(state, input[0]);
        lemma_run_consistent(step(state, input[0]).0, input.drop_first());
    }
}

/// Reading `a` and then `b` is reading `a + b`: the state at the end is the
/// same, and so are the signals.
pub proof fn lemma_run_concat(state: ScanState, a: Seq<u8>, b: Seq<u8>)
    ensures
        run(state, a + b).0 == run(run(state, a).0, b).0,
        run(state, a + b).1 == run(state, a).1 + run(run(state, a).0, b).1,
    decreases a.len(),
{
    if a.len() == 0 {
        assert(a + b =~= b);
        assert(run(state, a).1 + run(state, b).1 =~= run(state, b).1);
    } else {
        let (next, signal) = step(state, a[0]);
        assert((a + b)[0] == a[0]);
        assert((a + b).drop_first() =~= a.drop_first() + b);
        lemma_run_concat(next, a.drop_first(), b);
        let mid = run(next, a.drop_first());
        let end = run(mid.0, b);
        match signal {
            Some(s) => {
                assert(seq![s] + (mid.1 + end.1) =~= (seq![s] + mid.1) + end.1);
            },
            None => {},
        }
    }
}

/// How the bytes are cut into chunks does not matter: reading chunk after
/// chunk gives the state and the signals of reading all the bytes at once.
pub proof fn lemma_chunks_as_one(state: ScanState, chunks: Seq<Seq<u8>>)
    ensures
        run_chunks(state, chunks) == run(state, chunks.flatten()),
    decreases chunks.len(),
{
    if chunks.len() == 0 {
        assert(chunks.flatten() =~= Seq::<u8>::empty());
    } else {
        let next = run(state, chunks[0]).0;
        lemma_chunks_as_one(next, chunks.drop_first());
        lemma_run_concat(state, chunks[0], chunks.drop_first().flatten());
        assert(chunks.flatten() =~= chunks[0] + chunks.drop_first().flatten());
    }
}

/// Two ways of cutting the same bytes into chunks give the same messages.
pub proof fn lemma_chunking_is_immaterial(
    state: ScanState,
    chunks: Seq<Seq<u8>>,
    other: Seq<Seq<u8>>,
)
    requires
        chunks.flatten() == other.flatten(),
    ensures
        run_chunks(state, chunks) == run_chunks(state, other),
{
    lemma_chunks_as_one(state, chunks);
    lemma_chunks_as_one(state, other);
}

/// Reading up to the first signal takes the head off the run: the signals of
/// the whole input are that first signal, then the signals of what is left.
/// With no signal, all of the input is read.
pub proof fn lemma_pull_heads_run(state: ScanState, input: Seq<u8>)
    ensures
        pull(state, input).used <= input.len(),
        pull(state, input).signal is None ==> {
            &&& pull(state, input).used == input.len()
            &&& run(state, input) == (pull(state, input).state, Seq::<Signal>::empty())
        },
        pull(state, input).signal matches Some(first) ==> {
            let rest = run(
                pull(state, input).state,
                input.skip(pull(state, input).used as int),
            );
            &&& pull(state, input).used >= 1
            &&& run(state, input).0 == rest.0
            &&& run(state, input).1 == seq![first] + rest.1
        },
    decreases input.len(),
{
    if input.len() > 0 {
        let (next, signal) = step(state, input[0]);
        if signal is Some {
            assert(input.skip(1) =~= input.drop_first());
        } else {
            lemma_pull_heads_run(next, input.drop_first());
            let inner = pull(next, input.drop_first());
            assert(input.drop_first().skip(inner.used as int) =~= input.skip(inner.used as int + 1));
        }
    }
}

/// Inside a header block no byte raises a signal: after any part of the
/// block that stops short of its end the scanner is still in the headers.
pub proof fn lemma_headers_partial(headers: Seq<u8>, from: int, to: int)
    requires
        is_header_block(headers),
        0 <= from <= to < headers.len(),
    ensures
        run(in_headers(headers.take(from)), headers.subrange(from, to)) == (
            in_headers(headers.take(to)),
            Seq::<Signal>::empty(),
        ),
    decreases to - from,
{
    let input = headers.subrange(from, to);
    if from < to {
        assert(input[0] == headers[from]);
        assert(headers.take(from).push(headers[from]) =~= headers.take(from + 1));
        assert(input.drop_first() =~= headers.subrange(from + 1, to));
        assert(!ends_with_blank_line(headers.take(from + 1)));
        lemma_headers_partial(headers, from + 1, to);
    }
}

/// A whole header block takes the scanner from the start of a message to the
/// start of the body, with no signal.
pub proof fn lemma_headers_whole(headers: Seq<u8>)
    requires
        is_header_block(headers),
    ensures
        run(initial_state(), headers) == (
            in_body(headers, Seq::empty()),
            Seq::<Signal>::empty(),
        ),
{
    let n = headers.len() as int;
    let front = headers.subrange(0, n - 1);
    let back = seq![headers[n - 1]];
    lemma_headers_partial(headers, 0, n - 1);
    lemma_run_concat(in_headers(headers.take(0)), front, back);
    assert(headers.take(0) =~= Seq::<u8>::empty());
    assert(front + back =~= headers);
    assert(headers.take(n - 1).push(headers[n - 1]) =~= headers);
    assert(back.drop_first() =~= Seq::<u8>::empty());
    let at = in_headers(headers.take(n - 1));
    assert(run(step(at, back[0]).0, back.drop_first()).1 =~= Seq::<Signal>::empty());
    assert(run(at, back) == (in_body(headers, Seq::empty()), Seq::<Signal>::empty()));
    assert(run(in_headers(headers.take(0)), front).1 + run(at, back).1 =~= Seq::<
        Signal,
    >::empty());
}

/// Inside a body no byte raises a signal: after any part of the body that
/// stops short of its end the scanner is still in the body.
pub proof fn lemma_body_partial(headers: Seq<u8>, body: Seq<u8>, from: int, to: int)
    requires
        is_body_block(body),
        0 <= from <= to < body.len(),
    ensures
        run(in_body(headers, body.take(from)), body.subrange(from, to)) == (
            in_body(headers, body.take(to)),
            Seq::<Signal>::empty(),
        ),
    decreases to - from,
{
    let input = body.subrange(from, to);
    if from < to {
        assert(input[0] == body[from]);
        assert(body.take(from).push(body[from]) =~= body.take(from + 1));
        assert(body.take(from + 1).drop_last() =~= body.take(from));
        assert(input.drop_first() =~= body.subrange(from + 1, to));
        assert(!balanced(lex(body.take(from + 1))));
        lemma_body_partial(headers, body, from + 1, to);
    }
}

/// A whole body after its header block completes the message: one signal, at
/// the last byte, and the scanner is back at the start of a message.
pub proof fn lemma_body_whole(frame: Frame)
    requires
        is_body_block(frame.body),
    ensures
        run(in_body(frame.headers, Seq::empty()), frame.body) == (
            initial_state(),
            seq![
                if crate::json::json_valid(frame.body) {
                    Signal::Emit(frame)
                } else {
                    Signal::Reject
                },
            ],
        ),
{
    let body = frame.body;
    let n = body.len() as int;
    assert(n > 0) by {
        if n == 0 {
            assert(!balanced(lex(body)));
        }
    }
    let front = body.subrange(0, n - 1);
    let back = seq![body[n - 1]];
    lemma_body_partial(frame.headers, body, 0, n - 1);
    lemma_run_concat(in_body(frame.headers, body.take(0)), front, back);
    assert(body.take(0) =~= Seq::<u8>::empty());
    assert(front + back =~= body);
    assert(body.take(n - 1).push(body[n - 1]) =~= body);
    assert(body.drop_last() =~= body.take(n - 1));
    assert(back.drop_first() =~= Seq::<u8>::empty());
    let at = in_body(frame.headers, body.take(n - 1));
    let signal = if crate::json::json_valid(frame.body) {
        Signal::Emit(frame)
    } else {
        Signal::Reject
    };
    assert(step(at, back[0]) == (initial_state(), Some(signal)));
    assert(run(initial_state(), back.drop_first()).1 =~= Seq::<Signal>::empty());
    assert(run(at, back).1 =~= seq![signal]);
    assert(run(in_body(frame.headers, body.take(0)), front).1 + run(at, back).1 =~= seq![signal]);
}

/// One well-formed message on the wire gives exactly that message, and leaves
/// the scanner at the start of the next.
pub proof fn lemma_frame_round_trip(frame: Frame)
    requires
        well_formed(frame),
    ensures
        run(initial_state(), wire(frame)) == (initial_state(), seq![Signal::Emit(frame)]),
{
    lemma_headers_whole(frame.headers);
    lemma_body_whole(frame);
    lemma_run_concat(initial_state(), frame.headers, frame.body);
    assert(Seq::<Signal>::empty() + seq![Signal::Emit(frame)] =~= seq![Signal::Emit(frame)]);
}

/// Framing round trip: well-formed messages written one after the other are
/// read back as they were written, each whole, in order, with nothing added,
/// and the scanner ends at the start of a message.
pub proof fn lemma_round_trip(frames: Seq<Frame>)
    requires
        forall|i: int| 0 <= i < frames.len() ==> well_formed(#[trigger] frames[i]),
    ensures
        run(initial_state(), wire_all(frames)) == (initial_state(), emits(frames)),
    decreases frames.len(),
{
    if frames.len() == 0 {
        assert(emits(frames) =~= Seq::<Signal>::empty());
    } else {
        let rest = frames.drop_first();
        assert forall|i: int| 0 <= i < rest.len() implies well_formed(#[trigger] rest[i]) by {
            assert(rest[i] == frames[i + 1]);
        }
        lemma_frame_round_trip(frames[0]);
        lemma_round_trip(rest);
        lemma_run_concat(initial_state(), wire(frames[0]), wire_all(rest));
        assert(seq![Signal::Emit(frames[0])] + emits(rest) =~= emits(frames));
    }
}

/// Framing round trip in pieces: well-formed messages written one after the
/// other and delivered in chunks of any sizes, down to single bytes, are read
/// back as they were written.
pub proof fn lemma_round_trip_in_chunks(frames: Seq<Frame>, chunks: Seq<Seq<u8>>)
    requires
        forall|i: int| 0 <= i < frames.len() ==> well_formed(#[trigger] frames[i]),
        chunks.flatten() == wire_all(frames),
    ensures
        run_chunks(initial_state(), chunks) == (initial_state(), emits(frames)),
{
    lemma_chunks_as_one(initial_state(), chunks);
    lemma_round_trip(frames);
}

/// Reading message by message: from the start of a message, a well-formed
/// message followed by anything is read as that message, and exactly its
/// bytes are taken.
pub proof fn lemma_pull_frame(frame: Frame, rest: Seq<u8>)
    requires
        well_formed(frame),
    ensures
        pull(initial_state(), wire(frame) + rest) == (Pull {
            state: initial_state(),
            signal: Some(Signal::Emit(frame)),
            used: wire(frame).len(),
        }),
{
    lemma_pull_prefix(initial_state(), wire(frame), rest);
    lemma_frame_round_trip(frame);
    lemma_truncated(frame, wire(frame).len() - 1);
    lemma_lone_signal_is_last(initial_state(), wire(frame));
}

/// Truncation: a stream that ends inside a message, in its header block or in
/// its body, raises no signal, so no message comes out of the part that is
/// there.
pub proof fn lemma_truncated(frame: Frame, cut: int)
    requires
        is_header_block(frame.headers),
        is_body_block(frame.body),
        0 <= cut < wire(frame).len(),
    ensures
        run(initial_state(), wire(frame).take(cut)).1 == Seq::<Signal>::empty(),
        pull(initial_state(), wire(frame).take(cut)).signal is None,
        pull(initial_state(), wire(frame).take(cut)).used == cut,
{
    let headers = frame.headers;
    let body = frame.body;
    let part = wire(frame).take(cut);
    assert(headers.take(0) =~= Seq::<u8>::empty());
    if cut < headers.len() {
        lemma_headers_partial(headers, 0, cut);
        assert(part =~= headers.subrange(0, cut));
    } else {
        let k = cut - headers.len();
        lemma_headers_whole(headers);
        lemma_body_partial(headers, body, 0, k);
        assert(body.take(0) =~= Seq::<u8>::empty());
        lemma_run_concat(initial_state(), headers, body.subrange(0, k));
        assert(part =~= headers + body.subrange(0, k));
        assert(Seq::<Signal>::empty() + Seq::<Signal>::empty() =~= Seq::<Signal>::empty());
    }
    lemma_pull_heads_run(initial_state(), part);
    if pull(initial_state(), part).signal is Some {
        let first = pull(initial_state(), part).signal->Some_0;
        let rest = run(
            pull(initial_state(), part).state,
            part.skip(pull(initial_state(), part).used as int),
        );
        assert((seq![first] + rest.1).len() > 0);
    }
}

/// Truncation after whole messages: a stream of well-formed messages that
/// ends inside one more gives the whole messages and nothing else.
pub proof fn lemma_truncated_stream(frames: Seq<Frame>, last: Frame, cut: int)
    requires
        forall|i: int| 0 <= i < frames.len() ==> well_formed(#[trigger] frames[i]),
        is_header_block(last.headers),
        is_body_block(last.body),
        0 <= cut < wire(last).len(),
    ensures
        run(initial_state(), wire_all(frames) + wire(last).take(cut)).1 == emits(frames),
{
    lemma_round_trip(frames);
    lemma_truncated(last, cut);
    lemma_run_concat(initial_state(), wire_all(frames), wire(last).take(cut));
    assert(emits(frames) + Seq::<Signal>::empty() =~= emits(frames));
}

/// Reading up to the first signal looks no further: bytes after a prefix that
/// raises a signal change nothing, and bytes after a prefix that raises none
/// are read from the state that the prefix leaves.
pub proof fn lemma_pull_prefix(state: ScanState, a: Seq<u8>, b: Seq<u8>)
    ensures
        pull(state, a).signal is Some ==> pull(state, a + b) == pull(state, a),
        pull(state, a).signal is None ==> pull(state, a + b) == (Pull {
            used: a.len() + pull(pull(state, a).state, b).used,
            ..pull(pull(state, a).state, b)
        }),
    decreases a.len(),
{
    if a.len() == 0 {
        assert(a + b =~= b);
    } else {
        let (next, signal) = step(state, a[0]);
        assert((a + b)[0] == a[0]);
        assert((a + b).drop_first() =~= a.drop_first() + b);
        if signal is None {
            lemma_pull_prefix(next, a.drop_first(), b);
        }
    }
}

/// If all of `input` raises one signal and its proper prefix without the last
/// byte raises none, reading up to the first signal takes all of `input`.
pub proof fn lemma_lone_signal_is_last(state: ScanState, input: Seq<u8>)
    requires
        input.len() > 0,
        run(state, input).1.len() == 1,
        pull(state, input.drop_last()).signal is None,
    ensures
        pull(state, input).used == input.len(),
        pull(state, input).signal == Some(run(state, input).1[0]),
        pull(state, input).state == run(state, input).0,
{
    let front = input.drop_last();
    let back = seq![input.last()];
    assert(front + back =~= input);
    lemma_pull_prefix(state, front, back);
    lemma_pull_heads_run(state, front);
    lemma_pull_heads_run(state, input);
    let mid = pull(state, front).state;
    assert(pull(state, input).used == front.len() + pull(mid, back).used);
    if pull(state, input).signal is None {
        assert(run(state, input).1.len() == 0);
    }
    assert(back.drop_first() =~= Seq::<u8>::empty());
    assert(pull(mid, back).used == 1);
    assert(input.skip(input.len() as int) =~= Seq::<u8>::empty());
}

/// Quoted-brace immunity: inside a quoted section no byte, a brace least of
/// all, moves the depth or counts as an open brace.
pub proof fn lemma_quoted_bytes_keep_depth(lexer: Lexer, byte: u8)
    requires
        lexer.in_string,
    ensures
        classify(lexer, byte).depth == lexer.depth,
        classify(lexer, byte).opened == lexer.opened,
{
}

/// Escape handling: inside a quoted section the byte after a backslash, a
/// quote too, leaves the scanner inside the section, as it was before the
/// backslash.
pub proof fn lemma_escaped_byte_stays_quoted(lexer: Lexer, byte: u8)
    requires
        lexer.in_string,
        !lexer.escape,
    ensures
        classify(classify(lexer, BACKSLASH), byte) == lexer,
{
}

/// Relaying goes message by message: it is reading up to the first signal,
/// writing the message if that signal is one, and relaying what is left.
pub proof fn lemma_relay_by_pull(state: ScanState, input: Seq<u8>)
    ensures
        match pull(state, input).signal {
            None => relay(state, input) == (Relay {
                state: pull(state, input).state,
                written: Seq::empty(),
                rejected: false,
                used: input.len(),
            }),
            Some(Signal::Reject) => relay(state, input) == (Relay {
                state: pull(state, input).state,
                written: Seq::empty(),
                rejected: true,
                used: pull(state, input).used,
            }),
            Some(Signal::Emit(frame)) => {
                let rest = relay(
                    pull(state, input).state,
                    input.skip(pull(state, input).used as int),
                );
                relay(state, input) == (Relay {
                    written: wire(frame) + rest.written,
                    used: pull(state, input).used + rest.used,
                    ..rest
                })
            },
        },
    decreases input.len(),
{
    if input.len() > 0 {
        let (next, signal) = step(state, input[0]);
        if signal is Some {
            assert(input.skip(1) =~= input.drop_first());
        } else {
            lemma_relay_by_pull(next, input.drop_first());
            lemma_pull_heads_run(next, input.drop_first());
            let inner = pull(next, input.drop_first());
            assert(input.drop_first().skip(inner.used as int) =~= input.skip(inner.used as int + 1));
        }
    }
}

/// Pass-through: a stream of well-formed messages is relayed byte for byte,
/// in order, to its end.
pub proof fn lemma_relay_verbatim(frames: Seq<Frame>)
    requires
        forall|i: int| 0 <= i < frames.len() ==> well_formed(#[trigger] frames[i]),
    ensures
        relay(initial_state(), wire_all(frames)) == (Relay {
            state: initial_state(),
            written: wire_all(frames),
            rejected: false,
            used: wire_all(frames).len(),
        }),
    decreases frames.len(),
{
    if frames.len() > 0 {
        let rest = frames.drop_first();
        assert forall|i: int| 0 <= i < rest.len() implies well_formed(#[trigger] rest[i]) by {
            assert(rest[i] == frames[i + 1]);
        }
        let first = wire(frames[0]);
        let later = wire_all(rest);
        lemma_pull_frame(frames[0], later);
        lemma_relay_by_pull(initial_state(), first + later);
        lemma_relay_verbatim(rest);
        assert((first + later).skip(first.len() as int) =~= later);
    }
}

} // verus!
