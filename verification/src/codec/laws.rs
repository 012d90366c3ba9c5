//! What holds of the framer on every input.
//!
//! The statements of this module are about the model of
//! [`crate::codec::framing`], in which the contracts of the codec are
//! written: what they say of `step` holds of `decode`, and what they say of
//! `drain` holds of a caller that calls `decode` until it returns `None` or
//! has emptied the buffer.

use crate::codec::framing::{
    delimiter_free, first_delimiter, framed, lemma_first_delimiter, lemma_first_delimiter_is,
    lemma_step_progress, wire, Drain, FramerState, Outcome, Step,
};
use crate::codec::lemmas::{
    lemma_delimiter_free, lemma_drain_scanned, lemma_next_delimiter, lemma_scan_frame_append,
    lemma_scan_over_length_append, lemma_step_scanned, lemma_sweep_append,
    lemma_sweep_drained_append,
};
use crate::codec::text::{delivered, ChunkCodecError};
use vstd::prelude::*;
use vstd::utf8::{decode_utf8, encode_utf8, valid_utf8};

verus! {

/// The cursor is an optimisation: two framers that differ only in how far
/// they have searched a buffer find the same in it, leave the same bytes and
/// differ afterwards, if at all, only in their cursors again.
pub proof fn law_cursor_changes_nothing(a: FramerState, b: FramerState, buf: Seq<u8>)
    requires
        a.scanned(buf),
        b.scanned(buf),
        a.rewound() == b.rewound(),
    ensures
        a.step(buf).outcome == b.step(buf).outcome,
        a.step(buf).rest == b.step(buf).rest,
        a.step(buf).state.rewound() == b.step(buf).state.rewound(),
        a.drain(buf) == b.drain(buf),
    decreases buf.len(), (if a.discarding { 0nat } else { 1nat }),
{
    lemma_next_delimiter(a, buf);
    lemma_next_delimiter(b, buf);
    let step = a.step(buf);
    if step.outcome is OverLength && step.rest.len() > 0 {
        lemma_step_progress(a, buf);
        law_cursor_changes_nothing(step.state, b.step(buf).state, step.rest);
    }
}

/// Draining a buffer and then, with more bytes behind what was left, draining
/// again finds the frames that draining everything at once finds, and ends in
/// the same state with the same bytes left.
pub proof fn law_drain_in_two(state: FramerState, buf: Seq<u8>, more: Seq<u8>)
    requires
        state.scanned(buf),
    ensures
        ({
            let first = state.drain(buf);
            let second = first.state.drain(first.rest + more);
            state.drain(buf + more) == (Drain {
                frames: first.frames + second.frames,
                state: second.state,
                rest: second.rest,
            })
        }),
    decreases buf.len(), (if state.discarding { 0nat } else { 1nat }),
{
    let step = state.step(buf);
    let first = state.drain(buf);
    let second = first.state.drain(first.rest + more);
    let at = state.next_delimiter(buf);
    lemma_step_progress(state, buf);
    if state.discarding && at >= buf.len() {
        // Everything was dropped: the bytes that follow are swept alone.
        lemma_sweep_drained_append(state, buf, more);
    } else {
        // The step is one of normal operation, perhaps behind a delimiter
        // that ended a sweep.
        let scanner = if state.discarding { state.resumed() } else { state };
        let scanned = if state.discarding { buf.skip(at + 1) } else { buf };
        if state.discarding {
            lemma_sweep_append(state, buf, more);
        }
        match step.outcome {
            Outcome::Frame(bytes) => {
                lemma_scan_frame_append(scanner, scanned, more);
                law_drain_in_two(step.state, step.rest, more);
                let later = step.state.drain(step.rest);
                assert((seq![bytes] + later.frames) + second.frames =~= seq![bytes] + (later.frames
                    + second.frames));
            },
            Outcome::Incomplete => {
                // Nothing was cut off: only the cursor has moved.
                lemma_next_delimiter(scanner, scanned);
                lemma_first_delimiter(scanned, state.delimiter);
                lemma_delimiter_free(scanned, state.delimiter);
                assert((scanned + more).take(scanner.scan_cursor as int) =~= scanned.take(
                    scanner.scan_cursor as int,
                ));
                law_cursor_changes_nothing(scanner, step.state, scanned + more);
            },
            Outcome::OverLength => {
                lemma_scan_over_length_append(scanner, scanned, more);
                law_drain_in_two(step.state, step.rest, more);
            },
        }
    }
}

/// Chunk boundaries never affect the output: however a stream of bytes is
/// cut into chunks, feeding the chunks one by one finds the frames, in the
/// order, that are found when the whole stream is in the buffer at once, and
/// leaves the framer and the buffer as that does.
pub proof fn law_fragmentation_invariance(
    state: FramerState,
    held: Seq<u8>,
    chunks: Seq<Seq<u8>>,
)
    requires
        state.scanned(held),
    ensures
        state.feed(held, chunks) == state.drain(held + chunks.flatten()),
    decreases chunks.len(),
{
    if chunks.len() > 0 {
        let first = state.drain(held);
        let stream = chunks.drop_first().flatten();
        lemma_drain_scanned(state, held);
        assert((first.rest + chunks.first()).take(first.state.scan_cursor as int)
            =~= first.rest.take(first.state.scan_cursor as int));
        law_fragmentation_invariance(
            first.state,
            first.rest + chunks.first(),
            chunks.drop_first(),
        );
        law_drain_in_two(state, held, chunks.flatten());
        assert(first.rest + chunks.flatten() =~= (first.rest + chunks.first()) + stream);
    }
}

/// A message within the bound, followed by a delimiter, is cut off as a
/// frame, whatever stands behind the delimiter: also a message of exactly
/// the greatest length allowed.
pub proof fn law_message_within_bound(state: FramerState, message: Seq<u8>, tail: Seq<u8>)
    requires
        !state.discarding,
        state.wf(),
        state.scan_cursor <= message.len(),
        delimiter_free(message, state.delimiter),
        state.admits(message.len()),
    ensures
        state.step(framed(message, state.delimiter) + tail) == (Step {
            outcome: Outcome::Frame(message),
            state: state.rewound(),
            rest: tail,
        }),
{
    let buf = framed(message, state.delimiter) + tail;
    let behind = buf.skip(state.scan_cursor as int);
    let at = message.len() - state.scan_cursor;
    // The delimiter behind the message is the first one behind the cursor.
    assert(delimiter_free(behind.take(at), state.delimiter));
    lemma_first_delimiter_is(behind, state.delimiter, at);
    assert(buf.take(message.len() as int) =~= message);
    assert(buf.skip(message.len() as int + 1) =~= tail);
}

/// A message over the bound is reported once, and decoding resumes behind
/// its delimiter. The first step that sees more of the message than the bound
/// allows reports it and leaves the buffer as it is. The step after that, if
/// the delimiter has come by then, passes over the message in silence and is
/// a step of normal operation on what follows the delimiter.
pub proof fn law_over_length_reported_once(
    state: FramerState,
    message: Seq<u8>,
    tail: Seq<u8>,
    seen: int,
)
    requires
        !state.discarding,
        state.wf(),
        delimiter_free(message, state.delimiter),
        !state.admits(message.len()),
        0 <= seen <= message.len() + 1 + tail.len(),
        !state.admits(seen as nat),
    ensures
        ({
            let buf = framed(message, state.delimiter) + tail;
            let reported = state.step(buf.take(seen));
            &&& reported.outcome is OverLength
            &&& reported.state == (FramerState { discarding: true, ..state })
            &&& reported.rest == buf.take(seen)
            &&& reported.state.step(buf) == state.resumed().step(tail)
        }),
{
    let buf = framed(message, state.delimiter) + tail;
    let discarding = FramerState { discarding: true, ..state };
    // No delimiter lies in the window that the first step searches.
    let early = buf.take(seen).skip(state.scan_cursor as int);
    let found = first_delimiter(early, state.delimiter);
    lemma_first_delimiter(early, state.delimiter);
    if state.scan_cursor + found < message.len() && found < early.len() {
        assert(early[found] == message[state.scan_cursor + found]);
    }
    // The delimiter behind the message is the first one behind the cursor.
    let behind = buf.skip(state.scan_cursor as int);
    let at = message.len() - state.scan_cursor;
    assert(delimiter_free(behind.take(at), state.delimiter));
    lemma_first_delimiter_is(behind, state.delimiter, at);
    assert(buf.skip(message.len() as int + 1) =~= tail);
}

/// What the framer makes of a stream: from messages that are sent one
/// behind the other, each followed by a delimiter, it cuts those that are
/// within the bound, in their order, and passes over the others. Bytes of a
/// message that is not complete yet stay in the buffer if they are within the
/// bound, and are dropped if they are not.
pub proof fn law_drain_finds_the_messages(
    state: FramerState,
    messages: Seq<Seq<u8>>,
    remainder: Seq<u8>,
)
    requires
        !state.discarding,
        state.scan_cursor == 0,
        forall|i: int|
            0 <= i < messages.len() ==> delimiter_free(#[trigger] messages[i], state.delimiter),
        delimiter_free(remainder, state.delimiter),
    ensures
        ({
            let drained = state.drain(wire(messages, state.delimiter) + remainder);
            &&& drained.frames == state.admitted(messages)
            &&& state.admits(remainder.len()) ==> drained.rest == remainder && drained.state == (
            FramerState { scan_cursor: remainder.len(), ..state })
            &&& !state.admits(remainder.len()) ==> drained.rest == Seq::<u8>::empty()
                && drained.state == (FramerState { discarding: true, ..state })
        }),
    decreases messages.len(),
{
    let buf = wire(messages, state.delimiter) + remainder;
    let discarding = FramerState { discarding: true, ..state };
    if messages.len() == 0 {
        // Nothing but the remainder is in the buffer: it is kept, or
        // reported as over-long and then dropped.
        assert(remainder.skip(0) =~= remainder);
        lemma_delimiter_free(remainder, state.delimiter);
    } else {
        let message = messages.first();
        let later = messages.drop_first();
        let tail = wire(later, state.delimiter) + remainder;
        assert(buf =~= framed(message, state.delimiter) + tail);
        law_drain_finds_the_messages(state, later, remainder);
        if state.admits(message.len()) {
            law_message_within_bound(state, message, tail);
        } else {
            // The report leaves the buffer as it is; the sweep that follows
            // ends behind the message.
            law_over_length_reported_once(state, message, tail, buf.len() as int);
            assert(buf.take(buf.len() as int) =~= buf);
            assert(discarding.drain(buf) == state.drain(tail));
        }
    }
}

/// Encoding and decoding are inverse to each other: the wire form of a text
/// that holds no delimiter and is within the bound, alone in the buffer,
/// decodes to that text and leaves nothing behind.
pub proof fn law_round_trip(state: FramerState, text: Seq<char>)
    requires
        !state.discarding,
        state.scanned(framed(encode_utf8(text), state.delimiter)),
        delimiter_free(encode_utf8(text), state.delimiter),
        state.admits(encode_utf8(text).len()),
    ensures
        ({
            let step = state.step(framed(encode_utf8(text), state.delimiter));
            &&& delivered(step.outcome) == Ok::<Option<Seq<char>>, ChunkCodecError>(Some(text))
            &&& step.rest == Seq::<u8>::empty()
            &&& step.state == state.rewound()
        }),
{
    let wire = framed(encode_utf8(text), state.delimiter);
    if state.scan_cursor > encode_utf8(text).len() {
        // The cursor would stand behind the delimiter.
        assert(wire.take(state.scan_cursor as int)[encode_utf8(text).len() as int]
            == state.delimiter);
    }
    assert(wire + Seq::<u8>::empty() =~= wire);
    law_message_within_bound(state, encode_utf8(text), Seq::empty());
    vstd::utf8::encode_utf8_valid_utf8(text);
    vstd::utf8::encode_utf8_decode_utf8(text);
}

/// Bytes that are not valid text spoil their own message only: the error is
/// reported for it, and the message behind it decodes as usual.
pub proof fn law_invalid_text_is_contained(
    state: FramerState,
    bad: Seq<u8>,
    good: Seq<u8>,
    tail: Seq<u8>,
)
    requires
        !state.discarding,
        state.wf(),
        state.scan_cursor <= bad.len(),
        delimiter_free(bad, state.delimiter),
        delimiter_free(good, state.delimiter),
        state.admits(bad.len()),
        state.admits(good.len()),
        !valid_utf8(bad),
        valid_utf8(good),
    ensures
        ({
            let first = state.step(
                framed(bad, state.delimiter) + framed(good, state.delimiter) + tail,
            );
            let second = first.state.step(first.rest);
            &&& delivered(first.outcome) == Err::<Option<Seq<char>>, ChunkCodecError>(
                ChunkCodecError::InvalidEncoding,
            )
            &&& first.rest == framed(good, state.delimiter) + tail
            &&& delivered(second.outcome) == Ok::<Option<Seq<char>>, ChunkCodecError>(
                Some(decode_utf8(good)),
            )
            &&& second.rest == tail
        }),
{
    let behind = framed(good, state.delimiter) + tail;
    assert(framed(bad, state.delimiter) + framed(good, state.delimiter) + tail =~= framed(
        bad,
        state.delimiter,
    ) + behind);
    law_message_within_bound(state, bad, behind);
    law_message_within_bound(state.rewound(), good, tail);
}

/// A step keeps what the framer relies on. The delimiter and the bound stay
/// as they were made. What is left in the buffer is an end of what was in
/// it: bytes leave at the front only. The cursor stays within the buffer,
/// behind bytes that have been searched.
pub proof fn law_step_keeps_the_invariants(state: FramerState, buf: Seq<u8>)
    requires
        state.scanned(buf),
    ensures
        ({
            let next = state.step(buf);
            &&& next.state.delimiter == state.delimiter
            &&& next.state.max_message_length == state.max_message_length
            &&& exists|k: int| 0 <= k <= buf.len() && next.rest == #[trigger] buf.skip(k)
            &&& next.state.scanned(next.rest)
        }),
{
    let next = state.step(buf);
    let at = state.next_delimiter(buf);
    lemma_step_scanned(state, buf);
    lemma_first_delimiter(buf.skip(state.scan_cursor as int), state.delimiter);
    if state.discarding && at < buf.len() {
        let behind = buf.skip(at + 1);
        let found = state.resumed().next_delimiter(behind);
        lemma_first_delimiter(behind.skip(0), state.delimiter);
        if next.outcome is Frame {
            assert(next.rest =~= buf.skip(at + 1 + found + 1));
        } else {
            assert(next.rest == buf.skip(at + 1));
        }
    } else if state.discarding {
        assert(next.rest =~= buf.skip(buf.len() as int));
    } else if next.outcome is Frame {
        assert(next.rest == buf.skip(at + 1));
    } else {
        assert(next.rest =~= buf.skip(0));
    }
}

/// No frame is handed out while discarding, and none that holds a delimiter
/// or is longer than the bound: a step that yields a frame ends in normal
/// operation.
pub proof fn law_frames_are_sound(state: FramerState, buf: Seq<u8>)
    requires
        state.scanned(buf),
    ensures
        state.step(buf).outcome matches Outcome::Frame(bytes) ==> {
            &&& delimiter_free(bytes, state.delimiter)
            &&& state.admits(bytes.len())
            &&& !state.step(buf).state.discarding
        },
        state.step(buf).outcome is Incomplete ==> !state.step(buf).state.discarding,
{
    lemma_next_delimiter(state, buf);
    lemma_first_delimiter(buf, state.delimiter);
    let at = first_delimiter(buf, state.delimiter);
    if state.discarding && at < buf.len() {
        let behind = buf.skip(at + 1);
        assert(behind.skip(0) =~= behind);
        lemma_first_delimiter(behind, state.delimiter);
    }
}

} // verus!
