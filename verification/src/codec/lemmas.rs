//! Lemmas on the model of the framer: how the first delimiter and a step
//! behave when bytes are put behind a buffer, and what a step preserves.

use crate::codec::framing::{
    delimiter_free, first_delimiter, lemma_first_delimiter, lemma_first_delimiter_is,
    lemma_first_delimiter_skip, lemma_step_progress, FramerState, Outcome, Step,
};
use vstd::prelude::*;

verus! {

/// The first delimiter of two sequences in a row is that of the first
/// sequence, if it has one, and that of the second otherwise.
pub proof fn lemma_first_delimiter_append(a: Seq<u8>, b: Seq<u8>, delimiter: u8)
    ensures
        first_delimiter(a, delimiter) < a.len() ==> first_delimiter(a + b, delimiter)
            == first_delimiter(a, delimiter),
        first_delimiter(a, delimiter) >= a.len() ==> first_delimiter(a + b, delimiter) == a.len()
            + first_delimiter(b, delimiter),
{
    let whole = a + b;
    let at = first_delimiter(a, delimiter);
    lemma_first_delimiter(a, delimiter);
    lemma_first_delimiter(b, delimiter);
    if at < a.len() {
        let prefix = whole.take(at);
        assert forall|i: int| 0 <= i < prefix.len() implies prefix[i] != delimiter by {
            assert(prefix[i] == a.take(at)[i]);
        }
        lemma_first_delimiter_is(whole, delimiter, at);
    } else {
        let second = first_delimiter(b, delimiter);
        let prefix = whole.take(a.len() + second);
        assert forall|i: int| 0 <= i < prefix.len() implies prefix[i] != delimiter by {
            if i < a.len() {
                assert(prefix[i] == a.take(at)[i]);
            } else {
                assert(prefix[i] == b.take(second)[i - a.len()]);
            }
        }
        lemma_first_delimiter_is(whole, delimiter, a.len() + second);
    }
}

/// A sequence is free of the delimiter exactly when its first delimiter is
/// its length.
pub proof fn lemma_delimiter_free(bytes: Seq<u8>, delimiter: u8)
    ensures
        delimiter_free(bytes, delimiter) <==> first_delimiter(bytes, delimiter) == bytes.len(),
{
    lemma_first_delimiter(bytes, delimiter);
    if first_delimiter(bytes, delimiter) == bytes.len() {
        assert(bytes.take(bytes.len() as int) =~= bytes);
    }
}

/// Behind a searched prefix, the next delimiter is the first delimiter of the
/// whole buffer: the cursor saves work and changes nothing.
pub proof fn lemma_next_delimiter(state: FramerState, buf: Seq<u8>)
    requires
        state.scanned(buf),
    ensures
        state.next_delimiter(buf) == first_delimiter(buf, state.delimiter),
{
    let first = first_delimiter(buf, state.delimiter);
    lemma_first_delimiter(buf, state.delimiter);
    if first < state.scan_cursor {
        assert(buf.take(state.scan_cursor as int)[first] == buf[first]);
    }
    lemma_first_delimiter_skip(buf, state.delimiter, state.scan_cursor as int);
}

/// Bytes that arrive behind a delimiter do not move it.
pub proof fn lemma_next_delimiter_append(state: FramerState, buf: Seq<u8>, more: Seq<u8>)
    requires
        state.scan_cursor <= buf.len(),
    ensures
        state.next_delimiter(buf) < buf.len() ==> state.next_delimiter(buf + more)
            == state.next_delimiter(buf),
        state.next_delimiter(buf) >= buf.len() ==> state.next_delimiter(buf + more) == buf.len()
            + first_delimiter(more, state.delimiter),
{
    let behind = buf.skip(state.scan_cursor as int);
    assert((buf + more).skip(state.scan_cursor as int) =~= behind + more);
    lemma_first_delimiter_append(behind, more, state.delimiter);
}

/// A frame that a step in normal operation finds is found again, with the
/// same state afterwards, when more bytes stand behind the buffer; they stay
/// behind what is left.
pub proof fn lemma_scan_frame_append(state: FramerState, buf: Seq<u8>, more: Seq<u8>)
    requires
        state.scan_cursor <= buf.len(),
        state.scan(buf).outcome is Frame,
    ensures
        state.scan(buf + more) == (Step {
            outcome: state.scan(buf).outcome,
            state: state.scan(buf).state,
            rest: state.scan(buf).rest + more,
        }),
{
    let at = state.next_delimiter(buf);
    lemma_first_delimiter(buf.skip(state.scan_cursor as int), state.delimiter);
    lemma_next_delimiter_append(state, buf, more);
    assert((buf + more).take(at) =~= buf.take(at));
    assert((buf + more).skip(at + 1) =~= buf.skip(at + 1) + more);
}

/// An over-long message that a step in normal operation reports is reported
/// in the same way when more bytes stand behind the buffer.
pub proof fn lemma_scan_over_length_append(state: FramerState, buf: Seq<u8>, more: Seq<u8>)
    requires
        state.scan_cursor <= buf.len(),
        state.scan(buf).outcome is OverLength,
    ensures
        state.scan(buf + more) == (Step {
            outcome: Outcome::OverLength,
            state: state.scan(buf).state,
            rest: buf + more,
        }),
{
    lemma_first_delimiter(more, state.delimiter);
    lemma_next_delimiter_append(state, buf, more);
}

/// While discarding, a delimiter that is in the buffer ends the sweep at the
/// same place when more bytes stand behind the buffer.
pub proof fn lemma_sweep_append(state: FramerState, buf: Seq<u8>, more: Seq<u8>)
    requires
        state.scan_cursor <= buf.len(),
        state.next_delimiter(buf) < buf.len(),
    ensures
        state.sweep(buf + more) == state.resumed().scan(
            buf.skip(state.next_delimiter(buf) + 1) + more,
        ),
{
    let at = state.next_delimiter(buf);
    lemma_first_delimiter(buf.skip(state.scan_cursor as int), state.delimiter);
    lemma_next_delimiter_append(state, buf, more);
    assert((buf + more).skip(at + 1) =~= buf.skip(at + 1) + more);
}

/// While discarding, a buffer without a delimiter is dropped whole: a sweep
/// over it and more bytes is a sweep over those bytes alone.
pub proof fn lemma_sweep_drained_append(state: FramerState, buf: Seq<u8>, more: Seq<u8>)
    requires
        state.scan_cursor <= buf.len(),
        state.next_delimiter(buf) >= buf.len(),
    ensures
        state.sweep(buf + more) == state.rewound().sweep(more),
{
    let second = first_delimiter(more, state.delimiter);
    lemma_first_delimiter(more, state.delimiter);
    lemma_next_delimiter_append(state, buf, more);
    assert(more.skip(0) =~= more);
    if second < more.len() {
        assert((buf + more).skip(buf.len() + second + 1) =~= more.skip(second + 1));
    }
}

/// A step leaves a state whose cursor has only searched bytes in front of it.
pub proof fn lemma_step_scanned(state: FramerState, buf: Seq<u8>)
    requires
        state.scanned(buf),
    ensures
        state.step(buf).state.scanned(state.step(buf).rest),
        state.step(buf).state.delimiter == state.delimiter,
        state.step(buf).state.max_message_length == state.max_message_length,
{
    lemma_next_delimiter(state, buf);
    lemma_first_delimiter(buf, state.delimiter);
    let at = first_delimiter(buf, state.delimiter);
    if state.discarding && at < buf.len() {
        // The sweep ends at the delimiter, and a step of normal operation
        // follows on what stands behind it.
        let behind = buf.skip(at + 1);
        lemma_first_delimiter(behind, state.delimiter);
        assert(behind.take(behind.len() as int) =~= behind);
    }
}

/// What is left after draining a buffer has been searched up to the cursor.
pub proof fn lemma_drain_scanned(state: FramerState, buf: Seq<u8>)
    requires
        state.scanned(buf),
    ensures
        state.drain(buf).state.scanned(state.drain(buf).rest),
        state.drain(buf).state.delimiter == state.delimiter,
        state.drain(buf).state.max_message_length == state.max_message_length,
    decreases buf.len(), (if state.discarding { 0nat } else { 1nat }),
{
    let step = state.step(buf);
    lemma_step_scanned(state, buf);
    lemma_step_progress(state, buf);
    if step.outcome is Frame || (step.outcome is OverLength && step.rest.len() > 0) {
        lemma_drain_scanned(step.state, step.rest);
    }
}

} // verus!
