//! The mathematical model of the framer.
//!
//! A framer is a small state machine over the bytes that have been received
//! and not yet attributed to a message. One [`FramerState::step`] looks at
//! those bytes and either cuts a frame off their front, reports that a frame
//! has grown past the configured bound, or asks for more input. Nothing here
//! is executable: the functions of this module are what the contracts of the
//! codec are written in.

use vstd::prelude::*;

verus! {

/// The byte that `decode_eof` ignores when it is all that is left of a stream.
pub const CARRIAGE_RETURN: u8 = 13;

/// The index of the first occurrence of `delimiter` in `bytes`, or the length
/// of `bytes` when there is none.
pub open spec fn first_delimiter(bytes: Seq<u8>, delimiter: u8) -> int
    decreases bytes.len(),
{
    if bytes.len() == 0 || bytes[0] == delimiter {
        0
    } else {
        1 + first_delimiter(bytes.skip(1), delimiter)
    }
}

/// `delimiter` occurs nowhere in `bytes`.
pub open spec fn delimiter_free(bytes: Seq<u8>, delimiter: u8) -> bool {
    forall|i: int| 0 <= i < bytes.len() ==> bytes[i] != delimiter
}

/// The wire form of a message: its bytes, then one delimiter.
pub open spec fn framed(payload: Seq<u8>, delimiter: u8) -> Seq<u8> {
    payload.push(delimiter)
}

/// The wire form of messages in a row.
pub open spec fn wire(messages: Seq<Seq<u8>>, delimiter: u8) -> Seq<u8>
    decreases messages.len(),
{
    if messages.len() == 0 {
        Seq::empty()
    } else {
        framed(messages.first(), delimiter) + wire(messages.drop_first(), delimiter)
    }
}

/// The state that a framer carries from one call to the next.
pub struct FramerState {
    /// The byte that ends a message.
    pub delimiter: u8,
    /// The first index of the buffer that has not been searched yet.
    pub scan_cursor: nat,
    /// The longest message that is accepted, `None` when there is no bound.
    pub max_message_length: Option<nat>,
    /// Whether the rest of an over-long message is being dropped.
    pub discarding: bool,
}

/// What one step of the framer finds.
pub enum Outcome {
    /// A complete frame: the bytes in front of a delimiter.
    Frame(Seq<u8>),
    /// No complete frame yet; more input is needed.
    Incomplete,
    /// A frame is longer than the bound allows.
    OverLength,
}

/// The result of one step: what was found, the state afterwards and the bytes
/// that stay in the buffer.
pub struct Step {
    pub outcome: Outcome,
    pub state: FramerState,
    pub rest: Seq<u8>,
}

/// What is cut from a buffer by stepping until it yields no more, and what is
/// left afterwards.
pub struct Drain {
    /// The frames found, in the order in which they were found.
    pub frames: Seq<Seq<u8>>,
    /// The state after the last step.
    pub state: FramerState,
    /// The bytes that stay in the buffer.
    pub rest: Seq<u8>,
}

impl FramerState {
    /// The cursor lies within the bound.
    pub open spec fn wf(self) -> bool {
        self.max_message_length matches Some(max) ==> self.scan_cursor <= max
    }

    /// The state can be used with `buf`: the cursor points into it.
    pub open spec fn accepts(self, buf: Seq<u8>) -> bool {
        self.wf() && self.scan_cursor <= buf.len()
    }

    /// The bytes of `buf` that lie in front of the cursor hold no delimiter,
    /// as is the case when they have been searched before.
    pub open spec fn scanned(self, buf: Seq<u8>) -> bool {
        self.accepts(buf) && delimiter_free(buf.take(self.scan_cursor as int), self.delimiter)
    }

    /// A message of `len` bytes is within the bound.
    pub open spec fn admits(self, len: nat) -> bool {
        self.max_message_length matches Some(max) ==> len <= max
    }

    /// Those of `messages` that are within the bound, in their order.
    pub open spec fn admitted(self, messages: Seq<Seq<u8>>) -> Seq<Seq<u8>>
        decreases messages.len(),
    {
        if messages.len() == 0 {
            Seq::empty()
        } else if self.admits(messages.first().len()) {
            seq![messages.first()] + self.admitted(messages.drop_first())
        } else {
            self.admitted(messages.drop_first())
        }
    }

    /// Where the search for a delimiter stops in a buffer of `len` bytes: one
    /// byte past the bound, or at the end of the buffer if that comes first.
    pub open spec fn window_end(self, len: nat) -> nat {
        match self.max_message_length {
            Some(max) => if max + 1 <= len {
                max + 1
            } else {
                len
            },
            None => len,
        }
    }

    /// The index of the first delimiter at or behind the cursor, or the length
    /// of `buf` when there is none.
    pub open spec fn next_delimiter(self, buf: Seq<u8>) -> int {
        self.scan_cursor + first_delimiter(buf.skip(self.scan_cursor as int), self.delimiter)
    }

    /// The same framer, ready to search a buffer from its start.
    pub open spec fn rewound(self) -> FramerState {
        FramerState { scan_cursor: 0, ..self }
    }

    /// The same framer, back in normal operation at the start of a buffer.
    pub open spec fn resumed(self) -> FramerState {
        FramerState { scan_cursor: 0, discarding: false, ..self }
    }

    /// A step in normal operation. A delimiter inside the search window ends a
    /// frame, which leaves the buffer together with its delimiter. Without
    /// one, a buffer that already holds more than a message may is an
    /// over-long message, and the framer starts to discard; a shorter buffer
    /// is left as it is and the cursor remembers how far the search went.
    pub open spec fn scan(self, buf: Seq<u8>) -> Step {
        let at = self.next_delimiter(buf);
        if at < self.window_end(buf.len()) {
            Step {
                outcome: Outcome::Frame(buf.take(at)),
                state: self.rewound(),
                rest: buf.skip(at + 1),
            }
        } else if !self.admits(buf.len()) {
            Step {
                outcome: Outcome::OverLength,
                state: FramerState { discarding: true, ..self },
                rest: buf,
            }
        } else {
            Step {
                outcome: Outcome::Incomplete,
                state: FramerState { scan_cursor: buf.len(), ..self },
                rest: buf,
            }
        }
    }

    /// A step while discarding. Everything up to and including the next
    /// delimiter is dropped and normal operation resumes at once on what
    /// follows it. Without a delimiter the whole buffer is dropped and the
    /// over-long message is reported again.
    pub open spec fn sweep(self, buf: Seq<u8>) -> Step {
        let at = self.next_delimiter(buf);
        if at < buf.len() {
            self.resumed().scan(buf.skip(at + 1))
        } else {
            Step { outcome: Outcome::OverLength, state: self.rewound(), rest: Seq::empty() }
        }
    }

    /// One call of `decode` on a buffer that holds `buf`.
    pub open spec fn step(self, buf: Seq<u8>) -> Step {
        if self.discarding {
            self.sweep(buf)
        } else {
            self.scan(buf)
        }
    }

    /// One call of `decode_eof`: a step, after which bytes that are left
    /// without a delimiter form a last frame, unless there are none or they
    /// are a lone carriage return.
    pub open spec fn finish(self, buf: Seq<u8>) -> Step {
        let step = self.step(buf);
        if step.outcome is Incomplete && step.rest.len() > 0 && step.rest != seq![
            CARRIAGE_RETURN,
        ] {
            Step {
                outcome: Outcome::Frame(step.rest),
                state: step.state.rewound(),
                rest: Seq::empty(),
            }
        } else {
            step
        }
    }

    /// Steps through `buf` until the framer asks for more input, or has
    /// dropped all of it while discarding. The frames found on the way are
    /// collected; reports of over-long messages are passed over.
    pub open spec fn drain(self, buf: Seq<u8>) -> Drain
        decreases buf.len(), (if self.discarding { 0nat } else { 1nat }),
    {
        let step = self.step(buf);
        match step.outcome {
            Outcome::Frame(bytes) => {
                proof {
                    lemma_step_progress(self, buf);
                }
                let later = step.state.drain(step.rest);
                Drain { frames: seq![bytes] + later.frames, ..later }
            },
            Outcome::Incomplete => Drain {
                frames: Seq::empty(),
                state: step.state,
                rest: step.rest,
            },
            Outcome::OverLength => if step.rest.len() == 0 {
                Drain { frames: Seq::empty(), state: step.state, rest: step.rest }
            } else {
                proof {
                    lemma_step_progress(self, buf);
                }
                step.state.drain(step.rest)
            },
        }
    }

    /// Drains a buffer that holds `held` and then receives `chunks` one at a
    /// time: each chunk is put behind what the buffer still holds, and the
    /// buffer is drained again.
    pub open spec fn feed(self, held: Seq<u8>, chunks: Seq<Seq<u8>>) -> Drain
        decreases chunks.len(),
    {
        let first = self.drain(held);
        if chunks.len() == 0 {
            first
        } else {
            let later = first.state.feed(first.rest + chunks.first(), chunks.drop_first());
            Drain { frames: first.frames + later.frames, ..later }
        }
    }
}

/// `first_delimiter` is the least index that holds the delimiter.
pub proof fn lemma_first_delimiter(bytes: Seq<u8>, delimiter: u8)
    ensures
        0 <= first_delimiter(bytes, delimiter) <= bytes.len(),
        delimiter_free(bytes.take(first_delimiter(bytes, delimiter)), delimiter),
        first_delimiter(bytes, delimiter) < bytes.len() ==> bytes[first_delimiter(
            bytes,
            delimiter,
        )] == delimiter,
    decreases bytes.len(),
{
    if bytes.len() == 0 || bytes[0] == delimiter {
    } else {
        let tail = bytes.skip(1);
        lemma_first_delimiter(tail, delimiter);
        let at = first_delimiter(bytes, delimiter);
        let prefix = bytes.take(at);
        assert forall|i: int| 0 <= i < prefix.len() implies prefix[i] != delimiter by {
            if i > 0 {
                assert(prefix[i] == tail.take(at - 1)[i - 1]);
            }
        }
    }
}

/// An index that holds the delimiter behind a delimiter-free prefix is the
/// first delimiter; so is the length of a sequence without a delimiter.
pub proof fn lemma_first_delimiter_is(bytes: Seq<u8>, delimiter: u8, at: int)
    requires
        0 <= at <= bytes.len(),
        delimiter_free(bytes.take(at), delimiter),
        at < bytes.len() ==> bytes[at] == delimiter,
    ensures
        first_delimiter(bytes, delimiter) == at,
    decreases bytes.len(),
{
    if bytes.len() == 0 {
    } else if bytes[0] == delimiter {
        if at > 0 {
            assert(bytes.take(at)[0] == delimiter);
        }
    } else {
        let tail = bytes.skip(1);
        let prefix = tail.take(at - 1);
        assert forall|i: int| 0 <= i < prefix.len() implies prefix[i] != delimiter by {
            assert(prefix[i] == bytes.take(at)[i + 1]);
        }
        lemma_first_delimiter_is(tail, delimiter, at - 1);
    }
}

/// Searching the window of `bytes` from `from` to `to` finds the first
/// delimiter behind `from` when that lies inside the window, and shows that
/// none lies inside it otherwise.
pub proof fn lemma_first_delimiter_in_window(bytes: Seq<u8>, delimiter: u8, from: int, to: int)
    requires
        0 <= from <= to <= bytes.len(),
    ensures
        first_delimiter(bytes.subrange(from, to), delimiter) < to - from ==> first_delimiter(
            bytes.skip(from),
            delimiter,
        ) == first_delimiter(bytes.subrange(from, to), delimiter),
        first_delimiter(bytes.subrange(from, to), delimiter) >= to - from ==> first_delimiter(
            bytes.skip(from),
            delimiter,
        ) >= to - from,
{
    let window = bytes.subrange(from, to);
    let behind = bytes.skip(from);
    let found = first_delimiter(window, delimiter);
    lemma_first_delimiter(window, delimiter);
    lemma_first_delimiter(behind, delimiter);
    if found < to - from {
        let prefix = behind.take(found);
        assert forall|i: int| 0 <= i < prefix.len() implies prefix[i] != delimiter by {
            assert(prefix[i] == window.take(found)[i]);
        }
        lemma_first_delimiter_is(behind, delimiter, found);
    } else {
        let at = first_delimiter(behind, delimiter);
        if at < to - from {
            assert(window.take(found)[at] == behind[at]);
        }
    }
}

/// The first delimiter of `bytes` is found behind any prefix that it does not
/// lie in.
pub proof fn lemma_first_delimiter_skip(bytes: Seq<u8>, delimiter: u8, k: int)
    requires
        0 <= k <= first_delimiter(bytes, delimiter),
    ensures
        first_delimiter(bytes, delimiter) == k + first_delimiter(bytes.skip(k), delimiter),
{
    let at = first_delimiter(bytes, delimiter);
    let behind = bytes.skip(k);
    lemma_first_delimiter(bytes, delimiter);
    let prefix = behind.take(at - k);
    assert forall|i: int| 0 <= i < prefix.len() implies prefix[i] != delimiter by {
        assert(prefix[i] == bytes.take(at)[i + k]);
    }
    lemma_first_delimiter_is(behind, delimiter, at - k);
}

/// A step that yields a frame shortens the buffer. One that reports an
/// over-long message empties or shortens it, or leaves it as it is and starts
/// to discard.
pub proof fn lemma_step_progress(state: FramerState, buf: Seq<u8>)
    ensures
        state.step(buf).outcome is Frame ==> state.step(buf).rest.len() < buf.len(),
        state.step(buf).outcome is OverLength ==> state.step(buf).rest.len() == 0
            || state.step(buf).rest.len() < buf.len() || (state.step(buf).rest == buf
            && !state.discarding && state.step(buf).state.discarding),
{
    lemma_first_delimiter(buf.skip(state.scan_cursor as int), state.delimiter);
    if state.discarding {
        let at = state.next_delimiter(buf);
        if at < buf.len() {
            lemma_first_delimiter(buf.skip(at + 1).skip(0), state.delimiter);
        }
    }
}

} // verus!
