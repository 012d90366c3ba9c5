//! The codec: a framer of delimited text on top of a byte buffer.

use crate::codec::buffer::{bytes_of, put, put_u8};
use crate::codec::framing::{
    delimiter_free, first_delimiter, framed, lemma_first_delimiter_in_window,
    lemma_first_delimiter_is, lemma_first_delimiter_skip, FramerState, CARRIAGE_RETURN,
};
use crate::codec::lemmas::lemma_step_scanned;
use crate::codec::text::{delivered, reply_view};
pub use crate::codec::text::{utf8, ChunkCodecError};
use bytes::{Buf, BytesMut};
use vstd::prelude::*;
use vstd::utf8::encode_utf8;

verus! {

/// A codec that splits a stream of bytes into chunks at a delimiter, and
/// writes chunks out with the delimiter behind them.
#[derive(Debug, Eq, PartialEq, Ord, PartialOrd, Hash)]
pub struct ChunkCodec {
    // The byte that ends a chunk.
    delimiter: u8,
    // The next index of the buffer to examine for a delimiter. If `decode`
    // was called with `abc`, this holds `3`; called again with `abcde\n`,
    // `decode` only looks at `de\n`.
    next_index: usize,
    // The maximum length of a chunk. With `usize::MAX`, chunks are read until
    // a delimiter is reached.
    max_length: usize,
    // Whether the remainder of a chunk that was over the length limit is
    // being discarded.
    is_discarding: bool,
}

/// The delimiter of the default codec.
pub const NEWLINE: u8 = 10;

/// The bound that a maximum length stands for: `usize::MAX` is no bound.
pub open spec fn bound_of(max_length: usize) -> Option<nat> {
    if max_length == usize::MAX {
        None
    } else {
        Some(max_length as nat)
    }
}

impl View for ChunkCodec {
    type V = FramerState;

    closed spec fn view(&self) -> FramerState {
        FramerState {
            delimiter: self.delimiter,
            scan_cursor: self.next_index as nat,
            max_message_length: bound_of(self.max_length),
            discarding: self.is_discarding,
        }
    }
}

impl Clone for ChunkCodec {
    fn clone(&self) -> (codec: ChunkCodec)
        ensures
            codec == *self,
    {
        proof {
            use_type_invariant(self);
        }
        ChunkCodec {
            delimiter: self.delimiter,
            next_index: self.next_index,
            max_length: self.max_length,
            is_discarding: self.is_discarding,
        }
    }
}

/// The offset of the first `delimiter` in `window`, if there is one.
fn position(window: &[u8], delimiter: u8) -> (offset: Option<usize>)
    ensures
        match offset {
            Some(at) => at < window@.len() && at == first_delimiter(window@, delimiter),
            None => first_delimiter(window@, delimiter) == window@.len(),
        },
{
    let mut at: usize = 0;
    while at < window.len()
        invariant
            at <= window@.len(),
            delimiter_free(window@.take(at as int), delimiter),
        decreases window@.len() - at,
    {
        if window[at] == delimiter {
            proof {
                lemma_first_delimiter_is(window@, delimiter, at as int);
            }
            return Some(at);
        }
        proof {
            let longer = window@.take(at + 1);
            assert forall|i: int| 0 <= i < longer.len() implies longer[i] != delimiter by {
                if i < at {
                    assert(longer[i] == window@.take(at as int)[i]);
                }
            }
        }
        at += 1;
    }
    proof {
        lemma_first_delimiter_is(window@, delimiter, at as int);
    }
    None
}

impl ChunkCodec {
    #[verifier::type_invariant]
    spec fn cursor_within_bound(self) -> bool {
        self.next_index <= self.max_length
    }

    /// Returns a `ChunkCodec` for splitting up data into chunks.
    ///
    /// The returned codec has no upper bound on the length of a buffered
    /// chunk. See [`ChunkCodec::new_with_max_length`] for why this can be a
    /// security risk.
    pub fn new(delimiter: u8) -> (codec: ChunkCodec)
        ensures
            codec@ == (FramerState {
                delimiter,
                scan_cursor: 0,
                max_message_length: None,
                discarding: false,
            }),
    {
        ChunkCodec { delimiter, next_index: 0, max_length: usize::MAX, is_discarding: false }
    }

    /// Returns a `ChunkCodec` with a maximum chunk length limit.
    ///
    /// With a limit, `decode` returns an error when a chunk exceeds it, and
    /// then discards the bytes of that chunk up to the next delimiter, after
    /// which it works as normal.
    ///
    /// Setting a limit is highly recommended for any codec that is exposed to
    /// untrusted input. Otherwise the buffer that holds the chunk being read
    /// is unbounded: a peer can exhaust memory by sending input without any
    /// delimiter.
    pub fn new_with_max_length(delimiter: u8, max_length: usize) -> (codec: ChunkCodec)
        ensures
            codec@ == (FramerState {
                delimiter,
                scan_cursor: 0,
                max_message_length: bound_of(max_length),
                discarding: false,
            }),
    {
        ChunkCodec { delimiter, next_index: 0, max_length, is_discarding: false }
    }

    /// The index of the buffer at which the next search for a delimiter
    /// starts.
    pub fn next_index(&self) -> (index: usize)
        ensures
            index == self@.scan_cursor,
    {
        self.next_index
    }

    /// Attempts to cut the next chunk off the front of `buf`.
    ///
    /// Returns the text of the chunk, without its delimiter, when `buf` holds
    /// a complete one; `None` when more bytes are needed; an error when the
    /// chunk at the front is longer than the limit or is not valid UTF-8. A
    /// carriage return in front of the delimiter is part of the chunk.
    ///
    /// `buf` has to be the buffer of the previous call with nothing but new
    /// bytes appended, so that the search can go on where it stopped.
    pub fn decode(&mut self, buf: &mut BytesMut) -> (res: Result<Option<String>, ChunkCodecError>)
        requires
            old(self)@.scan_cursor <= bytes_of(old(buf)).len(),
        ensures
            ({
                let step = old(self)@.step(bytes_of(old(buf)));
                &&& final(self)@ == step.state
                &&& bytes_of(final(buf)) == step.rest
                &&& reply_view(res) == delivered(step.outcome)
            }),
            final(self)@.accepts(bytes_of(final(buf))),
            old(self)@.scanned(bytes_of(old(buf))) ==> final(self)@.scanned(bytes_of(final(buf))),
    {
        proof {
            use_type_invariant(&*self);
            if self@.scanned(bytes_of(buf)) {
                lemma_step_scanned(self@, bytes_of(buf));
            }
        }
        let ghost first = self@.step(bytes_of(buf));
        loop
            invariant
                self.next_index <= self.max_length,
                self.next_index <= bytes_of(buf).len(),
                self@.step(bytes_of(buf)) == first,
                first == old(self)@.step(bytes_of(old(buf))),
                old(self)@.scanned(bytes_of(old(buf))) ==> first.state.scanned(first.rest),
            decreases (if self.is_discarding { 1int } else { 0int }), bytes_of(buf).len(),
        {
            let ghost held = bytes_of(buf);
            let ghost state = self@;
            // How far into the buffer to search for a delimiter: to its end,
            // or one byte past the length limit if that comes first.
            let limit = self.max_length.saturating_add(1);
            let read_to = if limit < buf.len() { limit } else { buf.len() };
            let window = vstd::slice::slice_subrange(&*buf, self.next_index, read_to);
            let newchunk_offset = position(window, self.delimiter);
            proof {
                lemma_first_delimiter_in_window(
                    held,
                    self.delimiter,
                    self.next_index as int,
                    read_to as int,
                );
            }
            if self.is_discarding {
                match newchunk_offset {
                    Some(offset) => {
                        // Discard up to and including the delimiter, and stop
                        // discarding: the next round reads a chunk normally.
                        buf.advance(offset + self.next_index + 1);
                        self.is_discarding = false;
                        self.next_index = 0;
                    },
                    None => {
                        // Discard everything that was searched; the next
                        // round goes on discarding unless it finds a delimiter.
                        buf.advance(read_to);
                        self.next_index = 0;
                        if buf.is_empty() {
                            return Err(ChunkCodecError::MaxChunkLengthExceeded);
                        }
                        proof {
                            let behind = held.skip(state.scan_cursor as int);
                            lemma_first_delimiter_skip(
                                behind,
                                self.delimiter,
                                read_to - state.scan_cursor,
                            );
                            assert(behind.skip(read_to - state.scan_cursor) == held.skip(
                                read_to as int,
                            ));
                            let at = state.next_delimiter(held);
                            assert(bytes_of(buf).skip(0) == bytes_of(buf));
                            if at < held.len() {
                                assert(held.skip(read_to as int).skip(at - read_to + 1)
                                    == held.skip(at + 1));
                            }
                        }
                    },
                }
            } else {
                match newchunk_offset {
                    Some(offset) => {
                        // Found a chunk.
                        let newchunk_index = offset + self.next_index;
                        self.next_index = 0;
                        let chunk = buf.split_to(newchunk_index + 1);
                        let chunk = vstd::slice::slice_subrange(&*chunk, 0, chunk.len() - 1);
                        assert(chunk@ == held.take(newchunk_index as int));
                        return match utf8(chunk) {
                            Ok(text) => Ok(Some(text.to_owned())),
                            Err(e) => Err(e),
                        };
                    },
                    None => {
                        if buf.len() > self.max_length {
                            // Reached the length limit without finding a
                            // delimiter: report it, and discard from the next
                            // call on.
                            self.is_discarding = true;
                            return Err(ChunkCodecError::MaxChunkLengthExceeded);
                        }
                        // Neither a chunk nor the limit: the next call resumes
                        // the search where this one stopped.
                        self.next_index = read_to;
                        return Ok(None);
                    },
                }
            }
        }
    }

    /// Attempts to cut the last chunk off `buf` when the stream has ended.
    ///
    /// Works as [`ChunkCodec::decode`] does. When that finds no complete
    /// chunk, the bytes that are left are the last chunk, although no
    /// delimiter ends them; but nothing is returned for an empty buffer, nor
    /// for one that holds a single carriage return.
    pub fn decode_eof(&mut self, buf: &mut BytesMut) -> (res: Result<
        Option<String>,
        ChunkCodecError,
    >)
        requires
            old(self)@.scan_cursor <= bytes_of(old(buf)).len(),
        ensures
            ({
                let step = old(self)@.finish(bytes_of(old(buf)));
                &&& final(self)@ == step.state
                &&& bytes_of(final(buf)) == step.rest
                &&& reply_view(res) == delivered(step.outcome)
            }),
            final(self)@.accepts(bytes_of(final(buf))),
            old(self)@.scanned(bytes_of(old(buf))) ==> final(self)@.scanned(bytes_of(final(buf))),
    {
        match self.decode(buf) {
            Err(e) => Err(e),
            Ok(Some(frame)) => Ok(Some(frame)),
            Ok(None) => {
                let ghost left = bytes_of(buf);
                let held: &[u8] = &*buf;
                proof {
                    if left.len() == 1 && left[0] == CARRIAGE_RETURN {
                        assert(left =~= seq![CARRIAGE_RETURN]);
                    }
                }
                if buf.is_empty() || (held.len() == 1 && held[0] == CARRIAGE_RETURN) {
                    Ok(None)
                } else {
                    // No terminating delimiter: what is left is the chunk.
                    let chunk = buf.split_to(buf.len());
                    self.next_index = 0;
                    assert(bytes_of(&chunk) == left);
                    match utf8(&*chunk) {
                        Ok(text) => Ok(Some(text.to_owned())),
                        Err(e) => Err(e),
                    }
                }
            },
        }
    }

    /// Appends `chunk` and one delimiter to `buf`.
    ///
    /// No length limit applies to what is written, and the codec is left as
    /// it is. Together with what it already holds, `buf` must be able to
    /// hold the chunk and its delimiter.
    pub fn encode(&mut self, chunk: &str, buf: &mut BytesMut) -> (res: Result<(), ChunkCodecError>)
        requires
            bytes_of(old(buf)).len() + encode_utf8(chunk@).len() + 1 <= isize::MAX,
        ensures
            res is Ok,
            *final(self) == *old(self),
            bytes_of(final(buf)) == bytes_of(old(buf)) + framed(
                encode_utf8(chunk@),
                old(self)@.delimiter,
            ),
    {
        buf.reserve(chunk.len() + 1);
        put(buf, chunk.as_bytes());
        put_u8(buf, self.delimiter);
        Ok(())
    }
}

impl Default for ChunkCodec {
    /// A codec for lines: the delimiter is the newline, and there is no bound.
    fn default() -> (codec: ChunkCodec)
        ensures
            codec@ == (FramerState {
                delimiter: NEWLINE,
                scan_cursor: 0,
                max_message_length: None,
                discarding: false,
            }),
    {
        ChunkCodec::new(NEWLINE)
    }
}

} // verus!
