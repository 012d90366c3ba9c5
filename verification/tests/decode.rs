use bytes::BytesMut;
use chunk_codec::{ChunkCodec, ChunkCodecError};

fn message(text: &str) -> Result<Option<String>, ChunkCodecError> {
    Ok(Some(text.to_string()))
}

#[test]
fn decodes_one_line() {
    let mut codec = ChunkCodec::new(b'\n');
    let mut buf = BytesMut::from(&b"hello\n"[..]);
    assert_eq!(codec.decode(&mut buf), message("hello"));
    assert!(buf.is_empty());
    assert_eq!(codec.decode(&mut buf), Ok(None));
}

#[test]
fn decodes_several_lines_from_one_buffer() {
    let mut codec = ChunkCodec::new(b'\n');
    let mut buf = BytesMut::from(&b"one\ntwo\n\nthree"[..]);
    assert_eq!(codec.decode(&mut buf), message("one"));
    assert_eq!(&buf[..], b"two\n\nthree");
    assert_eq!(codec.decode(&mut buf), message("two"));
    assert_eq!(codec.decode(&mut buf), message(""));
    assert_eq!(codec.decode(&mut buf), Ok(None));
    assert_eq!(&buf[..], b"three");
}

#[test]
fn waits_for_the_delimiter() {
    let mut codec = ChunkCodec::new(b'\n');
    let mut buf = BytesMut::from(&b"abc"[..]);
    assert_eq!(codec.decode(&mut buf), Ok(None));
    assert_eq!(&buf[..], b"abc");
    assert_eq!(codec.next_index(), 3);
    buf.extend_from_slice(b"de\nf");
    assert_eq!(codec.decode(&mut buf), message("abcde"));
    assert_eq!(codec.next_index(), 0);
    assert_eq!(&buf[..], b"f");
}

#[test]
fn empty_buffer_is_incomplete() {
    let mut codec = ChunkCodec::new(b'\n');
    let mut buf = BytesMut::new();
    assert_eq!(codec.decode(&mut buf), Ok(None));
    assert_eq!(codec.next_index(), 0);
    assert!(buf.is_empty());
}

#[test]
fn keeps_a_carriage_return_in_front_of_the_delimiter() {
    let mut codec = ChunkCodec::new(b'\n');
    let mut buf = BytesMut::from(&b"hello\r\nworld\n"[..]);
    assert_eq!(codec.decode(&mut buf), message("hello\r"));
    assert_eq!(codec.decode(&mut buf), message("world"));
}

#[test]
fn splits_at_any_delimiter_byte() {
    let mut codec = ChunkCodec::new(0);
    let mut buf = BytesMut::from(&b"a\nb\0c;d\0"[..]);
    assert_eq!(codec.decode(&mut buf), message("a\nb"));
    assert_eq!(codec.decode(&mut buf), message("c;d"));
    assert_eq!(codec.decode(&mut buf), Ok(None));

    let mut codec = ChunkCodec::new(b';');
    let mut buf = BytesMut::from(&b"x;y"[..]);
    assert_eq!(codec.decode(&mut buf), message("x"));
    assert_eq!(codec.decode(&mut buf), Ok(None));
    assert_eq!(&buf[..], b"y");
}

#[test]
fn default_codec_splits_lines_without_a_bound() {
    let mut codec = ChunkCodec::default();
    assert_eq!(codec, ChunkCodec::new(b'\n'));
    let long = "x".repeat(100_000);
    let mut buf = BytesMut::from(long.as_bytes());
    assert_eq!(codec.decode(&mut buf), Ok(None));
    assert_eq!(codec.next_index(), 100_000);
    buf.extend_from_slice(b"\n");
    assert_eq!(codec.decode(&mut buf), Ok(Some(long)));
}

#[test]
fn decodes_multibyte_text() {
    let mut codec = ChunkCodec::new(b'\n');
    let mut buf = BytesMut::from("gr\u{fc}\u{df}e \u{4e16}\u{754c}\n".as_bytes());
    assert_eq!(codec.decode(&mut buf), message("gr\u{fc}\u{df}e \u{4e16}\u{754c}"));
}

#[test]
fn message_of_exactly_the_maximum_length_decodes() {
    let mut codec = ChunkCodec::new_with_max_length(b'\n', 5);
    let mut buf = BytesMut::from(&b"abcde\nxy"[..]);
    assert_eq!(codec.decode(&mut buf), message("abcde"));
    assert_eq!(&buf[..], b"xy");
}

#[test]
fn message_of_the_maximum_length_plus_one_is_reported_once() {
    let mut codec = ChunkCodec::new_with_max_length(b'\n', 5);
    let mut buf = BytesMut::from(&b"abcdef\nok\n"[..]);
    assert_eq!(codec.decode(&mut buf), Err(ChunkCodecError::MaxChunkLengthExceeded));
    assert_eq!(&buf[..], b"abcdef\nok\n");
    assert_eq!(codec.decode(&mut buf), message("ok"));
    assert_eq!(codec.decode(&mut buf), Ok(None));
    assert!(buf.is_empty());
}

#[test]
fn over_length_then_resume_across_chunks() {
    let mut codec = ChunkCodec::new_with_max_length(b'\n', 5);
    let mut buf = BytesMut::new();
    buf.extend_from_slice(b"ab");
    assert_eq!(codec.decode(&mut buf), Ok(None));
    buf.extend_from_slice(b"cdef\n");
    assert_eq!(codec.decode(&mut buf), Err(ChunkCodecError::MaxChunkLengthExceeded));
    buf.extend_from_slice(b"ok\n");
    assert_eq!(codec.decode(&mut buf), message("ok"));
}

#[test]
fn over_length_is_detected_before_the_delimiter_arrives() {
    let mut codec = ChunkCodec::new_with_max_length(b'\n', 3);
    let mut buf = BytesMut::from(&b"abcd"[..]);
    assert_eq!(codec.decode(&mut buf), Err(ChunkCodecError::MaxChunkLengthExceeded));
    assert_eq!(&buf[..], b"abcd");
    buf.extend_from_slice(b"efgh\nnext\nrst");
    // The sweep ends at the delimiter; what follows is over-long again.
    assert_eq!(codec.decode(&mut buf), Err(ChunkCodecError::MaxChunkLengthExceeded));
    assert_eq!(&buf[..], b"next\nrst");
    assert_eq!(codec.decode(&mut buf), Ok(None));
    assert_eq!(&buf[..], b"rst");
    assert_eq!(codec.next_index(), 3);
}

#[test]
fn over_length_seen_early_is_reported_once_when_the_delimiter_follows() {
    let mut codec = ChunkCodec::new_with_max_length(b'\n', 5);
    let mut buf = BytesMut::from(&b"abcdefg"[..]);
    assert_eq!(codec.decode(&mut buf), Err(ChunkCodecError::MaxChunkLengthExceeded));
    assert_eq!(&buf[..], b"abcdefg");
    buf.extend_from_slice(b"hi\nok\n");
    assert_eq!(codec.decode(&mut buf), message("ok"));
    assert_eq!(codec.decode(&mut buf), Ok(None));
}

#[test]
fn discarding_drops_a_buffer_without_delimiter() {
    let mut codec = ChunkCodec::new_with_max_length(b'\n', 2);
    let mut buf = BytesMut::from(&b"abcdefgh"[..]);
    assert_eq!(codec.decode(&mut buf), Err(ChunkCodecError::MaxChunkLengthExceeded));
    assert_eq!(buf.len(), 8);
    // The sweep finds no delimiter, empties the buffer and reports again.
    assert_eq!(codec.decode(&mut buf), Err(ChunkCodecError::MaxChunkLengthExceeded));
    assert!(buf.is_empty());
    assert_eq!(codec.next_index(), 0);
    buf.extend_from_slice(b"ij\nkl\n");
    assert_eq!(codec.decode(&mut buf), message("kl"));
    assert!(buf.is_empty());
}

#[test]
fn discarding_finds_a_delimiter_in_a_later_window() {
    let mut codec = ChunkCodec::new_with_max_length(b'\n', 2);
    let mut buf = BytesMut::from(&b"abcdefghij\nok\n"[..]);
    assert_eq!(codec.decode(&mut buf), Err(ChunkCodecError::MaxChunkLengthExceeded));
    assert_eq!(codec.decode(&mut buf), message("ok"));
    assert!(buf.is_empty());
}

#[test]
fn maximum_length_zero_admits_empty_messages_only() {
    let mut codec = ChunkCodec::new_with_max_length(b'\n', 0);
    let mut buf = BytesMut::from(&b"\n\na\n\n"[..]);
    assert_eq!(codec.decode(&mut buf), message(""));
    assert_eq!(codec.decode(&mut buf), message(""));
    assert_eq!(codec.decode(&mut buf), Err(ChunkCodecError::MaxChunkLengthExceeded));
    assert_eq!(codec.decode(&mut buf), message(""));
    assert_eq!(codec.decode(&mut buf), Ok(None));
}

#[test]
fn maximum_of_usize_max_is_no_bound() {
    let mut codec = ChunkCodec::new_with_max_length(b'\n', usize::MAX);
    assert_eq!(codec, ChunkCodec::new(b'\n'));
    let mut buf = BytesMut::from(&b"abcdefghijklmnopqrstuvwxyz"[..]);
    assert_eq!(codec.decode(&mut buf), Ok(None));
    buf.extend_from_slice(b"\n");
    assert_eq!(codec.decode(&mut buf), message("abcdefghijklmnopqrstuvwxyz"));
}

#[test]
fn invalid_text_is_an_error_for_its_message_only() {
    let mut codec = ChunkCodec::new(b'\n');
    let mut buf = BytesMut::from(&b"\xff\xfe\nfine\n"[..]);
    assert_eq!(codec.decode(&mut buf), Err(ChunkCodecError::InvalidEncoding));
    assert_eq!(&buf[..], b"fine\n");
    assert_eq!(codec.decode(&mut buf), message("fine"));
    assert_eq!(codec.decode(&mut buf), Ok(None));
}

#[test]
fn truncated_multibyte_text_is_invalid() {
    let mut codec = ChunkCodec::new(b'\n');
    let mut buf = BytesMut::from(&b"ab\xe4\xb8\nok\n"[..]);
    assert_eq!(codec.decode(&mut buf), Err(ChunkCodecError::InvalidEncoding));
    assert_eq!(codec.decode(&mut buf), message("ok"));
}

#[test]
fn clone_carries_the_state() {
    let mut codec = ChunkCodec::new_with_max_length(b'\n', 8);
    let mut buf = BytesMut::from(&b"abc"[..]);
    assert_eq!(codec.decode(&mut buf), Ok(None));
    let mut copy = codec.clone();
    assert_eq!(copy, codec);
    assert_eq!(copy.next_index(), 3);
    buf.extend_from_slice(b"d\n");
    assert_eq!(copy.decode(&mut buf), message("abcd"));
}
