use bytes::BytesMut;
use chunk_codec::{utf8, ChunkCodec, ChunkCodecError};

#[test]
fn encode_appends_the_message_and_one_delimiter() {
    let mut codec = ChunkCodec::new(b'\n');
    let mut buf = BytesMut::new();
    assert_eq!(codec.encode("hello", &mut buf), Ok(()));
    assert_eq!(&buf[..], b"hello\n");
    assert_eq!(codec.encode("", &mut buf), Ok(()));
    assert_eq!(codec.encode("w\u{f6}rld", &mut buf), Ok(()));
    assert_eq!(&buf[..], b"hello\n\nw\xc3\xb6rld\n");
}

#[test]
fn encode_uses_the_delimiter_of_the_codec() {
    let mut codec = ChunkCodec::new(b'|');
    let mut buf = BytesMut::from(&b"kept"[..]);
    assert_eq!(codec.encode("a", &mut buf), Ok(()));
    assert_eq!(&buf[..], b"kepta|");
}

#[test]
fn encode_ignores_the_length_limit_and_the_state() {
    let mut codec = ChunkCodec::new_with_max_length(b'\n', 2);
    let before = codec.clone();
    let mut buf = BytesMut::new();
    assert_eq!(codec.encode("longer than two", &mut buf), Ok(()));
    assert_eq!(&buf[..], b"longer than two\n");
    assert_eq!(codec, before);
}

#[test]
fn round_trip_gives_the_message_back() {
    for text in ["", "x", "hello world", "tab\tand\rreturn", "\u{1f980} crab"] {
        let mut codec = ChunkCodec::new(b'\n');
        let mut buf = BytesMut::new();
        assert_eq!(codec.encode(text, &mut buf), Ok(()));
        assert_eq!(codec.decode(&mut buf), Ok(Some(text.to_string())));
        assert!(buf.is_empty());
        assert_eq!(codec.decode(&mut buf), Ok(None));
    }
}

#[test]
fn round_trip_of_several_messages() {
    let mut codec = ChunkCodec::new_with_max_length(0, 16);
    let mut buf = BytesMut::new();
    for text in ["first", "second line\n", "third"] {
        assert_eq!(codec.encode(text, &mut buf), Ok(()));
    }
    assert_eq!(codec.decode(&mut buf), Ok(Some("first".to_string())));
    assert_eq!(codec.decode(&mut buf), Ok(Some("second line\n".to_string())));
    assert_eq!(codec.decode(&mut buf), Ok(Some("third".to_string())));
    assert_eq!(codec.decode(&mut buf), Ok(None));
}

#[test]
fn a_message_with_a_delimiter_inside_comes_back_in_pieces() {
    let mut codec = ChunkCodec::new(b'\n');
    let mut buf = BytesMut::new();
    assert_eq!(codec.encode("a\nb", &mut buf), Ok(()));
    assert_eq!(codec.decode(&mut buf), Ok(Some("a".to_string())));
    assert_eq!(codec.decode(&mut buf), Ok(Some("b".to_string())));
}

#[test]
fn utf8_reads_valid_text() {
    assert_eq!(utf8(b"plain"), Ok("plain"));
    assert_eq!(utf8(b""), Ok(""));
    assert_eq!(utf8("\u{20ac}".as_bytes()), Ok("\u{20ac}"));
}

#[test]
fn utf8_rejects_invalid_text() {
    assert_eq!(utf8(b"\xff"), Err(ChunkCodecError::InvalidEncoding));
    assert_eq!(utf8(b"ok\xc0\xaf"), Err(ChunkCodecError::InvalidEncoding));
    assert_eq!(utf8(b"\xed\xa0\x80"), Err(ChunkCodecError::InvalidEncoding));
}

#[test]
fn errors_describe_themselves() {
    assert_eq!(
        ChunkCodecError::MaxChunkLengthExceeded.to_string(),
        "max chunk length exceeded"
    );
    assert_eq!(
        ChunkCodecError::InvalidEncoding.to_string(),
        "Unable to decode input as UTF8"
    );
}
