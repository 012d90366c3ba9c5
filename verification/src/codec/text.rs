//! Messages are text: the bytes of a frame have to be valid UTF-8.

use crate::codec::framing::Outcome;
use std::str::Utf8Error;
use vstd::prelude::*;
use vstd::utf8::{decode_utf8, encode_utf8, valid_utf8};

verus! {

/// `std::str::Utf8Error`, the error of `std::str::from_utf8`, known to the
/// verifier by name only.
#[verifier::external_type_specification]
#[verifier::external_body]
pub struct ExUtf8Error(Utf8Error);

/// `std::str::from_utf8`: succeeds exactly on valid UTF-8 and then returns the
/// very bytes it was given, seen as text.
pub assume_specification<'a>[ std::str::from_utf8 ](bytes: &'a [u8]) -> (res: Result<
    &'a str,
    Utf8Error,
>)
    ensures
        res is Ok <==> valid_utf8(bytes@),
        res matches Ok(text) ==> encode_utf8(text@) == bytes@,
;

/// An error occurred while decoding a chunk.
#[derive(Debug, Clone, Copy, PartialEq, Eq)]
pub enum ChunkCodecError {
    /// The maximum chunk length was exceeded.
    MaxChunkLengthExceeded,
    /// The bytes of a chunk are not valid UTF-8.
    InvalidEncoding,
}

impl ChunkCodecError {
    /// The words that describe the error.
    pub open spec fn description(self) -> Seq<char> {
        match self {
            ChunkCodecError::MaxChunkLengthExceeded => "max chunk length exceeded"@,
            ChunkCodecError::InvalidEncoding => "Unable to decode input as UTF8"@,
        }
    }

    /// Describes the error in words, for a log or a message to the user.
    pub fn to_string(&self) -> (text: String)
        ensures
            text@ == self.description(),
    {
        match self {
            ChunkCodecError::MaxChunkLengthExceeded => "max chunk length exceeded".to_owned(),
            ChunkCodecError::InvalidEncoding => "Unable to decode input as UTF8".to_owned(),
        }
    }
}

/// What a caller of the codec is handed for an outcome of the framer: the
/// text of a frame, `None` while a frame is incomplete, or an error.
pub open spec fn delivered(outcome: Outcome) -> Result<Option<Seq<char>>, ChunkCodecError> {
    match outcome {
        Outcome::Frame(bytes) => if valid_utf8(bytes) {
            Ok(Some(decode_utf8(bytes)))
        } else {
            Err(ChunkCodecError::InvalidEncoding)
        },
        Outcome::Incomplete => Ok(None),
        Outcome::OverLength => Err(ChunkCodecError::MaxChunkLengthExceeded),
    }
}

/// The value of a reply of the codec, with the text as a sequence of
/// characters.
pub open spec fn reply_view(reply: Result<Option<String>, ChunkCodecError>) -> Result<
    Option<Seq<char>>,
    ChunkCodecError,
> {
    match reply {
        Ok(Some(text)) => Ok(Some(text@)),
        Ok(None) => Ok(None),
        Err(e) => Err(e),
    }
}

/// Reads `buf` as UTF-8 text.
pub fn utf8(buf: &[u8]) -> (res: Result<&str, ChunkCodecError>)
    ensures
        match res {
            Ok(text) => valid_utf8(buf@) && text@ == decode_utf8(buf@) && encode_utf8(text@)
                == buf@,
            Err(e) => !valid_utf8(buf@) && e == ChunkCodecError::InvalidEncoding,
        },
{
    match std::str::from_utf8(buf) {
        Ok(text) => {
            proof {
                vstd::utf8::encode_utf8_decode_utf8(text@);
            }
            Ok(text)
        },
        Err(_) => Err(ChunkCodecError::InvalidEncoding),
    }
}

} // verus!
