//! Header extraction and RFC 2047 encoded-word decoding for MIME messages.
use vstd::prelude::*;

pub mod backends;
pub mod decoder;
pub mod headers;
pub mod span_map;

pub use decoder::{decode, hex_to_val, DecodedValue, Error};
pub use headers::Headers;

verus! {

use crate::headers::tokenized_as;

/// A view over the bytes of a message.
pub struct Message<'a> {
    bytes: &'a [u8],
}

impl<'a> Message<'a> {
    /// The bytes of the message.
    pub closed spec fn source(self) -> Seq<u8> {
        self.bytes@
    }

    pub fn from_slice(bytes: &'a [u8]) -> (r: Message<'a>)
        ensures
            r.source() == bytes@,
    {
        Message { bytes }
    }

    /// The headers of the message, tokenized up to the blank line.
    pub fn headers(&self) -> (r: Result<Headers<'a>, Error>)
        requires
            self.source().len() <= usize::MAX / 8,
        ensures
            tokenized_as(r, self.source()),
    {
        Headers::new(self.bytes)
    }
}

} // verus!
