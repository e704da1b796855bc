//! The outside collaborators of the decoder: charset conversion, the Base64
//! alphabet decoder and std's UTF-8 checks, each with the contract relied on.
use vstd::prelude::*;
use vstd::utf8::*;

verus! {

/// What `base64::decode_config` with the IMAP alphabet yields for a payload:
/// `None` where the payload is not valid Base64 of that alphabet.
pub uninterp spec fn imap_base64(payload: Seq<u8>) -> Option<Seq<u8>>;

/// The text that `encoding_rs` produces for `bytes` under the charset named by
/// `label`: `None` where `Encoding::for_label` does not know the label.
pub uninterp spec fn charset_text(label: Seq<u8>, bytes: Seq<u8>) -> Option<Seq<char>>;

#[verifier::external_type_specification]
#[verifier::external_body]
pub struct ExDecodeError(base64::DecodeError);

#[verifier::external_type_specification]
#[verifier::external_body]
pub struct ExUtf8Error(core::str::Utf8Error);

#[verifier::external_type_specification]
#[verifier::external_body]
pub struct ExFromUtf8Error(std::string::FromUtf8Error);

/// Relies on `base64::decode_config(payload, base64::IMAP_MUTF7)`: it decodes the
/// payload under the IMAP variant of the alphabet (`,` for `/`), or fails. Its
/// output holds at most six bytes per chunk of eight input bytes (the buffer it
/// truncates), and it panics only where that size computation overflows.
#[verifier::external_body]
pub(crate) fn decode_imap_base64(payload: &[u8]) -> (r: Result<Vec<u8>, base64::DecodeError>)
    requires
        payload@.len() <= usize::MAX / 8,
    ensures
        match r {
            Ok(v) => imap_base64(payload@) == Some(v@) && v@.len() <= (payload@.len() + 7) / 8 * 6,
            Err(_) => imap_base64(payload@) is None,
        },
{
    base64::decode_config(payload, base64::IMAP_MUTF7)
}

/// Relies on `encoding_rs::Encoding::for_label`, which looks the label up, and
/// on `Encoding::decode`, which turns `bytes` into text under that encoding.
/// `decode` panics only where the size of its output buffer overflows `usize`,
/// which the bound on `bytes` leaves out.
#[verifier::external_body]
pub(crate) fn convert_charset(label: &[u8], bytes: &[u8]) -> (r: Option<String>)
    requires
        bytes@.len() <= usize::MAX / 8,
    ensures
        match r {
            Some(t) => charset_text(label@, bytes@) == Some(t@),
            None => charset_text(label@, bytes@) is None,
        },
{
    encoding_rs::Encoding::for_label(label).map(|enc| enc.decode(bytes).0.into_owned())
}

/// `core::str::from_utf8`: the bytes as a string slice, where they are UTF-8.
pub assume_specification[ core::str::from_utf8 ](v: &[u8]) -> (r: Result<&str, core::str::Utf8Error>)
    ensures
        match r {
            Ok(s) => valid_utf8(v@) && encode_utf8(s@) == v@,
            Err(_) => !valid_utf8(v@),
        },
;

/// `String::from_utf8`: the bytes as a string, where they are UTF-8.
pub assume_specification[ std::string::String::from_utf8 ](vec: Vec<u8>) -> (r: Result<String, std::string::FromUtf8Error>)
    ensures
        match r {
            Ok(s) => valid_utf8(vec@) && encode_utf8(s@) == vec@,
            Err(_) => !valid_utf8(vec@),
        },
;

} // verus!
