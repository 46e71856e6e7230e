//! The text form of pixel data: standard base64, as the `base64` crate
//! writes and reads it.
use base64::Engine;
use vstd::prelude::*;

verus! {

/// The standard base64 text of `bytes`: the alphabet of RFC 4648, padded with
/// `=` to a multiple of four characters.
pub uninterp spec fn base64_text(bytes: Seq<u8>) -> Seq<char>;

/// The bytes that `text` stands for in standard base64, if it stands for any.
pub uninterp spec fn base64_bytes(text: Seq<char>) -> Option<Seq<u8>>;

/// The reason why `base64` refused a text.
#[verifier::external_type_specification]
#[verifier::external_body]
pub struct ExDecodeError(base64::DecodeError);

/// The longest input whose text, four characters for every three bytes, can
/// still be allocated.
pub open spec fn encodable(len: nat) -> bool {
    4 * ((len + 2) / 3) <= isize::MAX
}

/// `Engine::encode` of `base64::engine::general_purpose::STANDARD`.
///
/// Trusted: the result is the standard base64 text of the input, and that
/// text decodes to the input again. The call panics when the text is too long
/// to allocate, which `requires` leaves out.
#[verifier::external_body]
pub(crate) fn standard_encode(bytes: &Vec<u8>) -> (text: String)
    requires
        encodable(bytes@.len()),
    ensures
        text@ == base64_text(bytes@),
        base64_bytes(text@) == Some(bytes@),
{
    base64::engine::general_purpose::STANDARD.encode(bytes)
}

/// `Engine::decode` of `base64::engine::general_purpose::STANDARD`.
///
/// Trusted: the call succeeds exactly on the texts that stand for bytes, and
/// then returns those bytes.
#[verifier::external_body]
pub(crate) fn standard_decode(text: &String) -> (decoded: Result<Vec<u8>, base64::DecodeError>)
    ensures
        match decoded {
            Ok(bytes) => base64_bytes(text@) == Some(bytes@),
            Err(_) => base64_bytes(text@).is_none(),
        },
{
    base64::engine::general_purpose::STANDARD.decode(text)
}

} // verus!
