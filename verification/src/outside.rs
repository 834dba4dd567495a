//! The functions of other crates and of the standard library that the library rests on, each with
//! what is taken for granted of it.

use base64::Engine;
use sha2::Digest;
use vstd::prelude::*;
use vstd::utf8::*;

verus! {

/// A character of the standard Base64 alphabet, or the padding character.
pub open spec fn is_base64_char(c: char) -> bool {
    ||| 'A' <= c <= 'Z'
    ||| 'a' <= c <= 'z'
    ||| '0' <= c <= '9'
    ||| c == '+'
    ||| c == '/'
    ||| c == '='
}

/// The number of characters in the padded Base64 form of `len` bytes.
pub open spec fn base64_len(len: int) -> int {
    4 * ((len + 2) / 3)
}

/// The Base64 form of `data`: standard alphabet, with padding.
pub uninterp spec fn base64_encoded(data: Seq<u8>) -> Seq<char>;

/// The data whose Base64 form `text` is, if it is one.
pub uninterp spec fn base64_decoded(text: Seq<u8>) -> Option<Seq<u8>>;

/// `base64::engine::general_purpose::STANDARD.encode`: the Base64 form of `data`. It has four
/// characters for every three bytes that were begun, each one of the alphabet or padding, and
/// decoding it gives `data` back. The outside function gives up where the text would be larger than
/// any allocation can be, so those inputs are left out.
#[verifier::external_body]
pub(crate) fn base64_encode(data: &[u8]) -> (text: String)
    requires
        base64_len(data@.len() as int) <= isize::MAX,
    ensures
        text@ == base64_encoded(data@),
        text@.len() == base64_len(data@.len() as int),
        forall|i: int| 0 <= i < text@.len() ==> is_base64_char(#[trigger] text@[i]),
        base64_decoded(encode_utf8(text@)) == Some(data@),
{
    base64::engine::general_purpose::STANDARD.encode(data)
}

/// `base64::engine::general_purpose::STANDARD.decode`: the data whose Base64 form `text` is. The
/// engine takes canonical Base64 only, so where it succeeds every byte is a character of the
/// alphabet or padding, and encoding the data gives `text` back. Why it fails is not told.
#[verifier::external_body]
pub(crate) fn base64_decode(text: &[u8]) -> (data: Option<Vec<u8>>)
    ensures
        match data {
            Some(decoded) => base64_decoded(text@) == Some(decoded@),
            None => base64_decoded(text@) is None,
        },
        data matches Some(decoded) ==> {
            &&& base64_encoded(decoded@) == Seq::new(text@.len(), |i: int| text@[i] as char)
            &&& forall|i: int|
                0 <= i < text@.len() ==> (#[trigger] text@[i]) < 0x80 && is_base64_char(
                    text@[i] as char,
                )
        },
{
    base64::engine::general_purpose::STANDARD.decode(text).ok()
}

/// `String::from_utf8_lossy`: the text that `bytes` encodes, with one U+FFFD in place of each
/// ill-formed sequence. A sequence reaches as far as `Utf8Error` says that lossy decoding skips; a
/// character that the end cuts off is one sequence.
#[verifier::external_body]
pub(crate) fn utf8_text(bytes: &[u8]) -> (text: String)
    ensures
        text@ == crate::utf8::lossy_text(bytes@),
{
    String::from_utf8_lossy(bytes).into_owned()
}

/// A character of a lower-case hexadecimal number.
pub open spec fn is_hex_char(c: char) -> bool {
    '0' <= c <= '9' || 'a' <= c <= 'f'
}

/// The SHA-256 digest of `data` as a lower-case hexadecimal number.
pub uninterp spec fn sha256_of(data: Seq<u8>) -> Seq<char>;

/// `sha2::Sha256::digest`, written out with two lower-case hexadecimal digits for each of its 32
/// bytes.
#[verifier::external_body]
pub(crate) fn sha256_hex(data: &[u8]) -> (hash: String)
    ensures
        hash@ == sha256_of(data@),
        hash@.len() == 64,
        forall|i: int| 0 <= i < hash@.len() ==> is_hex_char(#[trigger] hash@[i]),
{
    format!("{:x}", sha2::Sha256::digest(data))
}

#[verifier::external_type_specification]
#[verifier::external_body]
pub struct ExJsonError(serde_json::Error);

/// The JSON array of the given strings.
pub uninterp spec fn json_array_of(texts: Seq<Seq<char>>) -> Seq<char>;

/// `serde_json::to_string` on a list of strings: the JSON array of them. It fails only where writing
/// does or where a value cannot be represented, and a string written to memory is neither.
#[verifier::external_body]
pub(crate) fn json_array(texts: &Vec<&str>) -> (json: Result<String, serde_json::Error>)
    ensures
        json is Ok,
        json->Ok_0@ == json_array_of(Seq::new(texts@.len(), |i: int| texts@[i]@)),
{
    serde_json::to_string(texts)
}

/// `String::from_utf8`: the text that `bytes` encodes, if it is well-formed.
#[verifier::external_body]
pub(crate) fn exact_text(bytes: Vec<u8>) -> (text: Option<String>)
    ensures
        match text {
            Some(s) => valid_utf8(bytes@) && s@ == decode_utf8(bytes@),
            None => !valid_utf8(bytes@),
        },
{
    String::from_utf8(bytes).ok()
}

} // verus!
