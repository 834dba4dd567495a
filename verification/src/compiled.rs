//! Getting bytecode out of a file, whichever form the file has it in.

use vstd::prelude::*;
use vstd::utf8::*;

use crate::bytecode::{extract_embedded_bytecode, is_bytecode};
use crate::outside::{base64_decode, base64_encode, utf8_text};

verus! {

/// Why no bytecode came out of a file.
#[derive(Debug, Clone, Copy, PartialEq, Eq, Structural)]
pub enum BytecodeError {
    /// The file holds no bytecode in any of the known forms.
    NotFound,
}

impl BytecodeError {
    /// What to tell the user.
    pub fn to_string(&self) -> (message: String)
        ensures
            message@ == "no bytecode found in file"@,
    {
        "no bytecode found in file".to_owned()
    }
}

/// The bytecode in Base64, and the header if it was embedded in a script, of a file that is not
/// itself compiled, that decodes from Base64 to `decoded` and reads as `text`.
pub open spec fn bytecode_in_text(decoded: Option<Seq<u8>>, text: Seq<char>) -> Option<
    (Seq<char>, Option<Seq<char>>),
> {
    if decoded matches Some(data) && crate::bytecode::looks_compiled(data) {
        Some((text, None))
    } else {
        match crate::bytecode::embedded_in(text) {
            Some((header, bytecode)) => Some((bytecode, Some(header))),
            None => None,
        }
    }
}

/// The bytecode in Base64 of a file, and the header if it was embedded in a script.
pub open spec fn bytecode_in(contents: Seq<u8>) -> Option<(Seq<char>, Option<Seq<char>>)> {
    if crate::bytecode::looks_compiled(contents) {
        Some((crate::outside::base64_encoded(contents), None))
    } else {
        bytecode_in_text(crate::outside::base64_decoded(contents), crate::utf8::lossy_text(contents))
    }
}

/// `result` says `expected`.
pub open spec fn reports(
    result: Result<(String, Option<String>), BytecodeError>,
    expected: Option<(Seq<char>, Option<Seq<char>>)>,
) -> bool {
    match result {
        Ok((bytecode, Some(header))) => expected == Some((bytecode@, Some(header@))),
        Ok((bytecode, None)) => expected == Some((bytecode@, None::<Seq<char>>)),
        Err(BytecodeError::NotFound) => expected is None,
    }
}

/// Takes the bytecode from a file that is not itself compiled, given what it decodes to and how it
/// reads.
pub fn bytecode_from_text(decoded: Option<Vec<u8>>, text: String) -> (result: Result<
    (String, Option<String>),
    BytecodeError,
>)
    ensures
        reports(
            result,
            bytecode_in_text(
                match decoded {
                    Some(data) => Some(data@),
                    None => None,
                },
                text@,
            ),
        ),
        ({
            let compiled = decoded is Some && crate::bytecode::looks_compiled(decoded->0@);
            match result {
                Ok((bytecode, None)) => compiled && bytecode@ == text@,
                Ok((bytecode, Some(header))) => !compiled && crate::bytecode::embedded_in(text@)
                    == Some((header@, bytecode@)),
                Err(_) => !compiled && crate::bytecode::embedded_in(text@) is None,
            }
        }),
{
    if let Some(data) = decoded {
        if is_bytecode(data.as_slice()) {
            return Ok((text, None));
        }
    }
    match extract_embedded_bytecode(text.as_str()) {
        Some(embedded) => Ok((embedded.bytecode.to_owned(), Some(embedded.header.to_owned()))),
        None => Err(BytecodeError::NotFound),
    }
}

/// Takes the bytecode from a file: compiled code as it is, compiled code in Base64, or a script with
/// embedded bytecode. What comes out without a header is compiled code in Base64: the whole file, put
/// into Base64 if it is compiled, or as it is if not. Reading it as a file gives it again.
pub fn get_bytecode_from_bytes(file_contents: &[u8]) -> (result: Result<
    (String, Option<String>),
    BytecodeError,
>)
    requires
        crate::bytecode::looks_compiled(file_contents@) ==> crate::outside::base64_len(
            file_contents@.len() as int,
        ) <= isize::MAX,
    ensures
        reports(result, bytecode_in(file_contents@)),
        ({
            let raw = crate::bytecode::looks_compiled(file_contents@);
            let decoded = crate::outside::base64_decoded(file_contents@);
            let compiled = decoded is Some && crate::bytecode::looks_compiled(decoded->0);
            let text = crate::utf8::lossy_text(file_contents@);
            match result {
                Ok((bytecode, None)) => {
                    ||| raw && bytecode@ == crate::outside::base64_encoded(file_contents@)
                    ||| !raw && compiled && bytecode@ == text
                },
                Ok((bytecode, Some(header))) => !raw && !compiled && crate::bytecode::embedded_in(
                    text,
                ) == Some((header@, bytecode@)),
                Err(_) => !raw && !compiled && crate::bytecode::embedded_in(text) is None,
            }
        }),
        result matches Ok((bytecode, None)) ==> {
            &&& crate::outside::base64_decoded(encode_utf8(bytecode@)) matches Some(data)
            &&& crate::bytecode::looks_compiled(data)
            &&& crate::bytecode::looks_compiled(file_contents@) ==> data == file_contents@
            &&& !crate::bytecode::looks_compiled(file_contents@) ==> encode_utf8(bytecode@)
                == file_contents@
            &&& !crate::bytecode::looks_compiled(encode_utf8(bytecode@))
            &&& bytecode_in(encode_utf8(bytecode@)) == Some((bytecode@, None::<Seq<char>>))
        },
{
    if is_bytecode(file_contents) {
        let bytecode = base64_encode(file_contents);
        proof {
            let bytes = encode_utf8(bytecode@);
            assert(is_ascii_chars(bytecode@));
            is_ascii_chars_encode_utf8(bytecode@);
            encode_utf8_valid_utf8(bytecode@);
            encode_utf8_decode_utf8(bytecode@);
            crate::utf8::law_well_formed_text_is_read_exactly(bytes);
            assert(bytes[0] == bytecode@[0] as u8);
            assert(bytes[0] > 8 && bytes[0] != 0x1b);
            assert(!crate::bytecode::looks_compiled(bytes)) by {
                assert(bytes.take(4)[0] == bytes[0]);
            }
        }
        return Ok((bytecode, None));
    }
    let decoded = base64_decode(file_contents);
    let text = utf8_text(file_contents);
    proof {
        if decoded is Some {
            lemma_ascii_file(file_contents@);
            decode_utf8_encode_utf8(file_contents@);
            crate::utf8::law_well_formed_text_is_read_exactly(file_contents@);
        }
    }
    bytecode_from_text(decoded, text)
}

/// A file of ASCII bytes is well-formed.
proof fn lemma_ascii_file(contents: Seq<u8>)
    requires
        forall|i: int| 0 <= i < contents.len() ==> (#[trigger] contents[i]) < 0x80,
    ensures
        valid_utf8(contents),
    decreases contents.len(),
{
    if contents.len() > 0 {
        let b0 = contents[0];
        assert(b0 & 0x7f == b0) by (bit_vector)
            requires
                b0 < 0x80,
        ;
        assert(valid_first_scalar(contents));
        let rest = pop_first_scalar(contents);
        assert forall|i: int| 0 <= i < rest.len() implies (#[trigger] rest[i]) < 0x80 by {
            assert(rest[i] == contents[i + 1]);
        }
        lemma_ascii_file(rest);
    }
}

/// A compiled file gives its Base64 form.
pub proof fn law_compiled_file_is_encoded(contents: Seq<u8>)
    requires
        crate::bytecode::looks_compiled(contents),
    ensures
        bytecode_in(contents) == Some((crate::outside::base64_encoded(contents), None::<Seq<char>>)),
{
}

/// A file that is compiled code in Base64 gives its own text.
pub proof fn law_base64_file_is_its_own_bytecode(text: Seq<char>, data: Seq<u8>)
    requires
        !crate::bytecode::looks_compiled(encode_utf8(text)),
        crate::outside::base64_decoded(encode_utf8(text)) == Some(data),
        crate::bytecode::looks_compiled(data),
    ensures
        bytecode_in(encode_utf8(text)) == Some((text, None::<Seq<char>>)),
{
    encode_utf8_valid_utf8(text);
    encode_utf8_decode_utf8(text);
    crate::utf8::law_well_formed_text_is_read_exactly(encode_utf8(text));
}

/// A script gives the line after its first marker, and all before that line as the header.
pub proof fn law_script_file_gives_its_line(before: Seq<char>, line: Seq<char>, rest: Seq<char>)
    requires
        forall|i: int| 0 <= i < line.len() ==> (#[trigger] line[i]) != '\n' && line[i] != '\r',
        rest.len() == 0 || rest[0] == '\n' || rest[0] == '\r',
        forall|a: Seq<char>, b: Seq<char>|
            #[trigger] (a + "-- Bytecode (Base64):\n-- "@ + b) == before
                + "-- Bytecode (Base64):\n-- "@ + line + rest ==> before.len() <= a.len(),
        ({
            let contents = encode_utf8(before + "-- Bytecode (Base64):\n-- "@ + line + rest);
            let decoded = crate::outside::base64_decoded(contents);
            &&& !crate::bytecode::looks_compiled(contents)
            &&& !(decoded is Some && crate::bytecode::looks_compiled(decoded->0))
        }),
    ensures
        bytecode_in(encode_utf8(before + "-- Bytecode (Base64):\n-- "@ + line + rest)) == Some(
            (line, Some(before + "-- Bytecode (Base64):\n-- "@)),
        ),
{
    let text = before + "-- Bytecode (Base64):\n-- "@ + line + rest;
    encode_utf8_valid_utf8(text);
    encode_utf8_decode_utf8(text);
    crate::utf8::law_well_formed_text_is_read_exactly(encode_utf8(text));
    crate::bytecode::law_embedded_line_comes_out(before, line, rest);
}

/// A text with no marker in it that is no compiled code in any form gives nothing.
pub proof fn law_file_without_bytecode_gives_nothing(text: Seq<char>)
    requires
        !crate::bytecode::looks_compiled(encode_utf8(text)),
        crate::outside::base64_decoded(encode_utf8(text)) is None || !crate::bytecode::looks_compiled(
            crate::outside::base64_decoded(encode_utf8(text))->0,
        ),
        forall|a: Seq<char>, b: Seq<char>|
            text != #[trigger] (a + "-- Bytecode (Base64):\n-- "@ + b) && text != a
                + "-- Bytecode (Base64):\r\n-- "@ + b,
    ensures
        bytecode_in(encode_utf8(text)) is None,
{
    encode_utf8_valid_utf8(text);
    encode_utf8_decode_utf8(text);
    crate::utf8::law_well_formed_text_is_read_exactly(encode_utf8(text));
    crate::bytecode::law_bytecode_is_found_iff_marked(text);
}

} // verus!
