//! Recognising compiled Lua, and finding it where a script's text carries it in Base64.

use vstd::prelude::*;
use vstd::utf8::*;

use crate::text::split_text;

verus! {

/// What stands before embedded bytecode where lines end in a line feed.
pub const BYTECODE_START_LF: &'static str = "-- Bytecode (Base64):\n-- ";

/// What stands before embedded bytecode where lines end in a carriage return and a line feed.
pub const BYTECODE_START_CRLF: &'static str = "-- Bytecode (Base64):\r\n-- ";

/// Bytecode that stands in a text, with all the text before it.
#[derive(Debug, Clone, Copy)]
pub struct EmbeddedBytecode<'a> {
    pub header: &'a str,
    pub bytecode: &'a str,
}

/// `data` starts like compiled Lua, LuaJIT or Luau, and goes on after that.
pub open spec fn looks_compiled(data: Seq<u8>) -> bool {
    &&& data.len() >= 5
    &&& {
        ||| data.take(4) == seq![0x1bu8, 0x4cu8, 0x75u8, 0x61u8]
        ||| data.take(4) == seq![0x1bu8, 0x4cu8, 0x4au8, 0x01u8]
        ||| data.take(4) == seq![0x1bu8, 0x4cu8, 0x4au8, 0x02u8]
        ||| 3 <= data[0] <= 8
    }
}

/// The number of characters before the first line break.
pub open spec fn line_len(text: Seq<char>) -> nat
    decreases text.len(),
{
    if text.len() == 0 || text[0] == '\n' || text[0] == '\r' {
        0
    } else {
        1 + line_len(text.drop_first())
    }
}

/// The index right after the marker: the first one with a line feed, or, only if there is none, the
/// first one with a carriage return.
pub open spec fn marker_end(text: Seq<char>) -> Option<int> {
    match crate::text::first_match(text, BYTECODE_START_LF@) {
        Some(i) => Some(i + BYTECODE_START_LF@.len()),
        None => match crate::text::first_match(text, BYTECODE_START_CRLF@) {
            Some(i) => Some(i + BYTECODE_START_CRLF@.len()),
            None => None,
        },
    }
}

/// The header, marker included, and the bytecode, which reaches to the end of the line.
pub open spec fn embedded_in(text: Seq<char>) -> Option<(Seq<char>, Seq<char>)> {
    match marker_end(text) {
        Some(start) => Some(
            (text.take(start), text.skip(start).take(line_len(text.skip(start)) as int)),
        ),
        None => None,
    }
}

/// Whether `data` is compiled Lua, LuaJIT or Luau.
pub fn is_bytecode(data: &[u8]) -> (compiled: bool)
    ensures
        compiled == looks_compiled(data@),
        compiled == (data@.len() >= 5 && ((data@[0] == 0x1b && data@[1] == 0x4c && ((data@[2]
            == 0x75 && data@[3] == 0x61) || (data@[2] == 0x4a && (data@[3] == 1 || data@[3]
            == 2)))) || (3 <= data@[0] && data@[0] <= 8))),
{
    if data.len() < 5 {
        return false;
    }
    let first_byte = data[0];
    let lua = first_byte == 0x1b && data[1] == 0x4c && data[2] == 0x75 && data[3] == 0x61;
    let luajit = first_byte == 0x1b && data[1] == 0x4c && data[2] == 0x4a && (data[3] == 0x01
        || data[3] == 0x02);
    let luau = 3 <= first_byte && first_byte <= 8;
    proof {
        let head = data@.take(4);
        assert(lua ==> head =~= seq![0x1bu8, 0x4cu8, 0x75u8, 0x61u8]);
        assert(luajit && data[3] == 1 ==> head =~= seq![0x1bu8, 0x4cu8, 0x4au8, 0x01u8]);
        assert(luajit && data[3] == 2 ==> head =~= seq![0x1bu8, 0x4cu8, 0x4au8, 0x02u8]);
        assert(head[0] == data[0] && head[1] == data[1] && head[2] == data[2] && head[3]
            == data[3]);
    }
    lua || luajit || luau
}

/// The smallest index at which `needle` stands in `haystack`.
pub fn find_subslice(haystack: &[u8], needle: &[u8]) -> (found: Option<usize>)
    requires
        needle@.len() > 0,
    ensures
        match found {
            Some(i) => crate::text::first_at(haystack@, needle@, i as int),
            None => crate::text::absent(haystack@, needle@),
        },
        match found {
            Some(i) => {
                &&& i + needle@.len() <= haystack@.len()
                &&& haystack@ == haystack@.take(i as int) + needle@ + haystack@.skip(
                    i + needle@.len(),
                )
                &&& forall|before: Seq<u8>, after: Seq<u8>|
                    haystack@ == #[trigger] (before + needle@ + after) ==> i <= before.len()
            },
            None => forall|before: Seq<u8>, after: Seq<u8>|
                haystack@ != #[trigger] (before + needle@ + after),
        },
{
    if haystack.len() < needle.len() {
        proof {
            lemma_absent_cut(haystack@, needle@);
        }
        return None;
    }
    let last: usize = haystack.len() - needle.len();
    let mut at: usize = 0;
    while at <= last
        invariant
            needle@.len() > 0,
            last == haystack@.len() - needle@.len(),
            0 <= at <= last + 1,
            forall|j: int| 0 <= j < at ==> !crate::text::occurs_at(haystack@, needle@, j),
        decreases last + 1 - at,
    {
        if stands_at(haystack, needle, at) {
            proof {
                crate::text::lemma_first_match_is(haystack@, needle@, at as int);
                crate::text::law_match_is_the_first_cut(haystack@, needle@, at as int);
            }
            return Some(at);
        }
        assert(at < haystack.len());
        at = at + 1;
    }
    proof {
        lemma_absent_cut(haystack@, needle@);
    }
    None
}

/// Where the needle stands nowhere, there is no cut round it.
proof fn lemma_absent_cut(haystack: Seq<u8>, needle: Seq<u8>)
    requires
        crate::text::absent(haystack, needle),
    ensures
        forall|before: Seq<u8>, after: Seq<u8>|
            haystack != #[trigger] (before + needle + after),
{
    assert forall|before: Seq<u8>, after: Seq<u8>|
        haystack != #[trigger] (before + needle + after) by {
        crate::text::law_occurrence_is_a_cut(before, needle, after);
    }
}

/// Whether `needle` stands in `haystack` at index `at`.
fn stands_at(haystack: &[u8], needle: &[u8], at: usize) -> (stands: bool)
    requires
        at + needle@.len() <= haystack@.len(),
    ensures
        stands == crate::text::occurs_at(haystack@, needle@, at as int),
{
    let ghost window = haystack@.subrange(at as int, at + needle@.len());
    let mut k: usize = 0;
    while k < needle.len()
        invariant
            k <= needle@.len(),
            at + needle@.len() <= haystack@.len(),
            window == haystack@.subrange(at as int, at + needle@.len()),
            forall|j: int| 0 <= j < k ==> window[j] == needle@[j],
        decreases needle@.len() - k,
    {
        assert(haystack.len() == haystack@.len());
        if haystack[at + k] != needle[k] {
            assert(window[k as int] != needle@[k as int]);
            return false;
        }
        k = k + 1;
    }
    assert(window =~= needle@);
    true
}

/// Where the marker stands in `bytes`, and how many bytes it has.
pub fn find_marker(bytes: &[u8]) -> (found: Option<(usize, usize)>)
    ensures
        ({
            let lf = encode_utf8(BYTECODE_START_LF@);
            let crlf = encode_utf8(BYTECODE_START_CRLF@);
            match found {
                Some((at, len)) => {
                    ||| crate::text::first_at(bytes@, lf, at as int) && len == lf.len()
                    ||| crate::text::absent(bytes@, lf) && crate::text::first_at(
                        bytes@,
                        crlf,
                        at as int,
                    ) && len == crlf.len()
                },
                None => crate::text::absent(bytes@, lf) && crate::text::absent(bytes@, crlf),
            }
        }),
{
    proof {
        lemma_markers();
    }
    match find_subslice(bytes, BYTECODE_START_LF.as_bytes()) {
        Some(at) => Some((at, BYTECODE_START_LF.len())),
        None => match find_subslice(bytes, BYTECODE_START_CRLF.as_bytes()) {
            Some(at) => Some((at, BYTECODE_START_CRLF.len())),
            None => None,
        },
    }
}

/// The markers are ASCII, so they take one byte per character.
proof fn lemma_markers()
    ensures
        is_ascii_chars(BYTECODE_START_LF@),
        is_ascii_chars(BYTECODE_START_CRLF@),
        BYTECODE_START_LF@.len() == 25,
        BYTECODE_START_CRLF@.len() == 26,
        encode_utf8(BYTECODE_START_LF@).len() == 25,
        encode_utf8(BYTECODE_START_CRLF@).len() == 26,
{
    reveal_strlit("-- Bytecode (Base64):\n-- ");
    reveal_strlit("-- Bytecode (Base64):\r\n-- ");
    is_ascii_chars_encode_utf8(BYTECODE_START_LF@);
    is_ascii_chars_encode_utf8(BYTECODE_START_CRLF@);
}

/// The number of bytes before the first line break.
fn find_line_end(text: &str) -> (end: usize)
    ensures
        end == encode_utf8(text@.take(line_len(text@) as int)).len(),
        is_char_boundary(encode_utf8(text@), end as int),
        end <= encode_utf8(text@).len(),
{
    let bytes = text.as_bytes();
    let mut at: usize = 0;
    while at < bytes.len() && bytes[at] != 0x0a && bytes[at] != 0x0d
        invariant
            at <= bytes@.len(),
            bytes@ == encode_utf8(text@),
            forall|j: int| 0 <= j < at ==> bytes@[j] != 0x0a && bytes@[j] != 0x0d,
        decreases bytes@.len() - at,
    {
        at = at + 1;
    }
    proof {
        encode_utf8_valid_utf8(text@);
        if at < bytes@.len() {
            assert(!is_continuation_byte(bytes@[at as int]));
            is_char_boundary_iff_not_is_continuation_byte(bytes@, at as int);
        } else {
            is_char_boundary_start_end_of_seq(bytes@);
        }
        lemma_line_end(text@, at as int);
    }
    at
}

/// The first line break in bytes is the first line break in characters.
proof fn lemma_line_end(text: Seq<char>, at: int)
    requires
        0 <= at <= encode_utf8(text).len(),
        forall|j: int|
            0 <= j < at ==> encode_utf8(text)[j] != 0x0a && encode_utf8(text)[j] != 0x0d,
        at < encode_utf8(text).len() ==> encode_utf8(text)[at] == 0x0a || encode_utf8(text)[at]
            == 0x0d,
    ensures
        line_len(text) <= text.len(),
        at == encode_utf8(text.take(line_len(text) as int)).len(),
    decreases text.len(),
{
    let bytes = encode_utf8(text);
    if text.len() == 0 {
        assert(text.take(0) =~= text);
    } else {
        let head = encode_scalar(text[0] as u32);
        let rest = text.drop_first();
        let rest_bytes = encode_utf8(rest);
        assert(bytes == head + rest_bytes);
        char_is_scalar(text[0]);
        encode_utf8_first_scalar(text);
        crate::utf8::lemma_first_scalar_extends(bytes, Seq::empty());
        let n = head.len() as int;
        assert(n == length_of_first_scalar(bytes));
        if text[0] == '\n' || text[0] == '\r' {
            assert(text[0] as u32 == 0x0a || text[0] as u32 == 0x0d);
            assert(0x0au32 & 0x7f == 0x0a) by (bit_vector);
            assert(0x0du32 & 0x7f == 0x0d) by (bit_vector);
            assert(head[0] == 0x0a || head[0] == 0x0d);
            assert(bytes[0] == head[0]);
            assert(at == 0);
            assert(text.take(0) =~= Seq::<char>::empty());
        } else {
            // No byte of the first character is a line break.
            assert forall|j: int| 0 <= j < n implies bytes[j] != 0x0a && bytes[j] != 0x0d by {
                if n > 1 {
                    crate::utf8::lemma_wide_scalar_bytes(bytes, j);
                } else {
                    let b0 = bytes[0];
                    assert(b0 <= 0x7f);
                    assert(b0 & 0x7f == b0) by (bit_vector)
                        requires
                            b0 <= 0x7f,
                    ;
                    assert(text[0] as u32 == b0 as u32);
                    char_u32_cast(text[0], text[0] as u32);
                    assert('\n' as u32 == 0x0a && '\r' as u32 == 0x0d);
                    if b0 == 0x0a {
                        char_u32_cast('\n', text[0] as u32);
                    }
                    if b0 == 0x0d {
                        char_u32_cast('\r', text[0] as u32);
                    }
                }
            }
            assert(at >= n) by {
                if at < n {
                    assert(bytes[at] == 0x0a || bytes[at] == 0x0d);
                }
            }
            assert forall|j: int| 0 <= j < at - n implies rest_bytes[j] != 0x0a && rest_bytes[j]
                != 0x0d by {
                assert(rest_bytes[j] == bytes[j + n]);
            }
            if at - n < rest_bytes.len() {
                assert(rest_bytes[at - n] == bytes[at]);
            }
            lemma_line_end(rest, at - n);
            let line = text.take(line_len(text) as int);
            assert(line.drop_first() =~= rest.take(line_len(rest) as int));
            assert(line[0] == text[0]);
            assert(encode_utf8(line) =~= head + encode_utf8(rest.take(line_len(rest) as int)));
        }
    }
}

/// Finds the first marker in `input` and the bytecode after it.
pub fn extract_embedded_bytecode(input: &str) -> (found: Option<EmbeddedBytecode<'_>>)
    ensures
        match found {
            Some(embedded) => embedded_in(input@) == Some(
                (embedded.header@, embedded.bytecode@),
            ),
            None => embedded_in(input@) is None,
        },
{
    let bytes = input.as_bytes();
    proof {
        lemma_markers();
    }
    match find_marker(bytes) {
        None => {
            proof {
                crate::text::lemma_no_match(input@, BYTECODE_START_LF@);
                crate::text::lemma_no_match(input@, BYTECODE_START_CRLF@);
            }
            None
        },
        Some((start, marker_len)) => {
            proof {
                if crate::text::first_at(
                    bytes@,
                    encode_utf8(BYTECODE_START_LF@),
                    start as int,
                ) {
                    lemma_marker_end(input@, BYTECODE_START_LF@, start as int);
                } else {
                    crate::text::lemma_no_match(input@, BYTECODE_START_LF@);
                    lemma_marker_end(input@, BYTECODE_START_CRLF@, start as int);
                }
            }
            assert(start + marker_len <= bytes.len());
            let bytecode_start: usize = start + marker_len;
            let (header, rest) = split_text(input, bytecode_start);
            let (bytecode, _tail) = split_text(rest, find_line_end(rest));
            proof {
                let begin = marker_end(input@)->0;
                crate::text::lemma_encode_injective(header@, input@.take(begin));
                assert(rest@ =~= input@.skip(begin)) by {
                    assert(header@.len() == begin);
                }
                let line = rest@.take(line_len(rest@) as int);
                lemma_line_len_bound(rest@);
                crate::text::lemma_encode_concat(line, rest@.skip(line_len(rest@) as int));
                assert(line + rest@.skip(line_len(rest@) as int) =~= rest@);
                assert(encode_utf8(bytecode@) =~= encode_utf8(line));
                crate::text::lemma_encode_injective(bytecode@, line);
            }
            Some(EmbeddedBytecode { header, bytecode })
        },
    }
}

proof fn lemma_line_len_bound(text: Seq<char>)
    ensures
        line_len(text) <= text.len(),
    decreases text.len(),
{
    if text.len() > 0 {
        lemma_line_len_bound(text.drop_first());
    }
}

/// The first marker in bytes ends where the first marker in characters ends.
proof fn lemma_marker_end(text: Seq<char>, marker: Seq<char>, at: int)
    requires
        is_ascii_chars(marker),
        marker.len() > 0,
        crate::text::first_at(encode_utf8(text), encode_utf8(marker), at),
    ensures
        ({
            let end = at + encode_utf8(marker).len();
            &&& crate::text::first_match(text, marker) is Some
            &&& 0 <= crate::text::first_match(text, marker)->0
            &&& crate::text::first_match(text, marker)->0 + marker.len() <= text.len()
            &&& is_char_boundary(encode_utf8(text), end)
            &&& encode_utf8(text.take(crate::text::first_match(text, marker)->0 + marker.len()))
                == encode_utf8(text).subrange(0, end)
        }),
{
    let bytes = encode_utf8(text);
    let mark = encode_utf8(marker);
    let end = at + mark.len();
    is_ascii_chars_encode_utf8(marker);
    encode_utf8_valid_utf8(text);
    crate::text::lemma_ascii_match_is_boundary(text, marker, at);
    valid_utf8_split(bytes, at);
    let before = decode_utf8(bytes.subrange(0, at));
    let after = decode_utf8(bytes.subrange(at, bytes.len() as int));
    decode_utf8_encode_utf8(bytes.subrange(0, at));
    decode_utf8_encode_utf8(bytes.subrange(at, bytes.len() as int));
    crate::text::lemma_encode_concat(before, after);
    assert(bytes =~= encode_utf8(before + after));
    crate::text::lemma_encode_injective(text, before + after);
    crate::text::lemma_first_match(before, after, marker);
    crate::text::lemma_first_match_is(text, marker, before.len() as int);
    let i = before.len() as int;
    assert(text.take(i + marker.len()) =~= before + marker) by {
        assert(text.subrange(i, i + marker.len()) == marker);
        assert(text.take(i + marker.len()) =~= text.take(i) + text.subrange(i, i + marker.len()));
        assert(text.take(i) =~= before);
    }
    crate::text::lemma_encode_concat(before, marker);
    assert(bytes.subrange(0, end) =~= bytes.subrange(0, at) + bytes.subrange(at, end));
}

/// A line has no line break in it, and one after it unless the text ends there.
proof fn lemma_line(text: Seq<char>)
    ensures
        line_len(text) <= text.len(),
        forall|i: int|
            0 <= i < line_len(text) ==> (#[trigger] text[i]) != '\n' && text[i] != '\r',
        line_len(text) < text.len() ==> text[line_len(text) as int] == '\n'
            || text[line_len(text) as int] == '\r',
    decreases text.len(),
{
    if text.len() > 0 && text[0] != '\n' && text[0] != '\r' {
        let rest = text.drop_first();
        lemma_line(rest);
        assert forall|i: int| 0 <= i < line_len(text) implies (#[trigger] text[i]) != '\n'
            && text[i] != '\r' by {
            if i > 0 {
                assert(rest[i - 1] == text[i]);
            }
        }
        if line_len(text) < text.len() {
            assert(rest[line_len(rest) as int] == text[line_len(text) as int]);
        }
    }
}

/// What is extracted stands at the start of the text as it is: the header ends in a marker, and the
/// bytecode fills the rest of its line.
pub proof fn law_extraction_cuts_a_prefix(text: Seq<char>)
    requires
        embedded_in(text) is Some,
    ensures
        ({
            let (header, bytecode) = embedded_in(text)->0;
            let end = (header.len() + bytecode.len()) as int;
            &&& end <= text.len()
            &&& header + bytecode == text.take(end)
            &&& {
                ||| BYTECODE_START_LF@.is_suffix_of(header)
                ||| BYTECODE_START_CRLF@.is_suffix_of(header)
            }
            &&& forall|i: int|
                0 <= i < bytecode.len() ==> (#[trigger] bytecode[i]) != '\n' && bytecode[i] != '\r'
            &&& end < text.len() ==> text[end] == '\n' || text[end] == '\r'
        }),
{
    lemma_markers();
    let start = marker_end(text)->0;
    let marker = lemma_marker_found(text);
    let rest = text.skip(start);
    lemma_line(rest);
    let (header, bytecode) = embedded_in(text)->0;
    let end = (header.len() + bytecode.len()) as int;
    assert(header + bytecode =~= text.take(end));
    assert(header.skip(header.len() - marker.len()) =~= text.subrange(start - marker.len(), start));
    assert(marker =~= header.subrange(header.len() - marker.len(), header.len() as int));
    assert forall|i: int| 0 <= i < bytecode.len() implies (#[trigger] bytecode[i]) != '\n'
        && bytecode[i] != '\r' by {
        assert(rest[i] == bytecode[i]);
    }
    if end < text.len() {
        assert(rest[line_len(rest) as int] == text[end]);
    }
}

/// The marker at which the search ends, and that it is the first of its kind.
proof fn lemma_marker_found(text: Seq<char>) -> (marker: Seq<char>)
    requires
        marker_end(text) is Some,
    ensures
        marker == BYTECODE_START_LF@ || marker == BYTECODE_START_CRLF@ && crate::text::absent(
            text,
            BYTECODE_START_LF@,
        ),
        marker.len() > 0,
        crate::text::first_at(text, marker, marker_end(text)->0 - marker.len()),
        0 < marker_end(text)->0 <= text.len(),
{
    lemma_markers();
    if crate::text::absent(text, BYTECODE_START_LF@) {
        crate::text::lemma_first_match_exists(text, BYTECODE_START_CRLF@);
        BYTECODE_START_CRLF@
    } else {
        crate::text::lemma_first_match_exists(text, BYTECODE_START_LF@);
        BYTECODE_START_LF@
    }
}

/// What follows the line of the bytecode does not matter: the same bytecode is found again when
/// something else stands there. Only a marker with a line feed, where the text had one with a
/// carriage return, would be preferred.
pub proof fn law_extraction_ignores_what_follows(text: Seq<char>, suffix: Seq<char>)
    requires
        embedded_in(text) is Some,
        suffix.len() == 0 || suffix[0] == '\n' || suffix[0] == '\r',
        ({
            let (header, bytecode) = embedded_in(text)->0;
            crate::text::absent(text, BYTECODE_START_LF@) ==> crate::text::absent(
                header + bytecode + suffix,
                BYTECODE_START_LF@,
            )
        }),
    ensures
        ({
            let (header, bytecode) = embedded_in(text)->0;
            embedded_in(header + bytecode + suffix) == embedded_in(text)
        }),
{
    lemma_markers();
    law_extraction_cuts_a_prefix(text);
    let (header, bytecode) = embedded_in(text)->0;
    let start = marker_end(text)->0;
    let end = (header.len() + bytecode.len()) as int;
    let other = header + bytecode + suffix;
    let marker = lemma_marker_found(text);
    let at = start - marker.len();
    assert(other.take(end) =~= text.take(end));
    assert forall|j: int| 0 <= j <= at implies #[trigger] crate::text::occurs_at(other, marker, j)
        == crate::text::occurs_at(text, marker, j) by {
        assert(other.subrange(j, j + marker.len()) =~= other.take(end).subrange(
            j,
            j + marker.len(),
        ));
        assert(text.subrange(j, j + marker.len()) =~= text.take(end).subrange(j, j + marker.len()));
    }
    assert(crate::text::first_at(other, marker, at));
    crate::text::lemma_first_match_is(other, marker, at);
    if crate::text::absent(text, BYTECODE_START_LF@) {
        assert(crate::text::first_match(other, BYTECODE_START_LF@) is None);
        assert(marker == BYTECODE_START_CRLF@) by {
            if marker == BYTECODE_START_LF@ {
                assert(crate::text::occurs_at(text, BYTECODE_START_LF@, at));
            }
        }
    } else {
        assert(marker == BYTECODE_START_LF@);
    }
    assert(marker_end(other) == Some(start));
    assert(other.take(start) =~= header);
    assert(other.skip(start) =~= bytecode + suffix);
    lemma_line_of(bytecode, suffix);
    assert((bytecode + suffix).take(bytecode.len() as int) =~= bytecode);
}

/// A run of characters without line breaks, before the end or a line break, is a line.
proof fn lemma_line_of(line: Seq<char>, suffix: Seq<char>)
    requires
        forall|i: int| 0 <= i < line.len() ==> (#[trigger] line[i]) != '\n' && line[i] != '\r',
        suffix.len() == 0 || suffix[0] == '\n' || suffix[0] == '\r',
    ensures
        line_len(line + suffix) == line.len(),
    decreases line.len(),
{
    let whole = line + suffix;
    if line.len() > 0 {
        let rest = line.drop_first();
        assert forall|i: int| 0 <= i < rest.len() implies (#[trigger] rest[i]) != '\n' && rest[i]
            != '\r' by {
            assert(rest[i] == line[i + 1]);
        }
        lemma_line_of(rest, suffix);
        assert(whole.drop_first() =~= rest + suffix);
        assert(whole[0] == line[0]);
    } else {
        assert(whole =~= suffix);
    }
}

/// What makes code compiled is in its first four bytes; of what follows, only that there is
/// something matters.
pub proof fn law_compiled_code_is_known_by_its_start(start: Seq<u8>, rest: Seq<u8>, other: Seq<u8>)
    requires
        start.len() == 4,
    ensures
        looks_compiled(start + rest) <==> rest.len() > 0 && (start == seq![
            0x1bu8,
            0x4cu8,
            0x75u8,
            0x61u8,
        ] || start == seq![0x1bu8, 0x4cu8, 0x4au8, 1u8] || start == seq![
            0x1bu8,
            0x4cu8,
            0x4au8,
            2u8,
        ] || (3 <= start[0] && start[0] <= 8)),
        rest.len() > 0 && other.len() > 0 ==> looks_compiled(start + rest) == looks_compiled(
            start + other,
        ),
{
    assert((start + rest).take(4) =~= start);
    assert((start + other).take(4) =~= start);
}

/// Where a marker stands in the text, bytecode is found, whatever stands round it and however long it
/// is.
pub proof fn law_every_marker_is_found(before: Seq<char>, after: Seq<char>)
    ensures
        embedded_in(before + "-- Bytecode (Base64):\n-- "@ + after) is Some,
        embedded_in(before + "-- Bytecode (Base64):\r\n-- "@ + after) is Some,
{
    crate::text::law_occurrence_is_a_cut(before, BYTECODE_START_LF@, after);
    crate::text::law_occurrence_is_a_cut(before, BYTECODE_START_CRLF@, after);
}

/// Bytecode is found in a text exactly where one of the two markers stands in it.
pub proof fn law_bytecode_is_found_iff_marked(text: Seq<char>)
    ensures
        embedded_in(text) is Some <==> exists|before: Seq<char>, after: Seq<char>|
            text == #[trigger] (before + "-- Bytecode (Base64):\n-- "@ + after) || text == before
                + "-- Bytecode (Base64):\r\n-- "@ + after,
{
    if embedded_in(text) is Some {
        let marker = lemma_marker_found(text);
        let i = marker_end(text)->0 - marker.len();
        crate::text::lemma_first_match_is(text, marker, i);
        crate::text::law_match_is_the_first_cut(text, marker, i);
        let before = text.take(i);
        let after = text.skip(i + marker.len());
        let lf = before + "-- Bytecode (Base64):\n-- "@ + after;
        assert(text == lf || text == before + "-- Bytecode (Base64):\r\n-- "@ + after);
    }
    if exists|before: Seq<char>, after: Seq<char>|
        text == #[trigger] (before + "-- Bytecode (Base64):\n-- "@ + after) || text == before
            + "-- Bytecode (Base64):\r\n-- "@ + after {
        let (before, after) = choose|before: Seq<char>, after: Seq<char>|
            text == #[trigger] (before + "-- Bytecode (Base64):\n-- "@ + after) || text == before
                + "-- Bytecode (Base64):\r\n-- "@ + after;
        law_every_marker_is_found(before, after);
    }
}

/// What was put into a text comes out of it: the line after the first marker with a line feed is the
/// bytecode, and all before it is the header.
pub proof fn law_embedded_line_comes_out(before: Seq<char>, line: Seq<char>, rest: Seq<char>)
    requires
        forall|i: int| 0 <= i < line.len() ==> (#[trigger] line[i]) != '\n' && line[i] != '\r',
        rest.len() == 0 || rest[0] == '\n' || rest[0] == '\r',
        forall|a: Seq<char>, b: Seq<char>|
            #[trigger] (a + "-- Bytecode (Base64):\n-- "@ + b) == before
                + "-- Bytecode (Base64):\n-- "@ + line + rest ==> before.len() <= a.len(),
    ensures
        embedded_in(before + "-- Bytecode (Base64):\n-- "@ + line + rest) == Some(
            (before + "-- Bytecode (Base64):\n-- "@, line),
        ),
{
    let marker = "-- Bytecode (Base64):\n-- "@;
    let text = before + marker + line + rest;
    lemma_markers();
    assert(text =~= before + marker + (line + rest));
    crate::text::law_occurrence_is_a_cut(before, marker, line + rest);
    crate::text::lemma_first_match_exists(text, marker);
    let i = crate::text::first_match(text, marker)->0;
    crate::text::law_match_is_the_first_cut(text, marker, i);
    assert(text.take(i) + marker + text.skip(i + marker.len()) == text);
    assert(i == before.len());
    lemma_cut_line(text, before + marker, line, rest);
}

/// The same with the marker with a carriage return, where there is none with a line feed.
pub proof fn law_embedded_crlf_line_comes_out(before: Seq<char>, line: Seq<char>, rest: Seq<char>)
    requires
        forall|i: int| 0 <= i < line.len() ==> (#[trigger] line[i]) != '\n' && line[i] != '\r',
        rest.len() == 0 || rest[0] == '\n' || rest[0] == '\r',
        forall|a: Seq<char>, b: Seq<char>|
            #[trigger] (a + "-- Bytecode (Base64):\n-- "@ + b) != before
                + "-- Bytecode (Base64):\r\n-- "@ + line + rest,
        forall|a: Seq<char>, b: Seq<char>|
            #[trigger] (a + "-- Bytecode (Base64):\r\n-- "@ + b) == before
                + "-- Bytecode (Base64):\r\n-- "@ + line + rest ==> before.len() <= a.len(),
    ensures
        embedded_in(before + "-- Bytecode (Base64):\r\n-- "@ + line + rest) == Some(
            (before + "-- Bytecode (Base64):\r\n-- "@, line),
        ),
{
    let marker = "-- Bytecode (Base64):\r\n-- "@;
    let text = before + marker + line + rest;
    lemma_markers();
    assert(text =~= before + marker + (line + rest));
    crate::text::law_no_cut_no_match(text, "-- Bytecode (Base64):\n-- "@);
    crate::text::law_occurrence_is_a_cut(before, marker, line + rest);
    crate::text::lemma_first_match_exists(text, marker);
    let i = crate::text::first_match(text, marker)->0;
    crate::text::law_match_is_the_first_cut(text, marker, i);
    assert(text.take(i) + marker + text.skip(i + marker.len()) == text);
    assert(i == before.len());
    lemma_cut_line(text, before + marker, line, rest);
}

/// A header, a line and the rest, cut apart again.
proof fn lemma_cut_line(text: Seq<char>, header: Seq<char>, line: Seq<char>, rest: Seq<char>)
    requires
        text == header + line + rest,
        forall|i: int| 0 <= i < line.len() ==> (#[trigger] line[i]) != '\n' && line[i] != '\r',
        rest.len() == 0 || rest[0] == '\n' || rest[0] == '\r',
    ensures
        text.take(header.len() as int) == header,
        text.skip(header.len() as int) == line + rest,
        line_len(line + rest) == line.len(),
        (line + rest).take(line.len() as int) == line,
{
    assert(text.take(header.len() as int) =~= header);
    assert(text.skip(header.len() as int) =~= line + rest);
    lemma_line_of(line, rest);
    assert((line + rest).take(line.len() as int) =~= line);
}

} // verus!
