//! The text of a character data section that holds a decompiled script.

use vstd::prelude::*;
use vstd::string::StringExecFns;
use vstd::utf8::*;

use crate::bytecode::find_subslice;
use crate::text::split_text;

verus! {

/// What ends a character data section.
pub const CDATA_END: &'static str = "]]>";

/// What begins a character data section.
pub const CDATA_START: &'static str = "<![CDATA[";

/// What stands for the end of a section inside one: the section ends within it, and another begins.
pub const CDATA_END_ESCAPED: &'static str = "]]]]><![CDATA[>";

/// `text` with every end of a section in it escaped.
pub open spec fn escaped(text: Seq<char>) -> Seq<char>
    decreases text.len(),
    via escaped_decreases
{
    match crate::text::first_match(text, CDATA_END@) {
        Some(i) => text.take(i) + CDATA_END_ESCAPED@ + escaped(text.skip(i + 3)),
        None => text,
    }
}

#[via_fn]
proof fn escaped_decreases(text: Seq<char>) {
    lemma_marks();
    if crate::text::first_match(text, CDATA_END@) is Some {
        crate::text::lemma_first_match_exists(text, CDATA_END@);
    }
}

/// What the marks are.
proof fn lemma_marks()
    ensures
        CDATA_END@ == seq![']', ']', '>'],
        CDATA_START@ == seq!['<', '!', '[', 'C', 'D', 'A', 'T', 'A', '['],
        CDATA_END_ESCAPED@ == seq![']', ']'] + CDATA_END@ + CDATA_START@ + seq!['>'],
        is_ascii_chars(CDATA_END@),
        encode_utf8(CDATA_END@).len() == 3,
{
    reveal_strlit("]]>");
    reveal_strlit("<![CDATA[");
    reveal_strlit("]]]]><![CDATA[>");
    is_ascii_chars_encode_utf8(CDATA_END@);
    assert(CDATA_END@ =~= seq![']', ']', '>']);
    assert(CDATA_START@ =~= seq!['<', '!', '[', 'C', 'D', 'A', 'T', 'A', '[']);
    assert(CDATA_END_ESCAPED@ =~= seq![']', ']'] + CDATA_END@ + CDATA_START@ + seq!['>']);
}

/// Appends `input` with every end of a section in it escaped.
pub fn push_cdata_escaped(output: &mut String, input: &str)
    ensures
        final(output)@ == old(output)@ + escaped(input@),
{
    proof {
        lemma_marks();
    }
    let mut rest: &str = input;
    loop
        invariant
            old(output)@ + escaped(input@) == output@ + escaped(rest@),
            CDATA_END@.len() == 3,
            is_ascii_chars(CDATA_END@),
            encode_utf8(CDATA_END@).len() == 3,
        ensures
            crate::text::absent(rest@, CDATA_END@),
        decreases encode_utf8(rest@).len(),
    {
        match find_subslice(rest.as_bytes(), CDATA_END.as_bytes()) {
            None => {
                proof {
                    crate::text::lemma_no_match(rest@, CDATA_END@);
                }
                break ;
            },
            Some(position) => {
                let ghost before = output@;
                let ghost whole = rest@;
                proof {
                    crate::text::lemma_ascii_match_is_boundary(
                        whole,
                        CDATA_END@,
                        position as int,
                    );
                }
                let (head, tail) = split_text(rest, position);
                proof {
                    let mark = encode_utf8(CDATA_END@);
                    assert(encode_utf8(tail@).subrange(0, 3) =~= encode_utf8(whole).subrange(
                        position as int,
                        position + 3,
                    ));
                    assert(crate::text::occurs_at(encode_utf8(tail@), mark, 0));
                    crate::text::lemma_ascii_match_is_boundary(tail@, CDATA_END@, 0);
                }
                let (mark, next) = split_text(tail, 3);
                output.append(head);
                output.append(CDATA_END_ESCAPED);
                rest = next;
                proof {
                    crate::text::lemma_encode_injective(mark@, CDATA_END@);
                    crate::text::lemma_first_match(head@, tail@, CDATA_END@);
                    let i = head@.len() as int;
                    crate::text::lemma_first_match_is(whole, CDATA_END@, i);
                    assert(whole.take(i) =~= head@);
                    assert(whole.skip(i + 3) =~= next@);
                    assert(before + escaped(whole) =~= output@ + escaped(rest@));
                }
            },
        }
    }
    output.append(rest);
}

/// What precedes the answer of the service in a section.
pub open spec fn caption(answer: Result<Seq<char>, Seq<char>>) -> Seq<char> {
    match answer {
        Ok(_) => "-- decompilation:\n"@,
        Err(_) => "-- decompilation failed:\n-- "@,
    }
}

/// The text of an answer.
pub open spec fn wording(answer: Result<Seq<char>, Seq<char>>) -> Seq<char> {
    match answer {
        Ok(source) => source,
        Err(reason) => reason,
    }
}

/// The text of a section that held `header` and `bytecode`, once the service has answered.
pub open spec fn section_text(
    header: Seq<char>,
    bytecode: Seq<char>,
    answer: Result<Seq<char>, Seq<char>>,
) -> Seq<char> {
    header + bytecode + "\n\n"@ + caption(answer) + wording(answer) + "\n"@
}

/// How that text is written: each part escaped by itself.
pub open spec fn decompiled_cdata(
    header: Seq<char>,
    bytecode: Seq<char>,
    answer: Result<Seq<char>, Seq<char>>,
) -> Seq<char> {
    escaped(header) + escaped(bytecode) + "\n\n"@ + caption(answer) + escaped(wording(answer))
        + "\n"@
}

/// Text without `>` needs no escaping.
proof fn lemma_escaped_plain(text: Seq<char>)
    requires
        forall|i: int| 0 <= i < text.len() ==> #[trigger] text[i] != '>',
    ensures
        escaped(text) == text,
{
    lemma_marks();
    assert forall|j: int| !crate::text::occurs_at(text, CDATA_END@, j) by {
        if crate::text::occurs_at(text, CDATA_END@, j) {
            assert(text.subrange(j, j + 3)[2] == text[j + 2]);
        }
    }
}

/// The fixed parts need no escaping.
proof fn lemma_escaped_captions()
    ensures
        escaped("\n\n"@) == "\n\n"@,
        escaped("\n"@) == "\n"@,
        escaped("-- decompilation:\n"@) == "-- decompilation:\n"@,
        escaped("-- decompilation failed:\n-- "@) == "-- decompilation failed:\n-- "@,
{
    reveal_strlit("\n\n");
    reveal_strlit("\n");
    reveal_strlit("-- decompilation:\n");
    reveal_strlit("-- decompilation failed:\n-- ");
    lemma_escaped_plain("\n\n"@);
    lemma_escaped_plain("\n"@);
    lemma_escaped_plain("-- decompilation:\n"@);
    lemma_escaped_plain("-- decompilation failed:\n-- "@);
}

/// Writes the text of a section that held `header` and `bytecode`, once the service has answered.
pub fn build_decompiled_cdata(
    header: &str,
    bytecode: &str,
    result: Result<String, String>,
) -> (output: String)
    ensures
        output@ == decompiled_cdata(
            header@,
            bytecode@,
            crate::decompiler::queue::said(result),
        ),
        match result {
            Ok(source) => output@ == escaped(header@) + escaped(bytecode@) + "\n\n"@
                + "-- decompilation:\n"@ + escaped(source@) + "\n"@,
            Err(reason) => output@ == escaped(header@) + escaped(bytecode@) + "\n\n"@
                + "-- decompilation failed:\n-- "@ + escaped(reason@) + "\n"@,
        },
{
    proof {
        lemma_escaped_captions();
    }
    let mut output = String::new();
    push_cdata_escaped(&mut output, header);
    push_cdata_escaped(&mut output, bytecode);
    push_cdata_escaped(&mut output, "\n\n");
    match result {
        Ok(text) => {
            push_cdata_escaped(&mut output, "-- decompilation:\n");
            push_cdata_escaped(&mut output, text.as_str());
        },
        Err(text) => {
            push_cdata_escaped(&mut output, "-- decompilation failed:\n-- ");
            push_cdata_escaped(&mut output, text.as_str());
        },
    }
    push_cdata_escaped(&mut output, "\n");
    assert(output@ =~= decompiled_cdata(
        header@,
        bytecode@,
        crate::decompiler::queue::said(result),
    ));
    output
}

/// What a reader makes of `rest`, which follows the beginning of a section: the text of that section
/// and of those that follow at once, if nothing else follows.
pub open spec fn read_sections(rest: Seq<char>) -> Option<Seq<char>>
    decreases rest.len(),
    via read_sections_decreases
{
    match crate::text::first_match(rest, CDATA_END@) {
        Some(i) => {
            let after = rest.skip(i + 3);
            if after.len() == 0 {
                Some(rest.take(i))
            } else if CDATA_START@.is_prefix_of(after) {
                match read_sections(after.skip(9)) {
                    Some(more) => Some(rest.take(i) + more),
                    None => None,
                }
            } else {
                None
            }
        },
        None => None,
    }
}

#[via_fn]
proof fn read_sections_decreases(rest: Seq<char>) {
    lemma_marks();
    if crate::text::first_match(rest, CDATA_END@) is Some {
        crate::text::lemma_first_match_exists(rest, CDATA_END@);
    }
}

/// Reading undoes escaping: what is read from escaped text, with the end of a section after it, is
/// the text.
pub proof fn law_escaped_text_reads_back(text: Seq<char>)
    ensures
        read_sections(escaped(text) + CDATA_END@) == Some(text),
{
    lemma_reads_back(Seq::empty(), text);
    assert(Seq::<char>::empty() + escaped(text) + CDATA_END@ =~= escaped(text) + CDATA_END@);
    assert(Seq::<char>::empty() + text =~= text);
}

/// Where the first end of a section stands: after what cannot begin an end, what holds none, and
/// nothing but closing brackets.
proof fn lemma_first_end(
    before: Seq<char>,
    text: Seq<char>,
    fill: Seq<char>,
    tail: Seq<char>,
)
    requires
        forall|i: int| 0 <= i < before.len() ==> #[trigger] before[i] != ']',
        crate::text::absent(text, CDATA_END@),
        forall|i: int| 0 <= i < fill.len() ==> #[trigger] fill[i] == ']',
    ensures
        ({
            let written = before + text + fill + CDATA_END@ + tail;
            let n = (before.len() + text.len() + fill.len()) as int;
            &&& crate::text::first_match(written, CDATA_END@) == Some(n)
            &&& written.take(n) == before + text + fill
            &&& written.skip(n + 3) == tail
        }),
{
    lemma_marks();
    let end = CDATA_END@;
    let written = before + text + fill + end + tail;
    let p = before.len() as int;
    let q = p + text.len();
    let n = q + fill.len();
    assert(written.subrange(n, n + 3) =~= end);
    assert forall|j: int| 0 <= j < n implies !crate::text::occurs_at(written, end, j) by {
        if crate::text::occurs_at(written, end, j) {
            let found = written.subrange(j, j + 3);
            assert(found[0] == written[j] && found[2] == written[j + 2]);
            if j < p {
                assert(written[j] == before[j]);
            } else if j + 2 < q {
                assert(text.subrange(j - p, j - p + 3) =~= found);
                assert(crate::text::occurs_at(text, end, j - p));
            } else if j + 2 < n {
                assert(written[j + 2] == fill[j + 2 - q]);
            } else {
                assert(written[j + 2] == end[j + 2 - n]);
            }
        }
    }
    crate::text::lemma_first_match_is(written, end, n);
    assert(written.take(n) =~= before + text + fill);
    assert(written.skip(n + 3) =~= tail);
}

/// How text with an end of a section in it is escaped, in parts.
proof fn lemma_escaped_parts(text: Seq<char>) -> (parts: (Seq<char>, Seq<char>))
    requires
        crate::text::first_match(text, CDATA_END@) is Some,
    ensures
        ({
            let (head, rest) = parts;
            &&& rest.len() < text.len()
            &&& crate::text::absent(head, CDATA_END@)
            &&& text == head + (seq![']', ']'] + (seq!['>'] + rest))
            &&& escaped(text) == head + (seq![']', ']'] + (CDATA_END@ + (CDATA_START@ + (seq!['>']
                + escaped(rest)))))
        }),
{
    lemma_marks();
    let end = CDATA_END@;
    crate::text::lemma_first_match_exists(text, end);
    let i = crate::text::first_match(text, end)->0;
    let head = text.take(i);
    let rest = text.skip(i + 3);
    assert forall|j: int| !crate::text::occurs_at(head, end, j) by {
        if crate::text::occurs_at(head, end, j) {
            assert(head.subrange(j, j + 3) =~= text.subrange(j, j + 3));
            assert(crate::text::occurs_at(text, end, j));
        }
    }
    assert(text =~= head + (seq![']', ']'] + (seq!['>'] + rest))) by {
        assert(text =~= head + (text.subrange(i, i + 3) + rest));
        assert(end + rest =~= seq![']', ']'] + (seq!['>'] + rest));
    }
    let more = escaped(rest);
    assert(escaped(text) == head + CDATA_END_ESCAPED@ + more);
    assert(head + CDATA_END_ESCAPED@ + more =~= head + (CDATA_END_ESCAPED@ + more));
    assert(CDATA_END_ESCAPED@ + more =~= seq![']', ']'] + (end + (CDATA_START@ + (seq!['>']
        + more))));
    (head, rest)
}

/// The same with something before the text that cannot be the beginning of an end.
proof fn lemma_reads_back(before: Seq<char>, text: Seq<char>)
    requires
        forall|i: int| 0 <= i < before.len() ==> #[trigger] before[i] != ']',
    ensures
        read_sections(before + escaped(text) + CDATA_END@) == Some(before + text),
    decreases text.len(),
{
    let end = CDATA_END@;
    let start = CDATA_START@;
    assert(start.len() == 9) by {
        lemma_marks();
    }
    if crate::text::first_match(text, end) is None {
        let none = Seq::<char>::empty();
        lemma_first_end(before, text, none, none);
        assert(before + text + none + end + none =~= before + escaped(text) + end);
        assert(before + text + none =~= before + text);
    } else {
        let (head, rest) = lemma_escaped_parts(text);
        let fill = seq![']', ']'];
        let open = seq!['>'];
        let tail = open + escaped(rest) + end;
        lemma_first_end(before, head, fill, start + tail);
        assert(before + head + fill + end + (start + tail) =~= before + escaped(text) + end);
        assert(start.is_prefix_of(start + tail));
        assert((start + tail).skip(9) =~= tail);
        lemma_reads_back(open, rest);
        assert(before + head + fill + (open + rest) =~= before + text);
    }
}

/// No end of a section begins in `first` and ends in `second`.
pub open spec fn clean_seam(first: Seq<char>, second: Seq<char>) -> bool {
    forall|j: int|
        first.len() - 3 < j < first.len() ==> !#[trigger] crate::text::occurs_at(
            first + second,
            CDATA_END@,
            j,
        )
}

/// Texts can be escaped part by part where no end of a section lies across the seam.
pub proof fn law_parts_can_be_escaped_apart(first: Seq<char>, second: Seq<char>)
    requires
        clean_seam(first, second),
    ensures
        escaped(first + second) == escaped(first) + escaped(second),
    decreases first.len(),
{
    lemma_marks();
    let end = CDATA_END@;
    let whole = first + second;
    let n = first.len() as int;
    match crate::text::first_match(first, end) {
        Some(i) => {
            crate::text::lemma_first_match_exists(first, end);
            assert(whole.subrange(i, i + 3) =~= first.subrange(i, i + 3));
            assert forall|j: int| 0 <= j < i implies !crate::text::occurs_at(whole, end, j) by {
                assert(whole.subrange(j, j + 3) =~= first.subrange(j, j + 3));
                assert(!crate::text::occurs_at(first, end, j));
            }
            crate::text::lemma_first_match_is(whole, end, i);
            let rest = first.skip(i + 3);
            assert(whole.skip(i + 3) =~= rest + second);
            assert(whole.take(i) =~= first.take(i));
            assert(clean_seam(rest, second)) by {
                assert forall|j: int|
                    rest.len() - 3 < j < rest.len() implies !#[trigger] crate::text::occurs_at(
                    rest + second,
                    end,
                    j,
                ) by {
                    if crate::text::occurs_at(rest + second, end, j) {
                        let k = j + i + 3;
                        assert((rest + second).subrange(j, j + 3) =~= whole.subrange(k, k + 3));
                        assert(crate::text::occurs_at(whole, end, k));
                    }
                }
            }
            law_parts_can_be_escaped_apart(rest, second);
            assert(escaped(whole) =~= escaped(first) + escaped(second));
        },
        None => {
            assert forall|j: int| 0 <= j < n implies !crate::text::occurs_at(whole, end, j) by {
                if crate::text::occurs_at(whole, end, j) {
                    assert(j <= n - 3);
                    assert(whole.subrange(j, j + 3) =~= first.subrange(j, j + 3));
                    assert(crate::text::occurs_at(first, end, j));
                }
            }
            match crate::text::first_match(second, end) {
                Some(i) => {
                    crate::text::lemma_first_match_exists(second, end);
                    assert(whole.subrange(n + i, n + i + 3) =~= second.subrange(i, i + 3));
                    assert forall|j: int| 0 <= j < n + i implies !crate::text::occurs_at(
                        whole,
                        end,
                        j,
                    ) by {
                        if j >= n && crate::text::occurs_at(whole, end, j) {
                            assert(whole.subrange(j, j + 3) =~= second.subrange(j - n, j - n + 3));
                            assert(crate::text::occurs_at(second, end, j - n));
                        }
                    }
                    crate::text::lemma_first_match_is(whole, end, n + i);
                    assert(whole.take(n + i) =~= first + second.take(i));
                    assert(whole.skip(n + i + 3) =~= second.skip(i + 3));
                    assert(escaped(whole) =~= escaped(first) + escaped(second));
                },
                None => {
                    assert forall|j: int| !crate::text::occurs_at(whole, end, j) by {
                        if crate::text::occurs_at(whole, end, j) {
                            assert(whole.subrange(j, j + 3) =~= second.subrange(j - n, j - n + 3));
                            assert(crate::text::occurs_at(second, end, j - n));
                        }
                    }
                },
            }
        },
    }
}

/// A seam next to a character that no end of a section holds is clean.
proof fn lemma_clean_seam(first: Seq<char>, second: Seq<char>)
    requires
        first.len() == 0 || second.len() == 0 || first.last() != ']' || (second[0] != ']'
            && second[0] != '>'),
    ensures
        clean_seam(first, second),
{
    lemma_marks();
    let whole = first + second;
    assert forall|j: int|
        first.len() - 3 < j < first.len() implies !#[trigger] crate::text::occurs_at(
        whole,
        CDATA_END@,
        j,
    ) by {
        if crate::text::occurs_at(whole, CDATA_END@, j) {
            let found = whole.subrange(j, j + 3);
            assert(found[0] == whole[j] && found[1] == whole[j + 1] && found[2] == whole[j + 2]);
            let n = first.len() as int;
            assert(n > 0 && second.len() > 0);
            assert(whole[n - 1] == first.last() && whole[n] == second[0]);
        }
    }
}

/// A section reads back as the header, the bytecode and the answer, whatever the answer says, unless
/// header and bytecode make up an end of a section between them.
pub proof fn law_section_reads_back(
    header: Seq<char>,
    bytecode: Seq<char>,
    answer: Result<Seq<char>, Seq<char>>,
)
    requires
        clean_seam(header, bytecode),
    ensures
        read_sections(decompiled_cdata(header, bytecode, answer) + CDATA_END@) == Some(
            section_text(header, bytecode, answer),
        ),
{
    lemma_escaped_captions();
    reveal_strlit("\n\n");
    reveal_strlit("\n");
    reveal_strlit("-- decompilation:\n");
    reveal_strlit("-- decompilation failed:\n-- ");
    let script = header + bytecode;
    let spaced = script + "\n\n"@;
    let captioned = spaced + caption(answer);
    let worded = captioned + wording(answer);
    law_parts_can_be_escaped_apart(header, bytecode);
    lemma_clean_seam(script, "\n\n"@);
    law_parts_can_be_escaped_apart(script, "\n\n"@);
    lemma_clean_seam(spaced, caption(answer));
    law_parts_can_be_escaped_apart(spaced, caption(answer));
    assert(captioned.last() == '\n' || captioned.last() == ' ');
    lemma_clean_seam(captioned, wording(answer));
    law_parts_can_be_escaped_apart(captioned, wording(answer));
    lemma_clean_seam(worded, "\n"@);
    law_parts_can_be_escaped_apart(worded, "\n"@);
    assert(decompiled_cdata(header, bytecode, answer) =~= escaped(
        section_text(header, bytecode, answer),
    ));
    law_escaped_text_reads_back(section_text(header, bytecode, answer));
}

/// A document can be processed again: the section that is written for a script reads back with the
/// same header and bytecode in it, unless the answer brings in a marker that is preferred.
pub proof fn law_written_script_is_found_again(
    text: Seq<char>,
    answer: Result<Seq<char>, Seq<char>>,
)
    requires
        crate::bytecode::embedded_in(text) is Some,
        ({
            let (header, bytecode) = crate::bytecode::embedded_in(text)->0;
            crate::text::absent(text, crate::bytecode::BYTECODE_START_LF@) ==> crate::text::absent(
                section_text(header, bytecode, answer),
                crate::bytecode::BYTECODE_START_LF@,
            )
        }),
    ensures
        ({
            let (header, bytecode) = crate::bytecode::embedded_in(text)->0;
            let section = section_text(header, bytecode, answer);
            &&& read_sections(decompiled_cdata(header, bytecode, answer) + CDATA_END@) == Some(
                section,
            )
            &&& crate::bytecode::embedded_in(section) == Some((header, bytecode))
        }),
{
    let (header, bytecode) = crate::bytecode::embedded_in(text)->0;
    let section = section_text(header, bytecode, answer);
    let suffix = "\n\n"@ + caption(answer) + wording(answer) + "\n"@;
    crate::bytecode::law_extraction_cuts_a_prefix(text);
    reveal_strlit("\n\n");
    reveal_strlit("-- Bytecode (Base64):\n-- ");
    reveal_strlit("-- Bytecode (Base64):\r\n-- ");
    assert(header.last() == ' ') by {
        let lf = crate::bytecode::BYTECODE_START_LF@;
        let crlf = crate::bytecode::BYTECODE_START_CRLF@;
        if lf.is_suffix_of(header) {
            assert(header.subrange(header.len() - 25, header.len() as int)[24] == lf[24]);
        } else {
            assert(header.subrange(header.len() - 26, header.len() as int)[25] == crlf[25]);
        }
    }
    lemma_clean_seam(header, bytecode);
    law_section_reads_back(header, bytecode, answer);
    assert(section =~= header + bytecode + suffix);
    assert(suffix[0] == '\n');
    crate::bytecode::law_extraction_ignores_what_follows(text, suffix);
}

/// Text in which no section ends is written as it is, however long it is.
pub proof fn law_text_without_an_end_is_unchanged(text: Seq<char>)
    requires
        forall|a: Seq<char>, b: Seq<char>| text != #[trigger] (a + "]]>"@ + b),
    ensures
        escaped(text) == text,
{
    crate::text::law_no_cut_no_match(text, "]]>"@);
}

/// The first end of a section in a text is escaped, what stands before it is kept, and the rest is
/// escaped in turn.
pub proof fn law_first_end_is_escaped(before: Seq<char>, after: Seq<char>)
    requires
        forall|a: Seq<char>, b: Seq<char>|
            #[trigger] (a + "]]>"@ + b) == before + "]]>"@ + after ==> before.len() <= a.len(),
    ensures
        escaped(before + "]]>"@ + after) == before + "]]]]><![CDATA[>"@ + escaped(after),
{
    lemma_marks();
    let end = "]]>"@;
    let text = before + end + after;
    crate::text::law_occurrence_is_a_cut(before, end, after);
    crate::text::lemma_first_match_exists(text, end);
    let i = crate::text::first_match(text, end)->0;
    crate::text::law_match_is_the_first_cut(text, end, i);
    assert(text.take(i) + end + text.skip(i + end.len()) == text);
    assert(i == before.len());
    assert(text.take(i) =~= before);
    assert(text.skip(i + 3) =~= after);
}

/// A seam across which no end can be cut out is clean.
proof fn lemma_seam_by_cuts(first: Seq<char>, second: Seq<char>)
    requires
        forall|a: Seq<char>, b: Seq<char>|
            first + second == #[trigger] (a + "]]>"@ + b) ==> a.len() + 3 <= first.len()
                || first.len() <= a.len(),
    ensures
        clean_seam(first, second),
{
    lemma_marks();
    let whole = first + second;
    assert forall|j: int|
        first.len() - 3 < j < first.len() implies !#[trigger] crate::text::occurs_at(
        whole,
        CDATA_END@,
        j,
    ) by {
        if crate::text::occurs_at(whole, CDATA_END@, j) {
            let a = whole.take(j);
            let b = whole.skip(j + 3);
            assert(whole =~= a + whole.subrange(j, j + 3) + b);
            assert(whole == a + "]]>"@ + b);
        }
    }
}

/// The decompiled source is in the section in full: a section for a success reads back as the header,
/// the bytecode and the very source.
pub proof fn law_source_reads_back(header: Seq<char>, bytecode: Seq<char>, source: Seq<char>)
    requires
        forall|a: Seq<char>, b: Seq<char>|
            header + bytecode == #[trigger] (a + "]]>"@ + b) ==> a.len() + 3 <= header.len()
                || header.len() <= a.len(),
    ensures
        read_sections(
            escaped(header) + escaped(bytecode) + "\n\n"@ + "-- decompilation:\n"@ + escaped(source)
                + "\n"@ + "]]>"@,
        ) == Some(header + bytecode + "\n\n"@ + "-- decompilation:\n"@ + source + "\n"@),
        read_sections(decompiled_cdata(header, bytecode, Ok(source)) + "]]>"@) == Some(
            header + bytecode + "\n\n"@ + "-- decompilation:\n"@ + source + "\n"@,
        ),
{
    lemma_seam_by_cuts(header, bytecode);
    law_section_reads_back(header, bytecode, Ok(source));
}

/// The reason of a failure is in the section in full: a section for a failure reads back as the
/// header, the bytecode and the very reason.
pub proof fn law_reason_reads_back(header: Seq<char>, bytecode: Seq<char>, reason: Seq<char>)
    requires
        forall|a: Seq<char>, b: Seq<char>|
            header + bytecode == #[trigger] (a + "]]>"@ + b) ==> a.len() + 3 <= header.len()
                || header.len() <= a.len(),
    ensures
        read_sections(
            escaped(header) + escaped(bytecode) + "\n\n"@ + "-- decompilation failed:\n-- "@
                + escaped(reason) + "\n"@ + "]]>"@,
        ) == Some(header + bytecode + "\n\n"@ + "-- decompilation failed:\n-- "@ + reason + "\n"@),
        read_sections(decompiled_cdata(header, bytecode, Err(reason)) + "]]>"@) == Some(
            header + bytecode + "\n\n"@ + "-- decompilation failed:\n-- "@ + reason + "\n"@,
        ),
{
    lemma_seam_by_cuts(header, bytecode);
    law_section_reads_back(header, bytecode, Err(reason));
}

/// Where no section ends in any of the parts, the section is the parts one after the other.
pub proof fn law_plain_parts_are_written_plainly(
    header: Seq<char>,
    bytecode: Seq<char>,
    text: Seq<char>,
)
    requires
        forall|a: Seq<char>, b: Seq<char>|
            header != #[trigger] (a + "]]>"@ + b) && bytecode != a + "]]>"@ + b && text != a
                + "]]>"@ + b,
    ensures
        decompiled_cdata(header, bytecode, Ok(text)) == header + bytecode + "\n\n"@
            + "-- decompilation:\n"@ + text + "\n"@,
        decompiled_cdata(header, bytecode, Err(text)) == header + bytecode + "\n\n"@
            + "-- decompilation failed:\n-- "@ + text + "\n"@,
{
    law_text_without_an_end_is_unchanged(header);
    law_text_without_an_end_is_unchanged(bytecode);
    law_text_without_an_end_is_unchanged(text);
}

/// Different answers give different sections, whatever they say and however long they are.
pub proof fn law_sections_tell_answers_apart(
    header: Seq<char>,
    bytecode: Seq<char>,
    one: Seq<char>,
    other: Seq<char>,
)
    requires
        forall|a: Seq<char>, b: Seq<char>|
            header + bytecode == #[trigger] (a + "]]>"@ + b) ==> a.len() + 3 <= header.len()
                || header.len() <= a.len(),
    ensures
        decompiled_cdata(header, bytecode, Ok(one)) == decompiled_cdata(header, bytecode, Ok(other))
            ==> one == other,
        decompiled_cdata(header, bytecode, Err(one)) == decompiled_cdata(
            header,
            bytecode,
            Err(other),
        ) ==> one == other,
        decompiled_cdata(header, bytecode, Ok(one)) != decompiled_cdata(header, bytecode, Err(other)),
{
    law_source_reads_back(header, bytecode, one);
    law_source_reads_back(header, bytecode, other);
    law_reason_reads_back(header, bytecode, one);
    law_reason_reads_back(header, bytecode, other);
    let start = header + bytecode + "\n\n"@;
    let good = "-- decompilation:\n"@;
    let bad = "-- decompilation failed:\n-- "@;
    reveal_strlit("-- decompilation:\n");
    reveal_strlit("-- decompilation failed:\n-- ");
    reveal_strlit("\n");
    let n = start.len() as int;
    if start + good + one + "\n"@ == start + good + other + "\n"@ {
        let m = n + good.len();
        assert((start + good + one + "\n"@).len() == (start + good + other + "\n"@).len());
        assert((start + good + one + "\n"@).len() == m + one.len() + 1);
        assert((start + good + other + "\n"@).len() == m + other.len() + 1);
        assert((start + good + one + "\n"@).subrange(m, m + one.len()) =~= one);
        assert((start + good + other + "\n"@).subrange(m, m + other.len()) =~= other);
    }
    if start + bad + one + "\n"@ == start + bad + other + "\n"@ {
        let m = n + bad.len();
        assert((start + bad + one + "\n"@).len() == (start + bad + other + "\n"@).len());
        assert((start + bad + one + "\n"@).len() == m + one.len() + 1);
        assert((start + bad + other + "\n"@).len() == m + other.len() + 1);
        assert((start + bad + one + "\n"@).subrange(m, m + one.len()) =~= one);
        assert((start + bad + other + "\n"@).subrange(m, m + other.len()) =~= other);
    }
    assert((start + good + one + "\n"@)[n + 16] == good[16]);
    assert((start + bad + other + "\n"@)[n + 16] == bad[16]);
    assert(good[16] == ':' && bad[16] == ' ');
}

} // verus!
