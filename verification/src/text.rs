//! Searching for ASCII markers in text, and how positions in characters and in UTF-8 bytes relate.

use vstd::prelude::*;
use vstd::utf8::*;

verus! {

/// `needle` stands in `hay` at index `i`.
pub open spec fn occurs_at<T>(hay: Seq<T>, needle: Seq<T>, i: int) -> bool {
    &&& 0 <= i
    &&& i + needle.len() <= hay.len()
    &&& hay.subrange(i, i + needle.len()) == needle
}

/// `i` is the smallest index at which `needle` stands in `hay`.
pub open spec fn first_at<T>(hay: Seq<T>, needle: Seq<T>, i: int) -> bool {
    &&& occurs_at(hay, needle, i)
    &&& forall|j: int| 0 <= j < i ==> !occurs_at(hay, needle, j)
}

/// `needle` stands nowhere in `hay`.
pub open spec fn absent<T>(hay: Seq<T>, needle: Seq<T>) -> bool {
    forall|j: int| !occurs_at(hay, needle, j)
}

/// The smallest index at which `needle` stands in `hay`, if it stands there at all.
pub open spec fn first_match<T>(hay: Seq<T>, needle: Seq<T>) -> Option<int> {
    if absent(hay, needle) {
        None
    } else {
        Some(choose|i: int| first_at(hay, needle, i))
    }
}

/// There is only one smallest index.
pub proof fn lemma_first_match_is<T>(hay: Seq<T>, needle: Seq<T>, i: int)
    requires
        first_at(hay, needle, i),
    ensures
        first_match(hay, needle) == Some(i),
{
    let k = choose|k: int| first_at(hay, needle, k);
    assert(first_at(hay, needle, k));
    assert(!absent(hay, needle));
    assert(k == i);
}

/// Where `needle` stands at all, it has a first place.
pub proof fn lemma_first_match_exists<T>(hay: Seq<T>, needle: Seq<T>)
    requires
        !absent(hay, needle),
    ensures
        first_match(hay, needle) is Some,
        first_at(hay, needle, first_match(hay, needle)->0),
{
    let k = choose|k: int| occurs_at(hay, needle, k);
    lemma_some_first(hay, needle, k);
}

proof fn lemma_some_first<T>(hay: Seq<T>, needle: Seq<T>, k: int)
    requires
        occurs_at(hay, needle, k),
    ensures
        exists|i: int| first_at(hay, needle, i),
    decreases k,
{
    if exists|j: int| 0 <= j < k && occurs_at(hay, needle, j) {
        let j = choose|j: int| 0 <= j < k && occurs_at(hay, needle, j);
        lemma_some_first(hay, needle, j);
    } else {
        assert(first_at(hay, needle, k));
    }
}

/// Encoding is a homomorphism: texts can be encoded piece by piece.
pub proof fn lemma_encode_concat(a: Seq<char>, b: Seq<char>)
    ensures
        encode_utf8(a + b) == encode_utf8(a) + encode_utf8(b),
    decreases a.len(),
{
    if a.len() == 0 {
        assert(a + b =~= b);
        assert(encode_utf8(a) + encode_utf8(b) =~= encode_utf8(b));
    } else {
        lemma_encode_concat(a.drop_first(), b);
        assert((a + b).drop_first() =~= a.drop_first() + b);
        assert((a + b)[0] == a[0]);
        assert(encode_utf8(a + b) =~= encode_utf8(a) + encode_utf8(b));
    }
}

/// Two texts with the same encoding are the same text.
pub proof fn lemma_encode_injective(a: Seq<char>, b: Seq<char>)
    requires
        encode_utf8(a) == encode_utf8(b),
    ensures
        a == b,
{
    encode_utf8_decode_utf8(a);
    encode_utf8_decode_utf8(b);
}

/// Every character takes at least one byte.
pub proof fn lemma_encode_len(a: Seq<char>)
    ensures
        encode_utf8(a).len() >= a.len(),
    decreases a.len(),
{
    if a.len() > 0 {
        lemma_encode_len(a.drop_first());
    }
}

/// A valid prefix of a valid encoding ends on a character boundary.
pub proof fn lemma_valid_prefix_is_boundary(bytes: Seq<u8>, index: int)
    requires
        valid_utf8(bytes),
        0 <= index <= bytes.len(),
        valid_utf8(bytes.subrange(0, index)),
    ensures
        is_char_boundary(bytes, index),
    decreases index,
{
    let prefix = bytes.subrange(0, index);
    if index > 0 {
        assert(prefix[0] == bytes[0]);
        let n = length_of_first_scalar(prefix);
        assert(n == length_of_first_scalar(bytes));
        let rest = pop_first_scalar(bytes);
        assert(pop_first_scalar(prefix) =~= rest.subrange(0, index - n));
        lemma_valid_prefix_is_boundary(rest, index - n);
    }
}

/// Where a text is cut in two, an ASCII needle stands at the cut in characters exactly when it
/// stands at the cut in bytes.
pub proof fn lemma_occurs_at_cut(before: Seq<char>, after: Seq<char>, needle: Seq<char>)
    requires
        is_ascii_chars(needle),
    ensures
        occurs_at(before + after, needle, before.len() as int) <==> occurs_at(
            encode_utf8(before + after),
            encode_utf8(needle),
            encode_utf8(before).len() as int,
        ),
{
    lemma_encode_concat(before, after);
    is_ascii_chars_encode_utf8(needle);
    let text = before + after;
    let bytes = encode_utf8(text);
    let i = before.len() as int;
    let p = encode_utf8(before).len() as int;
    let n = needle.len() as int;
    if occurs_at(text, needle, i) {
        let tail = after.subrange(n, after.len() as int);
        assert(text.subrange(i, i + n) =~= after.subrange(0, n));
        assert(after =~= needle + tail);
        lemma_encode_concat(needle, tail);
        assert(bytes.subrange(p, p + encode_utf8(needle).len()) =~= encode_utf8(needle));
    }
    if occurs_at(bytes, encode_utf8(needle), p) {
        let rest = encode_utf8(after);
        assert(bytes.subrange(p, p + n) =~= rest.subrange(0, n));
        lemma_ascii_prefix(after, needle);
        assert(text.subrange(i, i + n) =~= after.subrange(0, n));
    }
}

/// If the encoding of `text` begins with an ASCII needle, so does `text`.
proof fn lemma_ascii_prefix(text: Seq<char>, needle: Seq<char>)
    requires
        is_ascii_chars(needle),
        encode_utf8(text).len() >= needle.len(),
        encode_utf8(text).subrange(0, needle.len() as int) == encode_utf8(needle),
    ensures
        text.len() >= needle.len(),
        text.subrange(0, needle.len() as int) == needle,
    decreases needle.len(),
{
    is_ascii_chars_encode_utf8(needle);
    if needle.len() == 0 {
        assert(text.subrange(0, 0) =~= needle);
    } else {
        let bytes = encode_utf8(text);
        assert(text.len() > 0);
        encode_utf8_first_scalar(text);
        char_is_scalar(text[0]);
        let rest = text.drop_first();
        let needle_rest = needle.drop_first();
        assert(bytes[0] == bytes.subrange(0, needle.len() as int)[0]);
        assert(bytes[0] == needle[0] as u8);
        assert(is_leading_byte_width_1(bytes[0]));
        assert(length_of_first_scalar(bytes) == 1);
        let b0 = bytes[0];
        assert(b0 & 0x7f == b0) by (bit_vector)
            requires
                b0 <= 0x7f,
        ;
        assert(text[0] as u32 == needle[0] as u32);
        char_u32_cast(text[0], text[0] as u32);
        char_u32_cast(needle[0], text[0] as u32);
        assert(text[0] == needle[0]);
        assert(encode_scalar(text[0] as u32).len() == 1);
        assert(encode_utf8(rest) =~= bytes.subrange(1, bytes.len() as int));
        is_ascii_chars_encode_utf8(needle_rest);
        assert(encode_utf8(rest).subrange(0, needle_rest.len() as int) =~= encode_utf8(
            needle_rest,
        )) by {
            assert forall|k: int| 0 <= k < needle_rest.len() implies encode_utf8(rest)[k]
                == encode_utf8(needle_rest)[k] by {
                assert(bytes.subrange(0, needle.len() as int)[k + 1] == encode_utf8(needle)[k + 1]);
                assert(needle_rest[k] == needle[k + 1]);
            }
        }
        lemma_ascii_prefix(rest, needle_rest);
        assert(text.subrange(0, needle.len() as int) =~= needle) by {
            assert forall|k: int| 0 <= k < needle.len() implies text[k] == needle[k] by {
                if k > 0 {
                    assert(rest.subrange(0, needle_rest.len() as int)[k - 1] == needle_rest[k - 1]);
                }
            }
        }
    }
}

/// An ASCII needle that stands in the bytes of a text stands on a character boundary.
pub proof fn lemma_ascii_match_is_boundary(text: Seq<char>, needle: Seq<char>, p: int)
    requires
        is_ascii_chars(needle),
        needle.len() > 0,
        occurs_at(encode_utf8(text), encode_utf8(needle), p),
    ensures
        is_char_boundary(encode_utf8(text), p),
        is_char_boundary(encode_utf8(text), p + needle.len()),
{
    let bytes = encode_utf8(text);
    let mark = encode_utf8(needle);
    is_ascii_chars_encode_utf8(needle);
    encode_utf8_valid_utf8(text);
    encode_utf8_valid_utf8(needle);
    assert(bytes.subrange(p, p + mark.len())[0] == bytes[p]);
    assert(bytes[p] == needle[0] as u8);
    assert(!is_continuation_byte(bytes[p]));
    is_char_boundary_iff_not_is_continuation_byte(bytes, p);
    valid_utf8_split(bytes, p);
    valid_utf8_concat(bytes.subrange(0, p), mark);
    assert(bytes.subrange(0, p + mark.len()) =~= bytes.subrange(0, p) + mark);
    lemma_valid_prefix_is_boundary(bytes, p + mark.len());
}

/// If an ASCII needle stands nowhere in the bytes of a text before `before`'s end, it stands
/// nowhere in the text before `before`'s end.
pub proof fn lemma_no_earlier_match(before: Seq<char>, after: Seq<char>, needle: Seq<char>)
    requires
        is_ascii_chars(needle),
        forall|q: int|
            0 <= q < encode_utf8(before).len() ==> !occurs_at(
                encode_utf8(before + after),
                encode_utf8(needle),
                q,
            ),
    ensures
        forall|j: int| 0 <= j < before.len() ==> !occurs_at(before + after, needle, j),
{
    assert forall|j: int| 0 <= j < before.len() implies !occurs_at(before + after, needle, j) by {
        let head = before.subrange(0, j);
        let tail = before.subrange(j, before.len() as int);
        assert(before =~= head + tail);
        assert(before + after =~= head + (tail + after));
        lemma_encode_concat(head, tail);
        lemma_encode_len(tail);
        lemma_occurs_at_cut(head, tail + after, needle);
    }
}

/// The first match of an ASCII needle in the bytes of a text is its first match in the text.
pub proof fn lemma_first_match(before: Seq<char>, after: Seq<char>, needle: Seq<char>)
    requires
        is_ascii_chars(needle),
        first_at(
            encode_utf8(before + after),
            encode_utf8(needle),
            encode_utf8(before).len() as int,
        ),
    ensures
        first_at(before + after, needle, before.len() as int),
{
    lemma_occurs_at_cut(before, after, needle);
    lemma_no_earlier_match(before, after, needle);
}

/// An ASCII needle that stands nowhere in the bytes of a text stands nowhere in the text.
pub proof fn lemma_no_match(text: Seq<char>, needle: Seq<char>)
    requires
        is_ascii_chars(needle),
        absent(encode_utf8(text), encode_utf8(needle)),
    ensures
        absent(text, needle),
{
    assert forall|j: int| !occurs_at(text, needle, j) by {
        if occurs_at(text, needle, j) {
            let head = text.subrange(0, j);
            let tail = text.subrange(j, text.len() as int);
            assert(text =~= head + tail);
            lemma_occurs_at_cut(head, tail, needle);
        }
    }
}

/// Cuts a text in two at a byte position.
pub fn split_text(text: &str, at: usize) -> (parts: (&str, &str))
    requires
        is_char_boundary(encode_utf8(text@), at as int),
        at <= encode_utf8(text@).len(),
    ensures
        text@ == parts.0@ + parts.1@,
        encode_utf8(parts.0@) == encode_utf8(text@).subrange(0, at as int),
        encode_utf8(parts.1@) == encode_utf8(text@).subrange(
            at as int,
            encode_utf8(text@).len() as int,
        ),
{
    let parts = text.split_at(at);
    proof {
        let bytes = encode_utf8(text@);
        lemma_encode_concat(parts.0@, parts.1@);
        assert(encode_utf8(parts.0@ + parts.1@) =~= bytes);
        lemma_encode_injective(parts.0@ + parts.1@, text@);
    }
    parts
}

/// A text holds a needle exactly where it can be cut into what stands before it, the needle and what
/// stands after it.
pub proof fn law_occurrence_is_a_cut<T>(before: Seq<T>, needle: Seq<T>, after: Seq<T>)
    ensures
        occurs_at(before + needle + after, needle, before.len() as int),
        !absent(before + needle + after, needle),
{
    let whole = before + needle + after;
    assert(whole.subrange(before.len() as int, (before.len() + needle.len()) as int) =~= needle);
}

/// Whatever is found is there: at the place of a match the text can be cut round the needle, and no
/// cut stands further to the front.
pub proof fn law_match_is_the_first_cut<T>(hay: Seq<T>, needle: Seq<T>, i: int)
    requires
        first_match(hay, needle) == Some(i),
    ensures
        0 <= i <= hay.len() - needle.len(),
        hay == hay.take(i) + needle + hay.skip(i + needle.len()),
        forall|before: Seq<T>, after: Seq<T>|
            hay == #[trigger] (before + needle + after) ==> i <= before.len(),
{
    lemma_first_match_exists(hay, needle);
    assert(hay =~= hay.take(i) + hay.subrange(i, i + needle.len()) + hay.skip(i + needle.len()));
    assert forall|before: Seq<T>, after: Seq<T>|
        hay == #[trigger] (before + needle + after) implies i <= before.len() by {
        law_occurrence_is_a_cut(before, needle, after);
    }
}

/// A text that cannot be cut round the needle has no match.
pub proof fn law_no_cut_no_match<T>(hay: Seq<T>, needle: Seq<T>)
    requires
        forall|before: Seq<T>, after: Seq<T>| hay != #[trigger] (before + needle + after),
    ensures
        first_match(hay, needle) is None,
{
    if !absent(hay, needle) {
        lemma_first_match_exists(hay, needle);
        let i = first_match(hay, needle)->0;
        law_match_is_the_first_cut(hay, needle, i);
    }
}

} // verus!
