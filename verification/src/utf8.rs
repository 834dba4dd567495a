//! Reading UTF-8 that may be cut off or damaged: how far it is sound, and what is wrong after that.

use vstd::prelude::*;
use vstd::utf8::*;

verus! {

/// Some continuation of `bytes` begins with a well-formed character.
pub open spec fn begins_scalar(bytes: Seq<u8>) -> bool {
    exists|tail: Seq<u8>| valid_first_scalar(#[trigger] (bytes + tail))
}

/// `bytes` begins with a character that the end of `bytes` cuts off.
pub open spec fn truncated(bytes: Seq<u8>) -> bool {
    &&& bytes.len() > 0
    &&& !valid_first_scalar(bytes)
    &&& begins_scalar(bytes)
}

/// How many bytes at the start of `bytes` form one ill-formed sequence, where no character begins:
/// the longest run that could still have become a character, and at least one byte.
pub open spec fn invalid_len(bytes: Seq<u8>) -> int {
    if bytes.len() >= 3 && begins_scalar(bytes.take(3)) {
        3
    } else if bytes.len() >= 2 && begins_scalar(bytes.take(2)) {
        2
    } else {
        1
    }
}

/// The length of the longest prefix of `bytes` that is made of well-formed characters.
pub open spec fn valid_prefix_len(bytes: Seq<u8>) -> int
    decreases bytes.len(),
{
    if bytes.len() > 0 && valid_first_scalar(bytes) {
        length_of_first_scalar(bytes) + valid_prefix_len(pop_first_scalar(bytes))
    } else {
        0
    }
}

/// The text that `bytes` encodes, with one U+FFFD in place of each ill-formed sequence, and of a
/// character that the end cuts off.
pub open spec fn lossy_text(bytes: Seq<u8>) -> Seq<char>
    decreases bytes.len(),
{
    if bytes.len() == 0 {
        Seq::empty()
    } else if valid_first_scalar(bytes) {
        seq![decode_first_scalar(bytes) as char] + lossy_text(pop_first_scalar(bytes))
    } else if truncated(bytes) {
        seq!['\u{fffd}']
    } else {
        seq!['\u{fffd}'] + lossy_text(bytes.skip(invalid_len(bytes)))
    }
}

/// Well-formed text is read as it is.
pub proof fn law_well_formed_text_is_read_exactly(bytes: Seq<u8>)
    requires
        valid_utf8(bytes),
    ensures
        lossy_text(bytes) == decode_utf8(bytes),
    decreases bytes.len(),
{
    if bytes.len() > 0 {
        law_well_formed_text_is_read_exactly(pop_first_scalar(bytes));
    }
}

/// What stands at the start of a byte sequence.
#[derive(Debug, Clone, Copy, PartialEq, Eq)]
pub enum Lead {
    /// A well-formed character of that many bytes.
    Scalar(usize),
    /// A character that the end of the bytes cuts off.
    Truncated,
    /// An ill-formed sequence of that many bytes.
    Invalid(usize),
}

/// How a byte sequence reads as UTF-8.
#[derive(Debug, Clone, Copy, PartialEq, Eq)]
pub struct Utf8Scan {
    /// The number of leading bytes that are well-formed.
    pub valid_up_to: usize,
    /// What stands after them: nothing, if all bytes are well-formed.
    pub fault: Option<Utf8Fault>,
}

/// Why UTF-8 stops being well-formed.
#[derive(Debug, Clone, Copy, PartialEq, Eq)]
pub enum Utf8Fault {
    /// The end of the bytes cuts off a character.
    Truncated,
    /// An ill-formed sequence of that many bytes.
    Invalid(usize),
}

/// `byte` may follow `lead` in a well-formed character of more than one byte.
spec fn second_fits(lead: u8, byte: u8) -> bool {
    if lead == 0xe0 {
        0xa0 <= byte <= 0xbf
    } else if lead == 0xed {
        0x80 <= byte <= 0x9f
    } else if lead == 0xf0 {
        0x90 <= byte <= 0xbf
    } else if lead == 0xf4 {
        0x80 <= byte <= 0x8f
    } else {
        0x80 <= byte <= 0xbf
    }
}

/// The number of bytes of a well-formed character that starts with `lead`; zero if none does.
spec fn width_of(lead: u8) -> int {
    if lead <= 0x7f {
        1
    } else if 0xc2 <= lead <= 0xdf {
        2
    } else if 0xe0 <= lead <= 0xef {
        3
    } else if 0xf0 <= lead <= 0xf4 {
        4
    } else {
        0
    }
}

/// The bytes at hand agree with a character that starts with `bytes[0]`.
spec fn fits(bytes: Seq<u8>) -> bool {
    let width = width_of(bytes[0]);
    &&& width > 0
    &&& (width >= 2 && bytes.len() >= 2 ==> second_fits(bytes[0], bytes[1]))
    &&& (width >= 3 && bytes.len() >= 3 ==> is_continuation_byte(bytes[2]))
    &&& (width >= 4 && bytes.len() >= 4 ==> is_continuation_byte(bytes[3]))
}

proof fn lemma_width_2(a: u8, b: u8)
    requires
        0xc0 <= a <= 0xdf,
        0x80 <= b <= 0xbf,
    ensures
        0x80 <= codepoint_width_2(a, b) <==> 0xc2 <= a,
        codepoint_width_2(a, b) <= 0x7ff,
{
    assert(0x80 <= (((a & 0x1f) as u32) << 6 | ((b & 0x3f) as u32)) <==> 0xc2 <= a) by (bit_vector)
        requires
            0xc0 <= a <= 0xdf,
            0x80 <= b <= 0xbf,
    ;
    assert((((a & 0x1f) as u32) << 6 | ((b & 0x3f) as u32)) <= 0x7ff) by (bit_vector);
}

proof fn lemma_width_3(a: u8, b: u8, c: u8)
    requires
        0xe0 <= a <= 0xef,
        0x80 <= b <= 0xbf,
        0x80 <= c <= 0xbf,
    ensures
        (0x800 <= codepoint_width_3(a, b, c) && !(0xd800 <= codepoint_width_3(a, b, c) <= 0xdfff))
            <==> second_fits(a, b),
{
    let cp = (((a & 0x0f) as u32) << 12) | (((b & 0x3f) as u32) << 6) | ((c & 0x3f) as u32);
    assert(0x800 <= cp <==> (a != 0xe0 || 0xa0 <= b)) by (bit_vector)
        requires
            cp == (((a & 0x0f) as u32) << 12) | (((b & 0x3f) as u32) << 6) | ((c & 0x3f) as u32),
            0xe0 <= a <= 0xef,
            0x80 <= b <= 0xbf,
            0x80 <= c <= 0xbf,
    ;
    assert((0xd800 <= cp && cp <= 0xdfff) <==> (a == 0xed && 0xa0 <= b)) by (bit_vector)
        requires
            cp == (((a & 0x0f) as u32) << 12) | (((b & 0x3f) as u32) << 6) | ((c & 0x3f) as u32),
            0xe0 <= a <= 0xef,
            0x80 <= b <= 0xbf,
            0x80 <= c <= 0xbf,
    ;
}

proof fn lemma_width_4(a: u8, b: u8, c: u8, d: u8)
    requires
        0xf0 <= a <= 0xf7,
        0x80 <= b <= 0xbf,
        0x80 <= c <= 0xbf,
        0x80 <= d <= 0xbf,
    ensures
        0x10000 <= codepoint_width_4(a, b, c, d) <= 0x10ffff <==> a <= 0xf4 && second_fits(a, b),
{
    let cp = (((a & 0x07) as u32) << 18) | (((b & 0x3f) as u32) << 12) | (((c & 0x3f) as u32) << 6)
        | ((d & 0x3f) as u32);
    assert(0x10000 <= cp <==> (a != 0xf0 || 0x90 <= b)) by (bit_vector)
        requires
            cp == (((a & 0x07) as u32) << 18) | (((b & 0x3f) as u32) << 12) | (((c & 0x3f) as u32)
                << 6) | ((d & 0x3f) as u32),
            0xf0 <= a <= 0xf7,
            0x80 <= b <= 0xbf,
            0x80 <= c <= 0xbf,
            0x80 <= d <= 0xbf,
    ;
    assert(cp <= 0x10ffff <==> (a < 0xf4 || (a == 0xf4 && b <= 0x8f))) by (bit_vector)
        requires
            cp == (((a & 0x07) as u32) << 18) | (((b & 0x3f) as u32) << 12) | (((c & 0x3f) as u32)
                << 6) | ((d & 0x3f) as u32),
            0xf0 <= a <= 0xf7,
            0x80 <= b <= 0xbf,
            0x80 <= c <= 0xbf,
            0x80 <= d <= 0xbf,
    ;
}

/// Well-formedness of the first character, byte by byte.
proof fn lemma_first_scalar_bytes(bytes: Seq<u8>)
    requires
        bytes.len() > 0,
    ensures
        valid_first_scalar(bytes) <==> fits(bytes) && bytes.len() >= width_of(bytes[0]),
        valid_first_scalar(bytes) ==> length_of_first_scalar(bytes) == width_of(bytes[0]),
{
    let a = bytes[0];
    if is_leading_byte_width_1(a) {
        assert(a & 0x7f == a) by (bit_vector)
            requires
                a <= 0x7f,
        ;
    } else if is_leading_byte_width_2(a) {
        if bytes.len() >= 2 && is_continuation_byte(bytes[1]) {
            lemma_width_2(a, bytes[1]);
        }
    } else if is_leading_byte_width_3(a) {
        if bytes.len() >= 3 && is_continuation_byte(bytes[1]) && is_continuation_byte(bytes[2]) {
            lemma_width_3(a, bytes[1], bytes[2]);
        }
    } else if is_leading_byte_width_4(a) {
        if bytes.len() >= 4 && is_continuation_byte(bytes[1]) && is_continuation_byte(bytes[2])
            && is_continuation_byte(bytes[3]) {
            lemma_width_4(a, bytes[1], bytes[2], bytes[3]);
        }
    }
}

/// Whether a character can begin with the bytes at hand, byte by byte.
proof fn lemma_begins_bytes(bytes: Seq<u8>)
    requires
        bytes.len() > 0,
    ensures
        begins_scalar(bytes) <==> fits(bytes),
{
    if begins_scalar(bytes) {
        let tail = choose|tail: Seq<u8>| valid_first_scalar(#[trigger] (bytes + tail));
        let whole = bytes + tail;
        lemma_first_scalar_bytes(whole);
        assert(whole[0] == bytes[0]);
        assert(bytes.len() >= 2 ==> whole[1] == bytes[1]);
        assert(bytes.len() >= 3 ==> whole[2] == bytes[2]);
        assert(bytes.len() >= 4 ==> whole[3] == bytes[3]);
    }
    if fits(bytes) {
        let second: u8 = if bytes[0] == 0xe0 {
            0xa0
        } else if bytes[0] == 0xf0 {
            0x90
        } else {
            0x80
        };
        let tail: Seq<u8> = if bytes.len() == 1 {
            seq![second, 0x80u8, 0x80u8]
        } else {
            seq![0x80u8, 0x80u8]
        };
        let whole = bytes + tail;
        assert(whole[0] == bytes[0]);
        assert(bytes.len() >= 2 ==> whole[1] == bytes[1]);
        assert(bytes.len() >= 3 ==> whole[2] == bytes[2]);
        assert(bytes.len() >= 4 ==> whole[3] == bytes[3]);
        lemma_first_scalar_bytes(whole);
        assert(valid_first_scalar(bytes + tail));
    }
}

/// More bytes do not change a character that is already complete.
pub proof fn lemma_first_scalar_extends(bytes: Seq<u8>, more: Seq<u8>)
    requires
        bytes.len() > 0,
        valid_first_scalar(bytes),
    ensures
        valid_first_scalar(bytes + more),
        length_of_first_scalar(bytes + more) == length_of_first_scalar(bytes),
        0 < length_of_first_scalar(bytes) <= bytes.len(),
{
    lemma_first_scalar_bytes(bytes);
    lemma_first_scalar_bytes(bytes + more);
}

/// More bytes do not mend a sequence with which no character begins, nor change its extent.
pub proof fn lemma_invalid_extends(bytes: Seq<u8>, more: Seq<u8>)
    requires
        bytes.len() > 0,
        !begins_scalar(bytes),
    ensures
        !begins_scalar(bytes + more),
        !valid_first_scalar(bytes + more),
        !valid_first_scalar(bytes),
        invalid_len(bytes + more) == invalid_len(bytes),
        1 <= invalid_len(bytes) <= bytes.len(),
{
    let whole = bytes + more;
    lemma_begins_bytes(bytes);
    lemma_begins_bytes(whole);
    lemma_first_scalar_bytes(bytes);
    lemma_first_scalar_bytes(whole);
    if bytes.len() >= 3 {
        assert(whole.take(3) =~= bytes.take(3));
    } else if whole.len() >= 3 {
        lemma_begins_bytes(whole.take(3));
    }
    if bytes.len() >= 2 {
        assert(whole.take(2) =~= bytes.take(2));
    } else if whole.len() >= 2 {
        lemma_begins_bytes(whole.take(2));
    }
}

/// Classifies the start of `bytes` from index `start` on.
pub fn read_lead(bytes: &[u8], start: usize) -> (lead: Lead)
    requires
        start < bytes@.len(),
    ensures
        ({
            let rest = bytes@.skip(start as int);
            match lead {
                Lead::Scalar(n) => valid_first_scalar(rest) && n == length_of_first_scalar(rest) && n
                    <= rest.len(),
                Lead::Truncated => truncated(rest),
                Lead::Invalid(n) => !begins_scalar(rest) && n == invalid_len(rest),
            }
        }),
{
    let ghost rest = bytes@.skip(start as int);
    let have: usize = bytes.len() - start;
    let first = bytes[start];
    proof {
        lemma_first_scalar_bytes(rest);
        lemma_begins_bytes(rest);
        if have >= 2 {
            lemma_begins_bytes(rest.take(2));
        }
        if have >= 3 {
            lemma_begins_bytes(rest.take(3));
        }
    }
    let width: usize = if first <= 0x7f {
        1
    } else if 0xc2 <= first && first <= 0xdf {
        2
    } else if 0xe0 <= first && first <= 0xef {
        3
    } else if 0xf0 <= first && first <= 0xf4 {
        4
    } else {
        return Lead::Invalid(1);
    };
    if width == 1 {
        return Lead::Scalar(1);
    }
    if have < 2 {
        return Lead::Truncated;
    }
    let second = bytes[start + 1];
    let second_ok = if first == 0xe0 {
        0xa0 <= second && second <= 0xbf
    } else if first == 0xed {
        0x80 <= second && second <= 0x9f
    } else if first == 0xf0 {
        0x90 <= second && second <= 0xbf
    } else if first == 0xf4 {
        0x80 <= second && second <= 0x8f
    } else {
        0x80 <= second && second <= 0xbf
    };
    if !second_ok {
        return Lead::Invalid(1);
    }
    if width == 2 {
        return Lead::Scalar(2);
    }
    if have < 3 {
        return Lead::Truncated;
    }
    let third = bytes[start + 2];
    if third < 0x80 || third > 0xbf {
        return Lead::Invalid(2);
    }
    if width == 3 {
        return Lead::Scalar(3);
    }
    if have < 4 {
        return Lead::Truncated;
    }
    let fourth = bytes[start + 3];
    if fourth < 0x80 || fourth > 0xbf {
        return Lead::Invalid(3);
    }
    Lead::Scalar(4)
}

/// Reads `bytes` from index `start` on as UTF-8.
pub fn scan_utf8(bytes: &[u8], start: usize) -> (scan: Utf8Scan)
    requires
        start <= bytes@.len(),
    ensures
        ({
            let tail = bytes@.skip(start as int);
            let rest = tail.skip(scan.valid_up_to as int);
            &&& scan.valid_up_to == valid_prefix_len(tail)
            &&& scan.valid_up_to <= tail.len()
            &&& match scan.fault {
                None => scan.valid_up_to == tail.len(),
                Some(Utf8Fault::Truncated) => truncated(rest),
                Some(Utf8Fault::Invalid(n)) => rest.len() > 0 && !begins_scalar(rest) && n
                    == invalid_len(rest),
            }
        }),
{
    let ghost tail = bytes@.skip(start as int);
    let mut at: usize = start;
    while at < bytes.len()
        invariant
            start <= at <= bytes@.len(),
            tail == bytes@.skip(start as int),
            valid_prefix_len(tail) == (at - start) + valid_prefix_len(bytes@.skip(at as int)),
        decreases bytes@.len() - at,
    {
        let ghost rest = bytes@.skip(at as int);
        assert(tail.skip(at - start) =~= rest);
        match read_lead(bytes, at) {
            Lead::Scalar(n) => {
                proof {
                    lemma_first_scalar_extends(rest, Seq::empty());
                    assert(pop_first_scalar(rest) =~= bytes@.skip(at + n));
                }
                at = at + n;
            },
            Lead::Truncated => {
                return Utf8Scan { valid_up_to: at - start, fault: Some(Utf8Fault::Truncated) };
            },
            Lead::Invalid(n) => {
                proof {
                    lemma_invalid_extends(rest, Seq::empty());
                }
                return Utf8Scan { valid_up_to: at - start, fault: Some(Utf8Fault::Invalid(n)) };
            },
        }
    }
    assert(bytes@.skip(at as int).len() == 0);
    Utf8Scan { valid_up_to: at - start, fault: None }
}

/// The valid prefix is well-formed, and no longer prefix is.
pub proof fn lemma_valid_prefix_is_longest(bytes: Seq<u8>, len: int)
    requires
        0 <= len <= bytes.len(),
    ensures
        0 <= valid_prefix_len(bytes) <= bytes.len(),
        valid_utf8(bytes.take(valid_prefix_len(bytes))),
        valid_utf8(bytes.take(len)) ==> len <= valid_prefix_len(bytes),
    decreases bytes.len(),
{
    if bytes.len() > 0 && valid_first_scalar(bytes) {
        let n = length_of_first_scalar(bytes);
        lemma_first_scalar_extends(bytes, Seq::empty());
        let rest = pop_first_scalar(bytes);
        lemma_valid_prefix_is_longest(rest, if len >= n {
            len - n
        } else {
            0
        });
        let v = valid_prefix_len(bytes);
        let head = bytes.take(v);
        assert(head.len() > 0);
        lemma_first_scalar_bytes(head);
        lemma_first_scalar_bytes(bytes);
        assert(pop_first_scalar(head) =~= rest.take(v - n));
        if valid_utf8(bytes.take(len)) && len > 0 {
            let part = bytes.take(len);
            lemma_first_scalar_bytes(part);
            assert(len >= n);
            assert(pop_first_scalar(part) =~= rest.take(len - n));
        }
    } else {
        assert(bytes.take(0).len() == 0);
        if valid_utf8(bytes.take(len)) && len > 0 {
            let part = bytes.take(len);
            let rest = bytes.skip(len);
            lemma_first_scalar_extends(part, rest);
            assert(part + rest =~= bytes);
        }
    }
}

/// The bytes of a character of more than one byte are all outside ASCII.
pub proof fn lemma_wide_scalar_bytes(bytes: Seq<u8>, i: int)
    requires
        bytes.len() > 0,
        valid_first_scalar(bytes),
        length_of_first_scalar(bytes) > 1,
        0 <= i < length_of_first_scalar(bytes),
    ensures
        bytes[i] >= 0x80,
{
    lemma_first_scalar_bytes(bytes);
}

/// A character by itself is well-formed text.
pub proof fn lemma_single_scalar_valid(bytes: Seq<u8>)
    requires
        bytes.len() > 0,
        valid_first_scalar(bytes),
    ensures
        valid_utf8(take_first_scalar(bytes)),
{
    lemma_first_scalar_bytes(bytes);
    let head = take_first_scalar(bytes);
    lemma_first_scalar_bytes(head);
    assert(pop_first_scalar(head).len() == 0);
    assert(valid_utf8(pop_first_scalar(head)));
}

/// The encoding of U+FFFD is well-formed.
pub proof fn lemma_replacement_valid()
    ensures
        valid_utf8(seq![0xefu8, 0xbfu8, 0xbdu8]),
{
    let bytes = seq![0xefu8, 0xbfu8, 0xbdu8];
    lemma_first_scalar_bytes(bytes);
    assert(take_first_scalar(bytes) =~= bytes);
    lemma_single_scalar_valid(bytes);
}

/// The sound beginning is the longest: it is well-formed, and no well-formed beginning is longer.
pub proof fn law_sound_beginning_is_the_longest(sound: Seq<u8>, rest: Seq<u8>)
    requires
        valid_utf8(sound),
    ensures
        valid_prefix_len(sound + rest) == sound.len() + valid_prefix_len(rest),
        valid_utf8((sound + rest).take(valid_prefix_len(sound + rest))),
        rest.len() > 0 && !valid_first_scalar(rest) ==> valid_prefix_len(sound + rest)
            == sound.len(),
    decreases sound.len(),
{
    let whole = sound + rest;
    lemma_valid_prefix_is_longest(whole, 0);
    if sound.len() > 0 {
        lemma_first_scalar_extends(sound, rest);
        let tail = pop_first_scalar(sound);
        assert(pop_first_scalar(whole) =~= tail + rest);
        law_sound_beginning_is_the_longest(tail, rest);
    } else {
        assert(whole =~= rest);
    }
}

/// An ill-formed sequence is the longest run that some character begins with, or else one byte.
pub proof fn law_ill_formed_sequence_is_maximal(bytes: Seq<u8>, k: int)
    requires
        bytes.len() > 0,
        !begins_scalar(bytes),
        1 <= k <= bytes.len(),
    ensures
        1 <= invalid_len(bytes) <= 3,
        invalid_len(bytes) <= bytes.len(),
        invalid_len(bytes) > 1 ==> begins_scalar(bytes.take(invalid_len(bytes))),
        begins_scalar(bytes.take(k)) ==> k <= invalid_len(bytes),
{
    lemma_invalid_extends(bytes, Seq::empty());
    if begins_scalar(bytes.take(k)) && k >= 4 {
        lemma_begins_bytes(bytes.take(k));
        lemma_begins_bytes(bytes);
    }
}

/// Damaged text is read piece by piece: what is well-formed as it is, and one U+FFFD for each
/// ill-formed sequence after it.
pub proof fn law_damaged_text_is_read_piecewise(text: Seq<char>, rest: Seq<u8>)
    ensures
        lossy_text(encode_utf8(text) + rest) == text + lossy_text(rest),
        rest.len() > 0 && truncated(rest) ==> lossy_text(encode_utf8(text) + rest) == text.push(
            '\u{fffd}',
        ),
        rest.len() > 0 && !begins_scalar(rest) ==> lossy_text(encode_utf8(text) + rest)
            == text.push('\u{fffd}') + lossy_text(rest.skip(invalid_len(rest))),
    decreases text.len(),
{
    let bytes = encode_utf8(text);
    if rest.len() > 0 && !begins_scalar(rest) {
        lemma_invalid_extends(rest, Seq::empty());
    }
    if text.len() > 0 {
        let more = text.drop_first();
        encode_utf8_valid_utf8(text);
        encode_utf8_first_scalar(text);
        lemma_first_scalar_extends(bytes, rest);
        lemma_first_scalar_bytes(bytes);
        lemma_first_scalar_bytes(bytes + rest);
        encode_utf8_decode_utf8(text);
        encode_utf8_valid_utf8(more);
        encode_utf8_decode_utf8(more);
        assert(pop_first_scalar(bytes) =~= encode_utf8(more));
        assert(pop_first_scalar(bytes + rest) =~= encode_utf8(more) + rest);
        assert(decode_utf8(bytes)[0] == text[0]);
        assert(decode_first_scalar(bytes + rest) == decode_first_scalar(bytes));
        law_damaged_text_is_read_piecewise(more, rest);
        assert(text =~= seq![text[0]] + more);
    } else {
        assert(bytes + rest =~= rest);
    }
    assert(lossy_text(bytes + rest) =~= text + lossy_text(rest));
    assert(rest.len() > 0 && truncated(rest) ==> lossy_text(bytes + rest) =~= text.push(
        '\u{fffd}',
    ));
    assert(rest.len() > 0 && !begins_scalar(rest) ==> lossy_text(bytes + rest) =~= text.push(
        '\u{fffd}',
    ) + lossy_text(rest.skip(invalid_len(rest))));
}

/// A character is cut off exactly where more bytes would complete it, and fewer than four bytes of it
/// are there; nothing begins a character that no bytes can complete.
pub proof fn law_cut_off_character_can_be_completed(bytes: Seq<u8>, more: Seq<u8>)
    requires
        bytes.len() > 0,
    ensures
        truncated(bytes) ==> bytes.len() < 4 && begins_scalar(bytes) && !valid_first_scalar(bytes),
        !valid_first_scalar(bytes) && valid_first_scalar(bytes + more) ==> truncated(bytes),
        valid_first_scalar(bytes + more) ==> begins_scalar(bytes),
        begins_scalar(bytes) ==> exists|tail: Seq<u8>| valid_first_scalar(#[trigger] (bytes + tail)),
{
    lemma_begins_bytes(bytes);
    lemma_first_scalar_bytes(bytes);
}

} // verus!
