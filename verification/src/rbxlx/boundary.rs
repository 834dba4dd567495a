//! Turns a stream of arbitrary bytes, which arrives in pieces of any size, into well-formed UTF-8
//! without the control characters that XML forbids.

use vstd::prelude::*;
use vstd::utf8::*;

use crate::utf8::{scan_utf8, Utf8Fault};

verus! {

broadcast use vstd::seq_lib::group_seq_properties;

/// The most bytes to ask the underlying source for at once.
pub const READ_CHUNK: usize = 65536;

/// How much consumed input may stand in front of the pending bytes before they are moved.
const COMPACT_THRESHOLD: usize = 4096;

/// A byte that may stand in an XML document: not a control character, or a tab or line break.
pub open spec fn xml_valid(byte: u8) -> bool {
    byte >= 0x20 || byte == 0x09 || byte == 0x0a || byte == 0x0d
}

/// Whether `byte` may stand in an XML document.
pub fn is_xml_valid(byte: u8) -> (valid: bool)
    ensures
        valid == xml_valid(byte),
        valid == (byte >= 0x20 || byte == 0x09 || byte == 0x0a || byte == 0x0d),
{
    byte >= 0x20 || byte == 0x09 || byte == 0x0a || byte == 0x0d
}

/// The encoding of U+FFFD, which stands for what could not be read.
pub open spec fn replacement() -> Seq<u8> {
    seq![0xefu8, 0xbfu8, 0xbdu8]
}

/// `bytes` without those that XML forbids.
pub open spec fn xml_bytes(bytes: Seq<u8>) -> Seq<u8> {
    bytes.filter(|byte: u8| xml_valid(byte))
}

/// How many bytes one U+FFFD stands for, where `bytes` begins with no whole character and nothing
/// more will come: one, if the end cuts a character off, else the whole ill-formed sequence.
pub open spec fn fault_len(bytes: Seq<u8>) -> int {
    if crate::utf8::truncated(bytes) {
        1
    } else {
        crate::utf8::invalid_len(bytes)
    }
}

/// What a reader hands out for a whole stream: its characters but for the forbidden ones, with
/// U+FFFD in place of what is not well-formed.
pub open spec fn sanitized(bytes: Seq<u8>) -> Seq<u8>
    decreases bytes.len(),
{
    if bytes.len() == 0 {
        Seq::empty()
    } else if valid_first_scalar(bytes) {
        xml_bytes(take_first_scalar(bytes)) + sanitized(pop_first_scalar(bytes))
    } else {
        replacement() + sanitized(bytes.skip(fault_len(bytes)))
    }
}

/// The state of a reader: bytes that came in and were not looked at, bytes that are ready to go
/// out, and whether the source has ended.
#[verifier::ext_equal]
pub struct ReaderView {
    pub pending: Seq<u8>,
    pub output: Seq<u8>,
    pub eof: bool,
}

impl ReaderView {
    /// Nothing can be decided before more input has come.
    pub open spec fn starved(self) -> bool {
        !self.eof && (self.pending.len() == 0 || crate::utf8::truncated(self.pending))
    }

    /// All input has been looked at, and no more will come.
    pub open spec fn exhausted(self) -> bool {
        self.eof && self.pending.len() == 0
    }

    /// The state after `count` pending bytes gave the output `made`.
    pub open spec fn advance(self, count: int, made: Seq<u8>) -> ReaderView {
        ReaderView {
            pending: self.pending.skip(count),
            output: self.output + made,
            eof: self.eof,
        }
    }

    /// The state after the next run of pending bytes has been looked at: the longest run of whole
    /// characters, or one ill-formed sequence.
    pub open spec fn step(self) -> ReaderView {
        let sound = crate::utf8::valid_prefix_len(self.pending);
        if self.starved() || self.pending.len() == 0 {
            self
        } else if sound > 0 {
            self.advance(sound, xml_bytes(self.pending.take(sound)))
        } else {
            self.advance(fault_len(self.pending), replacement())
        }
    }

    /// The state after the source has handed over `chunk`, where an empty one is the end.
    pub open spec fn fed(self, chunk: Seq<u8>) -> ReaderView {
        if self.eof {
            self
        } else {
            ReaderView {
                pending: self.pending + chunk,
                output: self.output,
                eof: chunk.len() == 0,
            }
        }
    }

    /// The state after steps have been taken until there is output, or until none can be taken.
    pub open spec fn settled(self) -> ReaderView
        decreases self.pending.len(),
    {
        if self.output.len() > 0 || self.starved() || self.exhausted() {
            self
        } else {
            proof {
                lemma_step_shrinks(self);
            }
            self.step().settled()
        }
    }

    /// What is still to be handed out, if the rest of the stream is `rest`.
    pub open spec fn promised(self, rest: Seq<u8>) -> Seq<u8> {
        self.output + sanitized(self.pending + rest)
    }
}

/// A step that can be taken consumes input.
pub proof fn lemma_step_shrinks(state: ReaderView)
    requires
        !state.starved(),
        !state.exhausted(),
    ensures
        state.step().pending.len() < state.pending.len(),
        state.step().eof == state.eof,
{
    let pending = state.pending;
    crate::utf8::lemma_valid_prefix_is_longest(pending, 0);
    if crate::utf8::valid_prefix_len(pending) == 0 {
        if valid_first_scalar(pending) {
            crate::utf8::lemma_first_scalar_extends(pending, Seq::empty());
            crate::utf8::lemma_valid_prefix_is_longest(pop_first_scalar(pending), 0);
        }
        if !crate::utf8::truncated(pending) {
            crate::utf8::lemma_invalid_extends(pending, Seq::empty());
        }
    }
}

/// A run of whole characters can be handed out before the rest of the stream is known.
proof fn lemma_sanitized_prefix(bytes: Seq<u8>, rest: Seq<u8>)
    ensures
        ({
            let sound = crate::utf8::valid_prefix_len(bytes);
            sanitized(bytes + rest) == xml_bytes(bytes.take(sound)) + sanitized(
                bytes.skip(sound) + rest,
            )
        }),
    decreases bytes.len(),
{
    let sound = crate::utf8::valid_prefix_len(bytes);
    let pred = |byte: u8| xml_valid(byte);
    crate::utf8::lemma_valid_prefix_is_longest(bytes, 0);
    if bytes.len() > 0 && valid_first_scalar(bytes) {
        crate::utf8::lemma_first_scalar_extends(bytes, rest);
        let n = length_of_first_scalar(bytes);
        let whole = bytes + rest;
        let tail = pop_first_scalar(bytes);
        crate::utf8::lemma_valid_prefix_is_longest(tail, 0);
        assert(take_first_scalar(whole) =~= bytes.take(n));
        assert(pop_first_scalar(whole) =~= tail + rest);
        lemma_sanitized_prefix(tail, rest);
        assert(tail.skip(sound - n) =~= bytes.skip(sound));
        assert(bytes.take(sound) =~= bytes.take(n) + tail.take(sound - n));
        Seq::filter_distributes_over_add(bytes.take(n), tail.take(sound - n), pred);
        assert(sanitized(whole) =~= xml_bytes(bytes.take(sound)) + sanitized(
            bytes.skip(sound) + rest,
        ));
    } else {
        assert(bytes.take(0) =~= Seq::<u8>::empty());
        reveal(Seq::filter);
        assert(xml_bytes(bytes.take(0)) =~= Seq::<u8>::empty());
        assert(bytes.skip(0) =~= bytes);
        assert(Seq::<u8>::empty() + sanitized(bytes + rest) =~= sanitized(bytes + rest));
    }
}

/// No step changes what the stream as a whole gives, whatever is still to come.
pub proof fn law_step_keeps_stream(state: ReaderView, rest: Seq<u8>)
    requires
        state.eof ==> rest.len() == 0,
    ensures
        state.step().promised(rest) == state.promised(rest),
{
    let pending = state.pending;
    let sound = crate::utf8::valid_prefix_len(pending);
    if state.starved() || pending.len() == 0 {
    } else if sound > 0 {
        lemma_sanitized_prefix(pending, rest);
        assert(state.step().promised(rest) =~= state.promised(rest));
    } else {
        let whole = pending + rest;
        if valid_first_scalar(pending) {
            crate::utf8::lemma_first_scalar_extends(pending, Seq::empty());
            crate::utf8::lemma_valid_prefix_is_longest(pop_first_scalar(pending), 0);
        }
        if crate::utf8::truncated(pending) {
            assert(whole =~= pending);
        } else {
            crate::utf8::lemma_invalid_extends(pending, rest);
        }
        let n = fault_len(pending);
        assert(whole.skip(n) =~= pending.skip(n) + rest);
        assert(state.step().promised(rest) =~= state.promised(rest));
    }
}

/// Settling changes nothing of what the stream as a whole gives.
pub proof fn law_settling_keeps_stream(state: ReaderView, rest: Seq<u8>)
    requires
        state.eof ==> rest.len() == 0,
    ensures
        state.settled().promised(rest) == state.promised(rest),
        state.settled().eof == state.eof,
        state.settled().output.len() > 0 || state.settled().starved() || state.settled().exhausted(),
    decreases state.pending.len(),
{
    if state.output.len() > 0 || state.starved() || state.exhausted() {
    } else {
        lemma_step_shrinks(state);
        law_step_keeps_stream(state, rest);
        law_settling_keeps_stream(state.step(), rest);
    }
}

/// A read takes the next `count` bytes of what the stream as a whole gives, and leaves the rest of
/// it to later reads.
pub proof fn law_read_is_next_piece(state: ReaderView, count: int, rest: Seq<u8>)
    requires
        state.eof ==> rest.len() == 0,
        0 <= count <= state.settled().output.len(),
    ensures
        ({
            let ready = state.settled();
            let after = ReaderView { output: ready.output.skip(count), ..ready };
            state.promised(rest) == ready.output.take(count) + after.promised(rest)
        }),
{
    law_settling_keeps_stream(state, rest);
    let ready = state.settled();
    let after = ReaderView { output: ready.output.skip(count), ..ready };
    assert(ready.output =~= ready.output.take(count) + after.output);
    assert(ready.promised(rest) =~= ready.output.take(count) + after.promised(rest));
}

/// All that reads hand out before the source has to be read again, and the state they leave.
pub open spec fn drained(state: ReaderView) -> (Seq<u8>, ReaderView)
    decreases state.pending.len(), state.output.len(),
{
    if state.output.len() > 0 {
        let (more, end) = drained(ReaderView { output: Seq::empty(), ..state });
        (state.output + more, end)
    } else if state.starved() || state.exhausted() {
        (Seq::empty(), state)
    } else {
        proof {
            lemma_step_shrinks(state);
        }
        drained(state.step())
    }
}

/// All that reads hand out, if the source then hands over `chunks` one after the other and ends.
pub open spec fn delivered(state: ReaderView, chunks: Seq<Seq<u8>>) -> Seq<u8>
    decreases chunks.len(),
{
    let (out, waiting) = drained(state);
    if chunks.len() == 0 {
        out + drained(waiting.fed(Seq::empty())).0
    } else {
        out + delivered(waiting.fed(chunks[0]), chunks.drop_first())
    }
}

proof fn lemma_drained(state: ReaderView, rest: Seq<u8>)
    requires
        state.eof ==> rest.len() == 0,
    ensures
        ({
            let (out, waiting) = drained(state);
            &&& state.promised(rest) == out + waiting.promised(rest)
            &&& waiting.output.len() == 0
            &&& waiting.eof == state.eof
            &&& waiting.starved() || waiting.exhausted()
        }),
    decreases state.pending.len(), state.output.len(),
{
    if state.output.len() > 0 {
        let bare = ReaderView { output: Seq::empty(), ..state };
        lemma_drained(bare, rest);
        let (more, end) = drained(bare);
        assert(state.promised(rest) =~= state.output + bare.promised(rest));
        assert(state.output + (more + end.promised(rest)) =~= (state.output + more) + end.promised(
            rest,
        ));
    } else if state.starved() || state.exhausted() {
        assert(Seq::<u8>::empty() + state.promised(rest) =~= state.promised(rest));
    } else {
        lemma_step_shrinks(state);
        law_step_keeps_stream(state, rest);
        lemma_drained(state.step(), rest);
    }
}

/// However the stream is cut into chunks, what comes out is the sanitized form of the whole of it.
pub proof fn law_delivers_sanitized_stream(state: ReaderView, chunks: Seq<Seq<u8>>)
    requires
        !state.eof,
        forall|i: int| 0 <= i < chunks.len() ==> (#[trigger] chunks[i]).len() > 0,
    ensures
        delivered(state, chunks) == state.promised(chunks.flatten()),
    decreases chunks.len(),
{
    let rest = chunks.flatten();
    lemma_drained(state, rest);
    let (out, waiting) = drained(state);
    if chunks.len() == 0 {
        let last = waiting.fed(Seq::empty());
        assert(rest =~= Seq::<u8>::empty());
        assert(last.pending =~= waiting.pending);
        lemma_drained(last, Seq::empty());
        let (tail, end) = drained(last);
        assert(last.promised(Seq::empty()) =~= waiting.promised(rest));
        assert(end.pending + Seq::<u8>::empty() =~= Seq::<u8>::empty());
        assert(end.promised(Seq::empty()) =~= Seq::<u8>::empty());
        assert(tail + end.promised(Seq::empty()) =~= tail);
    } else {
        let next = waiting.fed(chunks[0]);
        let others = chunks.drop_first();
        assert forall|i: int| 0 <= i < others.len() implies (#[trigger] others[i]).len() > 0 by {
            assert(others[i] == chunks[i + 1]);
        }
        law_delivers_sanitized_stream(next, others);
        assert(rest =~= chunks[0] + others.flatten());
        assert(next.pending + others.flatten() =~= waiting.pending + rest);
        assert(next.promised(others.flatten()) =~= waiting.promised(rest));
    }
}

/// Two ways to cut one stream into chunks give the same output.
pub proof fn law_chunking_does_not_matter(first: Seq<Seq<u8>>, second: Seq<Seq<u8>>)
    requires
        first.flatten() == second.flatten(),
        forall|i: int| 0 <= i < first.len() ==> (#[trigger] first[i]).len() > 0,
        forall|i: int| 0 <= i < second.len() ==> (#[trigger] second[i]).len() > 0,
    ensures
        ({
            let start = ReaderView { pending: Seq::empty(), output: Seq::empty(), eof: false };
            &&& delivered(start, first) == sanitized(first.flatten())
            &&& delivered(start, second) == delivered(start, first)
        }),
{
    let start = ReaderView { pending: Seq::empty(), output: Seq::empty(), eof: false };
    law_delivers_sanitized_stream(start, first);
    law_delivers_sanitized_stream(start, second);
    assert(start.pending + first.flatten() =~= first.flatten());
    assert(start.promised(first.flatten()) =~= sanitized(first.flatten()));
}

proof fn lemma_filter_keeps_all(bytes: Seq<u8>)
    requires
        forall|i: int| 0 <= i < bytes.len() ==> xml_valid(#[trigger] bytes[i]),
    ensures
        xml_bytes(bytes) == bytes,
    decreases bytes.len(),
{
    reveal(Seq::filter);
    if bytes.len() > 0 {
        let init = bytes.drop_last();
        assert forall|i: int| 0 <= i < init.len() implies xml_valid(#[trigger] init[i]) by {
            assert(init[i] == bytes[i]);
        }
        lemma_filter_keeps_all(init);
        assert(xml_valid(bytes[bytes.len() - 1]));
        assert(xml_bytes(bytes) =~= bytes);
    }
}

/// Of one character, all bytes stay or it is a forbidden one and none does.
proof fn lemma_scalar_kept_whole(bytes: Seq<u8>)
    requires
        bytes.len() > 0,
        valid_first_scalar(bytes),
    ensures
        ({
            let head = take_first_scalar(bytes);
            xml_bytes(head) == (if xml_valid(bytes[0]) {
                head
            } else {
                Seq::empty()
            })
        }),
{
    let head = take_first_scalar(bytes);
    crate::utf8::lemma_first_scalar_extends(bytes, Seq::empty());
    if length_of_first_scalar(bytes) > 1 {
        assert forall|i: int| 0 <= i < head.len() implies xml_valid(#[trigger] head[i]) by {
            crate::utf8::lemma_wide_scalar_bytes(bytes, i);
        }
        assert(xml_valid(head[0]));
        lemma_filter_keeps_all(head);
    } else if xml_valid(bytes[0]) {
        lemma_filter_keeps_all(head);
    } else {
        reveal_with_fuel(Seq::filter, 2);
        assert(head.len() == 1 && head.last() == bytes[0]);
        assert(xml_bytes(head) =~= Seq::<u8>::empty());
    }
}

/// What comes out is well-formed UTF-8 and holds no byte that XML forbids.
pub proof fn law_output_is_xml_text(bytes: Seq<u8>)
    ensures
        valid_utf8(sanitized(bytes)),
        forall|i: int| 0 <= i < sanitized(bytes).len() ==> xml_valid(#[trigger] sanitized(bytes)[i]),
    decreases bytes.len(),
{
    if bytes.len() == 0 {
    } else if valid_first_scalar(bytes) {
        crate::utf8::lemma_first_scalar_extends(bytes, Seq::empty());
        crate::utf8::lemma_single_scalar_valid(bytes);
        lemma_scalar_kept_whole(bytes);
        let head = xml_bytes(take_first_scalar(bytes));
        let tail = sanitized(pop_first_scalar(bytes));
        law_output_is_xml_text(pop_first_scalar(bytes));
        valid_utf8_concat(head, tail);
        assert forall|i: int| 0 <= i < head.len() implies xml_valid(#[trigger] head[i]) by {
            take_first_scalar(bytes).lemma_filter_pred(|byte: u8| xml_valid(byte), i);
        }
        assert forall|i: int| 0 <= i < (head + tail).len() implies xml_valid(
            #[trigger] (head + tail)[i],
        ) by {
            if i < head.len() {
                assert(xml_valid(head[i]));
            } else {
                assert(xml_valid(tail[i - head.len()]));
            }
        }
    } else {
        if !crate::utf8::truncated(bytes) {
            crate::utf8::lemma_invalid_extends(bytes, Seq::empty());
        }
        let tail = sanitized(bytes.skip(fault_len(bytes)));
        law_output_is_xml_text(bytes.skip(fault_len(bytes)));
        crate::utf8::lemma_replacement_valid();
        valid_utf8_concat(replacement(), tail);
        assert forall|i: int| 0 <= i < (replacement() + tail).len() implies xml_valid(
            #[trigger] (replacement() + tail)[i],
        ) by {
            if i >= 3 {
                assert(xml_valid(tail[i - 3]));
            }
        }
    }
}

/// Well-formed text without forbidden characters comes out as it went in.
pub proof fn law_sound_text_is_unchanged(bytes: Seq<u8>)
    requires
        valid_utf8(bytes),
        forall|i: int| 0 <= i < bytes.len() ==> xml_valid(#[trigger] bytes[i]),
    ensures
        sanitized(bytes) == bytes,
    decreases bytes.len(),
{
    if bytes.len() > 0 {
        crate::utf8::lemma_first_scalar_extends(bytes, Seq::empty());
        lemma_scalar_kept_whole(bytes);
        let rest = pop_first_scalar(bytes);
        assert forall|i: int| 0 <= i < rest.len() implies xml_valid(#[trigger] rest[i]) by {
            assert(rest[i] == bytes[i + length_of_first_scalar(bytes)]);
        }
        law_sound_text_is_unchanged(rest);
        assert(xml_valid(bytes[0]));
        assert(sanitized(bytes) =~= bytes);
    } else {
        assert(sanitized(bytes) =~= bytes);
    }
}

/// A stream that has been sanitized once is not changed by being sanitized again.
pub proof fn law_sanitizing_is_idempotent(bytes: Seq<u8>)
    ensures
        sanitized(sanitized(bytes)) == sanitized(bytes),
{
    law_output_is_xml_text(bytes);
    law_sound_text_is_unchanged(sanitized(bytes));
}

/// What is sound is handed out but for the bytes that XML forbids, whatever stands after it.
pub proof fn law_sound_run_is_filtered(text: Seq<u8>, rest: Seq<u8>)
    requires
        valid_utf8(text),
    ensures
        sanitized(text + rest) == text.filter(
            |byte: u8| byte >= 0x20 || byte == 0x09 || byte == 0x0a || byte == 0x0d,
        ) + sanitized(rest),
{
    crate::utf8::law_sound_beginning_is_the_longest(text, Seq::empty());
    assert(text + Seq::<u8>::empty() =~= text);
    lemma_sanitized_prefix(text, rest);
    assert(text.take(text.len() as int) =~= text);
    assert(text.skip(text.len() as int) + rest =~= rest);
    let forbidden_gone = |byte: u8| byte >= 0x20 || byte == 0x09 || byte == 0x0a || byte == 0x0d;
    lemma_filter_same(text, |byte: u8| xml_valid(byte), forbidden_gone);
}

proof fn lemma_filter_same(bytes: Seq<u8>, one: spec_fn(u8) -> bool, other: spec_fn(u8) -> bool)
    requires
        forall|byte: u8| #[trigger] one(byte) == other(byte),
    ensures
        bytes.filter(one) == bytes.filter(other),
    decreases bytes.len(),
{
    reveal(Seq::filter);
    if bytes.len() > 0 {
        lemma_filter_same(bytes.drop_last(), one, other);
        assert(one(bytes.last()) == other(bytes.last()));
    }
}

/// What is not sound is replaced: a sequence with which no character begins by one U+FFFD, and each
/// byte of a character that the end cuts off by another. An empty stream gives nothing.
pub proof fn law_faults_are_replaced(bytes: Seq<u8>)
    ensures
        sanitized(Seq::<u8>::empty()) == Seq::<u8>::empty(),
        bytes.len() > 0 && !crate::utf8::begins_scalar(bytes) ==> sanitized(bytes) == seq![
            0xefu8,
            0xbfu8,
            0xbdu8,
        ] + sanitized(bytes.skip(crate::utf8::invalid_len(bytes))),
        crate::utf8::truncated(bytes) ==> sanitized(bytes) == seq![0xefu8, 0xbfu8, 0xbdu8]
            + sanitized(bytes.skip(1)),
{
    if bytes.len() > 0 && !crate::utf8::begins_scalar(bytes) {
        crate::utf8::lemma_invalid_extends(bytes, Seq::empty());
    }
}

proof fn lemma_step_keeps_all(state: ReaderView)
    ensures
        state.step().eof == state.eof,
        !state.starved() && state.pending.len() > 0 ==> state.step().pending.len()
            < state.pending.len(),
        forall|rest: Seq<u8>|
            (state.eof ==> rest.len() == 0) ==> state.step().output + #[trigger] sanitized(
                state.step().pending + rest,
            ) == state.output + sanitized(state.pending + rest),
{
    if !state.starved() && state.pending.len() > 0 {
        lemma_step_shrinks(state);
    }
    assert forall|rest: Seq<u8>| (state.eof ==> rest.len() == 0) implies state.step().output
        + #[trigger] sanitized(state.step().pending + rest) == state.output + sanitized(
        state.pending + rest,
    ) by {
        law_step_keeps_stream(state, rest);
    }
}

proof fn lemma_settling_keeps_all(state: ReaderView)
    ensures
        state.settled().eof == state.eof,
        state.settled().output.len() > 0 || state.settled().starved()
            || state.settled().exhausted(),
        forall|rest: Seq<u8>|
            (state.eof ==> rest.len() == 0) ==> state.output + #[trigger] sanitized(
                state.pending + rest,
            ) == state.settled().output + sanitized(state.settled().pending + rest),
        state.settled().output.len() == 0 ==> forall|rest: Seq<u8>|
            (state.eof ==> rest.len() == 0) ==> state.output + #[trigger] sanitized(
                state.pending + rest,
            ) == sanitized(state.settled().pending + rest),
{
    law_settling_keeps_stream(state, Seq::empty());
    assert forall|rest: Seq<u8>| (state.eof ==> rest.len() == 0) implies state.output + #[trigger]
        sanitized(state.pending + rest) == state.settled().output + sanitized(
        state.settled().pending + rest,
    ) by {
        law_settling_keeps_stream(state, rest);
    }
    assert forall|rest: Seq<u8>|
        state.settled().output.len() == 0 implies state.settled().output + #[trigger] sanitized(
        state.settled().pending + rest,
    ) == sanitized(state.settled().pending + rest) by {
        assert(state.settled().output + sanitized(state.settled().pending + rest) =~= sanitized(
            state.settled().pending + rest,
        ));
    }
}

/// A reader that has been fed a whole stream owes exactly its sanitized form, however the stream was
/// cut: what it holds ready, followed by the sanitized form of what it has not looked at.
pub proof fn law_reader_owes_the_sanitized_stream(
    state: ReaderView,
    chunk: Seq<u8>,
    rest: Seq<u8>,
)
    requires
        !state.eof,
        chunk.len() > 0,
    ensures
        state.fed(chunk).output + sanitized(state.fed(chunk).pending + rest) == state.output
            + sanitized(state.pending + (chunk + rest)),
        state.fed(Seq::empty()).output + sanitized(state.fed(Seq::empty()).pending)
            == state.output + sanitized(state.pending),
        state.settled().output + sanitized(state.settled().pending + rest) == state.output
            + sanitized(state.pending + rest),
        state.step().output + sanitized(state.step().pending + rest) == state.output + sanitized(
            state.pending + rest,
        ),
{
    assert(state.pending + chunk + rest =~= state.pending + (chunk + rest));
    assert(state.pending + Seq::<u8>::empty() =~= state.pending);
    law_settling_keeps_stream(state, rest);
    law_step_keeps_stream(state, rest);
}

/// What came of an attempt to read.
#[derive(Debug, Clone, Copy, PartialEq, Eq)]
pub enum ReadOutcome {
    /// That many bytes were handed out; none, at the end of the stream.
    Read(usize),
    /// The source has to be read first.
    NeedsInput,
}

/// A reader that hands out the sanitized form of what it is fed.
pub struct Utf8BoundaryReader {
    pending: Vec<u8>,
    pending_start: usize,
    output: Vec<u8>,
    output_start: usize,
    eof: bool,
}

impl View for Utf8BoundaryReader {
    type V = ReaderView;

    closed spec fn view(&self) -> ReaderView {
        ReaderView {
            pending: self.pending@.skip(self.pending_start as int),
            output: self.output@.skip(self.output_start as int),
            eof: self.eof,
        }
    }
}

impl Utf8BoundaryReader {
    /// Both buffers are read from an index within them.
    spec fn indexed(self) -> bool {
        &&& self.pending_start <= self.pending@.len()
        &&& self.output_start <= self.output@.len()
    }

    /// The consumed input in front of the pending bytes is small: there is none, or it is below the
    /// threshold and takes up less than half of the buffer.
    spec fn compact(self) -> bool {
        self.pending_start == 0 || (self.pending_start < COMPACT_THRESHOLD && 2
            * self.pending_start < self.pending@.len())
    }

    /// What holds of every reader: the indices are within the buffers, and the room that consumed
    /// input takes up is bounded.
    pub closed spec fn wf(self) -> bool {
        self.indexed() && self.compact()
    }

    /// A reader that has been fed nothing.
    pub fn new() -> (reader: Self)
        ensures
            reader.wf(),
            reader@ == (ReaderView { pending: Seq::empty(), output: Seq::empty(), eof: false }),
    {
        let reader = Utf8BoundaryReader {
            pending: Vec::with_capacity(READ_CHUNK),
            pending_start: 0,
            output: Vec::with_capacity(READ_CHUNK),
            output_start: 0,
            eof: false,
        };
        assert(reader@ =~= (ReaderView {
            pending: Seq::empty(),
            output: Seq::empty(),
            eof: false,
        }));
        reader
    }

    /// Takes in what the source handed over. An empty chunk is the end of the stream; after that
    /// nothing more is taken in.
    pub fn fill_pending(&mut self, chunk: &[u8])
        requires
            old(self).wf(),
        ensures
            final(self).wf(),
            final(self)@ == old(self)@.fed(chunk@),
            old(self)@.eof ==> final(self)@ == old(self)@,
            !old(self)@.eof ==> {
                &&& final(self)@.pending == old(self)@.pending + chunk@
                &&& final(self)@.output == old(self)@.output
                &&& final(self)@.eof == (chunk@.len() == 0)
            },
    {
        if self.eof {
            return ;
        }
        self.compact_pending();
        if chunk.len() == 0 {
            self.eof = true;
        } else {
            self.pending.extend_from_slice(chunk);
        }
        assert(self@ =~= old(self)@.fed(chunk@));
    }

    /// Looks at the next run of pending bytes. Tells whether more input has to come first.
    pub fn process_pending(&mut self) -> (needs_input: bool)
        requires
            old(self).wf(),
        ensures
            final(self).wf(),
            final(self)@ == old(self)@.step(),
            needs_input == (old(self)@.starved() && old(self)@.pending.len() > 0),
            final(self)@.eof == old(self)@.eof,
            needs_input ==> final(self)@ == old(self)@ && !final(self)@.eof
                && crate::utf8::truncated(old(self)@.pending),
            !needs_input && old(self)@.pending.len() > 0 ==> final(self)@.pending.len() < old(
                self,
            )@.pending.len(),
            forall|rest: Seq<u8>|
                (old(self)@.eof ==> rest.len() == 0) ==> final(self)@.output + #[trigger] sanitized(
                    final(self)@.pending + rest,
                ) == old(self)@.output + sanitized(old(self)@.pending + rest),
    {
        proof {
            lemma_step_keeps_all(self@);
        }
        let pending_len: usize = self.pending_slice().len();
        if pending_len == 0 {
            return false;
        }
        let scan = scan_utf8(self.pending.as_slice(), self.pending_start);
        let ghost before = self@;
        proof {
            crate::utf8::lemma_valid_prefix_is_longest(before.pending, 0);
            assert(before.pending.skip(0) =~= before.pending);
            if crate::utf8::valid_prefix_len(before.pending) == 0 && valid_first_scalar(
                before.pending,
            ) {
                crate::utf8::lemma_first_scalar_extends(before.pending, Seq::empty());
                crate::utf8::lemma_valid_prefix_is_longest(pop_first_scalar(before.pending), 0);
            }
            if crate::utf8::valid_prefix_len(before.pending) > 0 && crate::utf8::truncated(
                before.pending,
            ) {
                assert(valid_first_scalar(before.pending));
            }
        }
        if scan.valid_up_to > 0 {
            self.append_pending_xml_bytes(scan.valid_up_to);
            self.consume_pending(scan.valid_up_to);
            assert(self@ =~= before.step());
            return false;
        }
        let invalid_len: usize = match scan.fault {
            None => {
                return false;
            },
            Some(Utf8Fault::Truncated) => {
                if !self.eof {
                    return true;
                }
                1
            },
            Some(Utf8Fault::Invalid(len)) => len,
        };
        proof {
            if !crate::utf8::truncated(before.pending) {
                crate::utf8::lemma_invalid_extends(before.pending, Seq::empty());
            }
        }
        self.consume_pending(invalid_len);
        self.output.push(0xef);
        self.output.push(0xbf);
        self.output.push(0xbd);
        assert(self@ =~= before.step());
        false
    }

    /// The bytes that were taken in and not looked at.
    pub fn pending_slice(&self) -> (bytes: &[u8])
        requires
            self.wf(),
        ensures
            bytes@ == self@.pending,
    {
        let bytes = vstd::slice::slice_subrange(
            self.pending.as_slice(),
            self.pending_start,
            self.pending.len(),
        );
        assert(bytes@ =~= self@.pending);
        bytes
    }

    /// Puts the first `len` pending bytes out, but for those that XML forbids.
    fn append_pending_xml_bytes(&mut self, len: usize)
        requires
            old(self).wf(),
            len <= old(self)@.pending.len(),
        ensures
            final(self).wf(),
            final(self)@ == (ReaderView {
                output: old(self)@.output + xml_bytes(old(self)@.pending.take(len as int)),
                ..old(self)@
            }),
    {
        let start: usize = self.pending_start;
        assert(start + len <= self.pending.len());
        let end: usize = start + len;
        self.output.reserve(len);
        let ghost pred = |byte: u8| xml_valid(byte);
        let ghost run = self@.pending.take(len as int);
        let ghost ready = self.output@;
        let mut at: usize = start;
        proof {
            reveal(Seq::filter);
            assert(run.take(0).filter(pred) =~= Seq::<u8>::empty());
        }
        while at < end
            invariant
                start <= at <= end <= self.pending@.len(),
                start == old(self).pending_start,
                self.pending@ == old(self).pending@,
                self.pending_start == old(self).pending_start,
                self.output_start == old(self).output_start,
                self.eof == old(self).eof,
                run == old(self)@.pending.take(len as int),
                end == start + len,
                pred == (|byte: u8| xml_valid(byte)),
                ready == old(self).output@,
                self.output@ == ready + run.take(at - start).filter(pred),
            decreases end - at,
        {
            let byte = self.pending[at];
            proof {
                let done = run.take(at - start);
                let next = run.take(at - start + 1);
                assert(next.drop_last() =~= done);
                assert(next.last() == byte);
                reveal(Seq::filter);
                assert(next.filter(pred) == if xml_valid(byte) {
                    done.filter(pred).push(byte)
                } else {
                    done.filter(pred)
                });
            }
            if is_xml_valid(byte) {
                self.output.push(byte);
            }
            at = at + 1;
            assert(self.output@ =~= ready + run.take(at - start).filter(pred));
        }
        assert(run.take(at - start) =~= run);
        assert(self@ =~= (ReaderView {
            output: old(self)@.output + xml_bytes(old(self)@.pending.take(len as int)),
            ..old(self)@
        }));
    }

    /// Drops the first `count` pending bytes.
    fn consume_pending(&mut self, count: usize)
        requires
            old(self).wf(),
            count <= old(self)@.pending.len(),
        ensures
            final(self).wf(),
            final(self)@ == (ReaderView {
                pending: old(self)@.pending.skip(count as int),
                ..old(self)@
            }),
            final(self).output == old(self).output,
            final(self).output_start == old(self).output_start,
    {
        assert(self.pending_start + count <= self.pending.len());
        self.pending_start = self.pending_start + count;
        if self.pending_start >= self.pending.len() {
            self.pending.clear();
            self.pending_start = 0;
        } else {
            self.compact_pending();
        }
        assert(self@ =~= (ReaderView {
            pending: old(self)@.pending.skip(count as int),
            ..old(self)@
        }));
    }

    /// Frees the room that consumed input takes up, if there is enough of it.
    fn compact_pending(&mut self)
        requires
            old(self).indexed(),
        ensures
            final(self).wf(),
            final(self)@ == old(self)@,
            final(self).output == old(self).output,
            final(self).output_start == old(self).output_start,
            final(self).eof == old(self).eof,
            final(self).pending_start == 0 || (final(self).pending_start < COMPACT_THRESHOLD && 2
                * final(self).pending_start < final(self).pending@.len()),
            old(self).compact() ==> *final(self) == *old(self),
            !old(self).compact() ==> final(self).pending_start == 0,
    {
        if self.pending_start == 0 {
            return ;
        }
        if self.pending_start >= self.pending.len() {
            self.pending.clear();
            self.pending_start = 0;
            assert(self@ =~= old(self)@);
            return ;
        }
        if self.pending_start >= COMPACT_THRESHOLD || self.pending_start >= self.pending.len()
            - self.pending_start {
            let kept = self.pending.split_off(self.pending_start);
            self.pending = kept;
            self.pending_start = 0;
            assert(self@ =~= old(self)@);
        }
    }

    /// The bytes that are ready to be handed out.
    pub fn output_slice(&self) -> (bytes: &[u8])
        requires
            self.wf(),
        ensures
            bytes@ == self@.output,
    {
        let bytes = vstd::slice::slice_subrange(
            self.output.as_slice(),
            self.output_start,
            self.output.len(),
        );
        assert(bytes@ =~= self@.output);
        bytes
    }

    /// Drops the first `count` bytes that were ready to be handed out.
    fn consume_output(&mut self, count: usize)
        requires
            old(self).wf(),
            count <= old(self)@.output.len(),
        ensures
            final(self).wf(),
            final(self)@ == (ReaderView {
                output: old(self)@.output.skip(count as int),
                ..old(self)@
            }),
    {
        assert(self.output_start + count <= self.output.len());
        self.output_start = self.output_start + count;
        if self.output_start >= self.output.len() {
            self.output.clear();
            self.output_start = 0;
        }
        assert(self@ =~= (ReaderView {
            output: old(self)@.output.skip(count as int),
            ..old(self)@
        }));
    }

    /// Hands out as much as is ready and fits into `out`, at least one byte if `out` has room.
    /// Where nothing can be handed out, tells whether the stream has ended or the source has to be
    /// read first.
    pub fn read(&mut self, out: &mut [u8]) -> (outcome: ReadOutcome)
        requires
            old(self).wf(),
        ensures
            final(self).wf(),
            final(out)@.len() == old(out)@.len(),
            old(out)@.len() == 0 ==> outcome == ReadOutcome::Read(0) && final(self)@ == old(self)@,
            old(out)@.len() > 0 ==> {
                let ready = old(self)@.settled();
                if ready.output.len() > 0 {
                    &&& outcome matches ReadOutcome::Read(n)
                    &&& n == (if ready.output.len() <= old(out)@.len() {
                        ready.output.len()
                    } else {
                        old(out)@.len()
                    })
                    &&& final(out)@ == ready.output.take(n as int) + old(out)@.skip(n as int)
                    &&& final(self)@ == (ReaderView { output: ready.output.skip(n as int), ..ready })
                } else {
                    &&& outcome == (if ready.eof {
                        ReadOutcome::Read(0)
                    } else {
                        ReadOutcome::NeedsInput
                    })
                    &&& final(out)@ == old(out)@
                    &&& final(self)@ == ready
                }
            },
            final(self)@.eof == old(self)@.eof,
            match outcome {
                ReadOutcome::Read(n) => {
                    &&& n <= old(out)@.len()
                    &&& forall|rest: Seq<u8>|
                        (old(self)@.eof ==> rest.len() == 0) ==> old(self)@.output + #[trigger]
                            sanitized(old(self)@.pending + rest) == final(out)@.take(n as int)
                            + final(self)@.output + sanitized(final(self)@.pending + rest)
                    &&& final(out)@.skip(n as int) == old(out)@.skip(n as int)
                    &&& n == 0 && old(out)@.len() > 0 ==> final(self)@.eof
                        && final(self)@.pending.len() == 0 && final(self)@.output.len() == 0
                    &&& 0 < n && n < old(out)@.len() ==> final(self)@.output.len() == 0
                },
                ReadOutcome::NeedsInput => {
                    &&& !final(self)@.eof
                    &&& final(out)@ == old(out)@
                    &&& final(self)@.output.len() == 0
                    &&& final(self)@.pending.len() == 0 || crate::utf8::truncated(
                        final(self)@.pending,
                    )
                    &&& forall|rest: Seq<u8>|
                        old(self)@.output + #[trigger] sanitized(old(self)@.pending + rest)
                            == sanitized(final(self)@.pending + rest)
                },
            },
    {
        proof {
            lemma_settling_keeps_all(self@);
        }
        if out.len() == 0 {
            assert(out@.take(0) + self@.output =~= self@.output);
            return ReadOutcome::Read(0);
        }
        proof {
            law_settling_keeps_stream(self@, Seq::empty());
        }
        while self.output_slice().len() == 0
            invariant
                self.wf(),
                self@.settled() == old(self)@.settled(),
                out@ == old(out)@,
                out@.len() > 0,
            decreases self@.pending.len(),
        {
            proof {
                lemma_settling_keeps_all(old(self)@);
            }
            if self.pending_slice().len() == 0 {
                assert(out@.take(0) + self@.output =~= self@.output);
                if self.eof {
                    return ReadOutcome::Read(0);
                }
                return ReadOutcome::NeedsInput;
            }
            let ghost before = self@;
            if self.process_pending() {
                return ReadOutcome::NeedsInput;
            }
            proof {
                lemma_step_shrinks(before);
            }
        }
        let available: usize = self.output_slice().len();
        let written: usize = if available < out.len() {
            available
        } else {
            out.len()
        };
        let ghost ready = self@.output;
        let mut at: usize = 0;
        while at < written
            invariant
                at <= written <= ready.len(),
                written <= out@.len() == old(out)@.len(),
                self.wf(),
                ready == self@.output,
                ready == self.output@.skip(self.output_start as int),
                out@ == ready.take(at as int) + old(out)@.skip(at as int),
            decreases written - at,
        {
            assert(self.output_start + at < self.output.len());
            assert(ready[at as int] == self.output@[self.output_start + at]);
            out[at] = self.output[self.output_start + at];
            at = at + 1;
            assert(out@ =~= ready.take(at as int) + old(out)@.skip(at as int));
        }
        self.consume_output(written);
        assert(out@.take(written as int) + self@.output =~= ready);
        assert(out@.skip(written as int) =~= old(out)@.skip(written as int));
        ReadOutcome::Read(written)
    }
}

} // verus!
