//! The requests that wait for the decompilation service: which of them are on their way, which are
//! to be sent next, and who waits for each answer.

use vstd::multiset::Multiset;
use vstd::prelude::*;
use vstd::string::StringExecFns;
use vstd::utf8::*;

use crate::messages::too_large_message;
use crate::outside::{json_array, sha256_hex};

verus! {

/// How many bytes of bytecode the service may hold at once.
pub const MAX_BYTES_IN_FLIGHT: u32 = 8_388_608;

/// What a waiter is told: the decompiled source, or why there is none.
pub type DecompilationResponse = Result<String, String>;

/// A request to decompile `bytecode`. The answer goes to `tx`.
pub struct DecompilationRequest<W> {
    pub bytecode: String,
    pub bytecode_hash: String,
    pub bytecode_len: u32,
    pub tx: W,
}

impl<W> DecompilationRequest<W> {
    /// A request for `bytecode`, under the hash by which the service names it in its answer.
    pub fn new(bytecode: String, tx: W) -> (request: Self)
        ensures
            request.bytecode@ == bytecode@,
            request.bytecode_hash@ == crate::outside::sha256_of(encode_utf8(bytecode@)),
            request.bytecode_len == encode_utf8(bytecode@).len() % 0x1_0000_0000,
            request.tx == tx,
    {
        let bytes = bytecode.as_str().as_bytes();
        let bytecode_hash = sha256_hex(bytes);
        let len: u64 = bytes.len() as u64;
        let bytecode_len: u32 = #[verifier::truncate]
        (len as u32);
        assert(len as u32 == len % 0x1_0000_0000) by (bit_vector);
        DecompilationRequest { bytecode, bytecode_hash, bytecode_len, tx }
    }
}

/// All waiters for one bytecode, before the service has it.
struct RequestGroup<W> {
    hash: String,
    bytecode: String,
    bytecode_len: u32,
    waiters: Vec<W>,
}

/// All waiters for one bytecode that the service has.
struct PendingRequestGroup<W> {
    hash: String,
    waiters: Vec<W>,
    byte_size: u32,
}

/// A group that the service does not have yet.
pub struct GroupView<W> {
    pub hash: Seq<char>,
    pub bytecode: Seq<char>,
    pub bytecode_len: int,
    pub waiters: Seq<W>,
}

/// A group that the service has.
pub struct PendingView<W> {
    pub hash: Seq<char>,
    pub waiters: Seq<W>,
    pub byte_size: int,
}

impl<W> GroupView<W> {
    /// The same group once the service has it.
    pub open spec fn sent(self) -> PendingView<W> {
        PendingView { hash: self.hash, waiters: self.waiters, byte_size: self.bytecode_len }
    }

    /// The same group with one more waiter, the last.
    pub open spec fn joined(self, waiter: W) -> GroupView<W> {
        GroupView { waiters: self.waiters.push(waiter), ..self }
    }
}

impl<W> PendingView<W> {
    /// The same group with one more waiter, the last.
    pub open spec fn joined(self, waiter: W) -> PendingView<W> {
        PendingView { waiters: self.waiters.push(waiter), ..self }
    }
}

impl<W> RequestGroup<W> {
    spec fn model(self) -> GroupView<W> {
        GroupView {
            hash: self.hash@,
            bytecode: self.bytecode@,
            bytecode_len: self.bytecode_len as int,
            waiters: self.waiters@,
        }
    }
}

impl<W> PendingRequestGroup<W> {
    spec fn model(self) -> PendingView<W> {
        PendingView {
            hash: self.hash@,
            waiters: self.waiters@,
            byte_size: self.byte_size as int,
        }
    }
}

/// The state of the queue.
pub struct QueueView<W> {
    /// The bytes of the groups that the service has.
    pub bytes_in_flight: int,
    /// The groups that the service has.
    pub pending: Seq<PendingView<W>>,
    /// The groups of the batch that is being sent.
    pub outgoing: Seq<GroupView<W>>,
    /// The groups that are to be sent, the oldest first.
    pub queued: Seq<GroupView<W>>,
    /// No more requests will come.
    pub input_closed: bool,
}

/// The place of `hash` among `groups`.
pub open spec fn group_index<W>(groups: Seq<GroupView<W>>, hash: Seq<char>) -> Option<int> {
    if exists|i: int| 0 <= i < groups.len() && (#[trigger] groups[i]).hash == hash {
        Some(choose|i: int| 0 <= i < groups.len() && (#[trigger] groups[i]).hash == hash)
    } else {
        None
    }
}

/// The place of `hash` among the groups that the service has.
pub open spec fn pending_index<W>(groups: Seq<PendingView<W>>, hash: Seq<char>) -> Option<int> {
    if exists|i: int| 0 <= i < groups.len() && (#[trigger] groups[i]).hash == hash {
        Some(choose|i: int| 0 <= i < groups.len() && (#[trigger] groups[i]).hash == hash)
    } else {
        None
    }
}

/// The bytes of all `groups`.
pub open spec fn total_len<W>(groups: Seq<GroupView<W>>) -> int
    decreases groups.len(),
{
    if groups.len() == 0 {
        0
    } else {
        groups[0].bytecode_len + total_len(groups.drop_first())
    }
}

/// The bytes of all groups that the service has.
pub open spec fn total_size<W>(groups: Seq<PendingView<W>>) -> int
    decreases groups.len(),
{
    if groups.len() == 0 {
        0
    } else {
        groups[0].byte_size + total_size(groups.drop_first())
    }
}

/// How many groups, from the oldest on, fit into `available` bytes together.
pub open spec fn fitting<W>(groups: Seq<GroupView<W>>, available: int) -> nat
    decreases groups.len(),
{
    if groups.len() == 0 || groups[0].bytecode_len > available {
        0
    } else {
        1 + fitting(groups.drop_first(), available - groups[0].bytecode_len)
    }
}

/// The message that asks the service to decompile `bytecodes`.
pub open spec fn decompile_message(bytecodes: Seq<Seq<char>>) -> Seq<char> {
    "{\"type\":\"decompile\",\"data\":"@ + crate::outside::json_array_of(bytecodes) + "}"@
}

/// The bytecodes of `groups`.
pub open spec fn bytecodes_of<W>(groups: Seq<GroupView<W>>) -> Seq<Seq<char>> {
    Seq::new(groups.len(), |i: int| groups[i].bytecode)
}

/// `response` by what it says.
pub open spec fn said(response: DecompilationResponse) -> Result<Seq<char>, Seq<char>> {
    match response {
        Ok(source) => Ok(source@),
        Err(reason) => Err(reason@),
    }
}

/// Each of `replies` by whom it is for and what it says.
pub open spec fn replies_say<W>(replies: Seq<(W, DecompilationResponse)>) -> Seq<
    (W, Result<Seq<char>, Seq<char>>),
> {
    Seq::new(replies.len(), |i: int| (replies[i].0, said(replies[i].1)))
}

/// The same answer for each of `waiters`.
pub open spec fn answer_all<W>(waiters: Seq<W>, answer: Result<Seq<char>, Seq<char>>) -> Seq<
    (W, Result<Seq<char>, Seq<char>>),
> {
    Seq::new(waiters.len(), |i: int| (waiters[i], answer))
}

/// Everybody in one of `lists`.
pub open spec fn gathered<W>(lists: Seq<Seq<W>>) -> Multiset<W>
    decreases lists.len(),
{
    if lists.len() == 0 {
        Multiset::empty()
    } else {
        lists[0].to_multiset().add(gathered(lists.drop_first()))
    }
}

/// Everybody who gets one of `replies`.
pub open spec fn recipients<W>(replies: Seq<(W, Result<Seq<char>, Seq<char>>)>) -> Multiset<W> {
    Seq::new(replies.len(), |i: int| replies[i].0).to_multiset()
}

impl<W> QueueView<W> {
    /// The state in which nothing has been asked for.
    pub open spec fn empty() -> QueueView<W> {
        QueueView {
            bytes_in_flight: 0,
            pending: Seq::empty(),
            outgoing: Seq::empty(),
            queued: Seq::empty(),
            input_closed: false,
        }
    }

    /// How many bytes the service can still take.
    pub open spec fn available(self) -> int {
        MAX_BYTES_IN_FLIGHT - self.bytes_in_flight
    }

    /// How many of the queued groups the next batch takes. While a batch is being sent, and while
    /// the service can take nothing, there is none.
    pub open spec fn batch_len(self) -> nat {
        if self.outgoing.len() > 0 || self.available() <= 0 {
            0
        } else {
            fitting(self.queued, self.available())
        }
    }

    /// No bytecode is waited for twice: a hash stands for one group at most.
    pub open spec fn distinct(self) -> bool {
        &&& forall|i: int, j: int|
            0 <= i < j < self.pending.len() ==> (#[trigger] self.pending[i]).hash != (
            #[trigger] self.pending[j]).hash
        &&& forall|i: int, j: int|
            0 <= i < j < self.outgoing.len() ==> (#[trigger] self.outgoing[i]).hash != (
            #[trigger] self.outgoing[j]).hash
        &&& forall|i: int, j: int|
            0 <= i < j < self.queued.len() ==> (#[trigger] self.queued[i]).hash != (
            #[trigger] self.queued[j]).hash
        &&& forall|i: int, j: int|
            0 <= i < self.pending.len() && 0 <= j < self.outgoing.len() ==> (
            #[trigger] self.pending[i]).hash != (#[trigger] self.outgoing[j]).hash
        &&& forall|i: int, j: int|
            0 <= i < self.pending.len() && 0 <= j < self.queued.len() ==> (
            #[trigger] self.pending[i]).hash != (#[trigger] self.queued[j]).hash
        &&& forall|i: int, j: int|
            0 <= i < self.outgoing.len() && 0 <= j < self.queued.len() ==> (
            #[trigger] self.outgoing[i]).hash != (#[trigger] self.queued[j]).hash
    }

    /// Every group has a waiter.
    pub open spec fn awaited(self) -> bool {
        &&& forall|i: int|
            0 <= i < self.pending.len() ==> (#[trigger] self.pending[i]).waiters.len() > 0
        &&& forall|i: int|
            0 <= i < self.outgoing.len() ==> (#[trigger] self.outgoing[i]).waiters.len() > 0
        &&& forall|i: int|
            0 <= i < self.queued.len() ==> (#[trigger] self.queued[i]).waiters.len() > 0
    }

    /// The sizes are those of bytecodes that the service can take, and what it has and is being
    /// sent does not exceed what it may hold.
    pub open spec fn within_limits(self) -> bool {
        &&& forall|i: int|
            0 <= i < self.pending.len() ==> 0 <= (#[trigger] self.pending[i]).byte_size
        &&& forall|i: int|
            0 <= i < self.outgoing.len() ==> 0 <= (#[trigger] self.outgoing[i]).bytecode_len
        &&& forall|i: int|
            0 <= i < self.queued.len() ==> 0 <= (#[trigger] self.queued[i]).bytecode_len
                <= MAX_BYTES_IN_FLIGHT
        &&& self.bytes_in_flight == total_size(self.pending)
        &&& self.bytes_in_flight + total_len(self.outgoing) <= MAX_BYTES_IN_FLIGHT
    }

    /// What holds of every queue.
    pub open spec fn valid(self) -> bool {
        self.distinct() && self.awaited() && self.within_limits()
    }

    /// Who waits for the bytecode named `hash`, in the order in which they came.
    pub open spec fn waiters_of(self, hash: Seq<char>) -> Seq<W> {
        if pending_index(self.pending, hash) is Some {
            self.pending[pending_index(self.pending, hash)->0].waiters
        } else if group_index(self.outgoing, hash) is Some {
            self.outgoing[group_index(self.outgoing, hash)->0].waiters
        } else if group_index(self.queued, hash) is Some {
            self.queued[group_index(self.queued, hash)->0].waiters
        } else {
            Seq::empty()
        }
    }

    /// The waiters of every group.
    pub open spec fn waiter_lists(self) -> Seq<Seq<W>> {
        Seq::new(self.pending.len(), |i: int| self.pending[i].waiters) + Seq::new(
            self.outgoing.len(),
            |i: int| self.outgoing[i].waiters,
        ) + Seq::new(self.queued.len(), |i: int| self.queued[i].waiters)
    }

    /// Everybody who waits, each as often as they wait.
    pub open spec fn everyone(self) -> Multiset<W> {
        gathered(self.waiter_lists())
    }

    /// The queue once `waiter` has asked for the bytecode named `hash`: it joins the group of that
    /// hash, or a new group at the end if there is none.
    pub open spec fn requested(
        self,
        bytecode: Seq<char>,
        hash: Seq<char>,
        bytecode_len: int,
        waiter: W,
    ) -> QueueView<W> {
        if pending_index(self.pending, hash) is Some {
            let i = pending_index(self.pending, hash)->0;
            QueueView { pending: self.pending.update(i, self.pending[i].joined(waiter)), ..self }
        } else if group_index(self.outgoing, hash) is Some {
            let i = group_index(self.outgoing, hash)->0;
            QueueView { outgoing: self.outgoing.update(i, self.outgoing[i].joined(waiter)), ..self }
        } else if group_index(self.queued, hash) is Some {
            let i = group_index(self.queued, hash)->0;
            QueueView { queued: self.queued.update(i, self.queued[i].joined(waiter)), ..self }
        } else {
            let group = GroupView { hash, bytecode, bytecode_len, waiters: seq![waiter] };
            QueueView { queued: self.queued.push(group), ..self }
        }
    }

    /// The queue once the next batch has been taken from it.
    pub open spec fn flushed(self) -> QueueView<W> {
        let n = self.batch_len() as int;
        if n == 0 {
            self
        } else {
            QueueView { outgoing: self.queued.take(n), queued: self.queued.skip(n), ..self }
        }
    }

    /// The queue once the batch that was being sent has reached the service.
    pub open spec fn delivered(self) -> QueueView<W> {
        QueueView {
            bytes_in_flight: self.bytes_in_flight + total_len(self.outgoing),
            pending: self.pending + Seq::new(
                self.outgoing.len(),
                |i: int| self.outgoing[i].sent(),
            ),
            outgoing: Seq::empty(),
            ..self
        }
    }

    /// The queue once the service has answered for the bytecode named `hash`.
    pub open spec fn answered(self, hash: Seq<char>) -> QueueView<W> {
        match pending_index(self.pending, hash) {
            Some(i) => QueueView {
                bytes_in_flight: self.bytes_in_flight - self.pending[i].byte_size,
                pending: self.pending.remove(i),
                ..self
            },
            None => self,
        }
    }

    /// Nothing is left to do, and nothing will come.
    pub open spec fn finished(self) -> bool {
        self.input_closed && self.pending.len() == 0 && self.outgoing.len() == 0
            && self.queued.len() == 0
    }
}

/// The requests that wait for the decompilation service.
pub struct RequestQueue<W> {
    bytes_in_flight: u32,
    pending: Vec<PendingRequestGroup<W>>,
    outgoing: Vec<RequestGroup<W>>,
    queued: Vec<RequestGroup<W>>,
    input_closed: bool,
}

impl<W> View for RequestQueue<W> {
    type V = QueueView<W>;

    closed spec fn view(&self) -> QueueView<W> {
        QueueView {
            bytes_in_flight: self.bytes_in_flight as int,
            pending: pending_views(self.pending@),
            outgoing: group_views(self.outgoing@),
            queued: group_views(self.queued@),
            input_closed: self.input_closed,
        }
    }
}

spec fn pending_views<W>(groups: Seq<PendingRequestGroup<W>>) -> Seq<PendingView<W>> {
    Seq::new(groups.len(), |i: int| groups[i].model())
}

spec fn group_views<W>(groups: Seq<RequestGroup<W>>) -> Seq<GroupView<W>> {
    Seq::new(groups.len(), |i: int| groups[i].model())
}

impl<W> RequestQueue<W> {
    /// What holds of every queue.
    pub open spec fn wf(&self) -> bool {
        self@.valid()
    }

    /// A queue with nothing in it.
    pub fn new() -> (queue: Self)
        ensures
            queue.wf(),
            queue@ == QueueView::<W>::empty(),
            queue@.bytes_in_flight == 0,
            queue@.pending.len() == 0,
            queue@.outgoing.len() == 0,
            queue@.queued.len() == 0,
            !queue@.input_closed,
    {
        let queue = RequestQueue {
            bytes_in_flight: 0,
            pending: Vec::new(),
            outgoing: Vec::new(),
            queued: Vec::new(),
            input_closed: false,
        };
        assert(queue@.pending =~= Seq::empty());
        assert(queue@.outgoing =~= Seq::empty());
        assert(queue@.queued =~= Seq::empty());
        queue
    }

    /// Takes a request. One that the service could never take is refused, and its waiter told so;
    /// any other joins those who wait for the same bytecode.
    pub fn queue_request(&mut self, request: DecompilationRequest<W>) -> (refused: Option<
        (W, DecompilationResponse),
    >)
        requires
            old(self).wf(),
        ensures
            final(self).wf(),
            request.bytecode_len > MAX_BYTES_IN_FLIGHT ==> {
                &&& final(self)@ == old(self)@
                &&& refused matches Some((tx, response))
                &&& tx == request.tx
                &&& said(response) == Err::<Seq<char>, Seq<char>>(
                    crate::messages::too_large(request.bytecode_len as nat),
                )
            },
            request.bytecode_len <= MAX_BYTES_IN_FLIGHT ==> {
                &&& refused is None
                &&& final(self)@ == old(self)@.requested(
                    request.bytecode@,
                    request.bytecode_hash@,
                    request.bytecode_len as int,
                    request.tx,
                )
            },
            match refused {
                Some((tx, response)) => {
                    &&& request.bytecode_len > 8 * 1024 * 1024
                    &&& tx == request.tx
                    &&& response is Err
                    &&& response->Err_0@ == crate::messages::too_large(request.bytecode_len as nat)
                },
                None => request.bytecode_len <= 8 * 1024 * 1024,
            },
    {
        let DecompilationRequest { bytecode, bytecode_hash, bytecode_len, tx } = request;
        if bytecode_len > MAX_BYTES_IN_FLIGHT {
            return Some((tx, Err(too_large_message(bytecode_len))));
        }
        let ghost before = self@;
        let ghost after = before.requested(bytecode@, bytecode_hash@, bytecode_len as int, tx);
        proof {
            lemma_requested_valid(before, bytecode@, bytecode_hash@, bytecode_len as int, tx);
        }
        if let Some(i) = find_pending(&self.pending, &bytecode_hash) {
            self.pending[i].waiters.push(tx);
            assert(self@.pending =~= after.pending);
            return None;
        }
        if let Some(i) = find_group(&self.outgoing, &bytecode_hash) {
            self.outgoing[i].waiters.push(tx);
            assert(self@.outgoing =~= after.outgoing);
            return None;
        }
        if let Some(i) = find_group(&self.queued, &bytecode_hash) {
            self.queued[i].waiters.push(tx);
            assert(self@.queued =~= after.queued);
            return None;
        }
        let mut waiters: Vec<W> = Vec::new();
        waiters.push(tx);
        self.queued.push(RequestGroup { hash: bytecode_hash, bytecode, bytecode_len, waiters });
        assert(waiters@ =~= seq![tx]);
        assert(self@.queued =~= after.queued);
        None
    }

    /// Takes the next batch out of the queue, and gives the message that is to be sent for it.
    pub fn flush_queued_requests(&mut self) -> (message: Option<String>)
        requires
            old(self).wf(),
        ensures
            final(self).wf(),
            final(self)@ == old(self)@.flushed(),
            match message {
                Some(text) => {
                    &&& old(self)@.batch_len() > 0
                    &&& text@ == decompile_message(bytecodes_of(final(self)@.outgoing))
                },
                None => old(self)@.batch_len() == 0,
            },
            match message {
                Some(text) => {
                    &&& final(self)@.outgoing.len() > 0
                    &&& text@ == "{\"type\":\"decompile\",\"data\":"@
                        + crate::outside::json_array_of(
                        Seq::new(
                            final(self)@.outgoing.len(),
                            |i: int| final(self)@.outgoing[i].bytecode,
                        ),
                    ) + "}"@
                },
                None => final(self)@ == old(self)@,
            },
    {
        let ghost before = self@;
        proof {
            lemma_flushed_valid(before);
        }
        if !self.outgoing.is_empty() {
            assert(before.outgoing.len() > 0);
            return None;
        }
        let available_bytes: u32 = MAX_BYTES_IN_FLIGHT.saturating_sub(self.bytes_in_flight);
        if available_bytes == 0 || self.queued.is_empty() {
            return None;
        }
        let mut count: usize = 0;
        let mut batch_bytes: u32 = 0;
        assert(before.queued.skip(0) =~= before.queued);
        while count < self.queued.len() && self.queued[count].bytecode_len <= available_bytes
            - batch_bytes
            invariant
                before == self@,
                count <= before.queued.len(),
                batch_bytes <= available_bytes,
                fitting(before.queued, available_bytes as int) == count + fitting(
                    before.queued.skip(count as int),
                    available_bytes - batch_bytes,
                ),
            decreases before.queued.len() - count,
        {
            proof {
                let rest = before.queued.skip(count as int);
                assert(rest.drop_first() =~= before.queued.skip(count + 1));
                assert(rest[0] == before.queued[count as int]);
            }
            batch_bytes = batch_bytes + self.queued[count].bytecode_len;
            count = count + 1;
        }
        proof {
            if count < before.queued.len() {
                assert(before.queued.skip(count as int)[0] == before.queued[count as int]);
            }
        }
        if count == 0 {
            return None;
        }
        let mut batch = self.queued.split_off(count);
        std::mem::swap(&mut batch, &mut self.queued);
        self.outgoing = batch;
        assert(self@.outgoing =~= before.queued.take(count as int));
        assert(self@.queued =~= before.queued.skip(count as int));
        Some(batch_message(&self.outgoing))
    }

    /// Notes that the batch has reached the service.
    pub fn batch_sent(&mut self)
        requires
            old(self).wf(),
        ensures
            final(self).wf(),
            final(self)@ == old(self)@.delivered(),
    {
        let ghost before = self@;
        proof {
            lemma_delivered_valid(before);
        }
        let mut batch: Vec<RequestGroup<W>> = Vec::new();
        std::mem::swap(&mut batch, &mut self.outgoing);
        let ghost groups = group_views(batch@);
        for group in sent: batch
            invariant
                sent.seq() == batch@,
                groups == group_views(batch@),
                groups == before.outgoing,
                before.valid(),
                self.bytes_in_flight == before.bytes_in_flight + total_len(
                    groups.take(sent.index()),
                ),
                pending_views(self.pending@) == before.pending + Seq::new(
                    sent.index() as nat,
                    |i: int| groups[i].sent(),
                ),
                self.outgoing@.len() == 0,
                group_views(self.queued@) == before.queued,
                self.input_closed == before.input_closed,
        {
            proof {
                lemma_total_len_step(groups, sent.index());
                lemma_total_len_bounds(groups, sent.index() + 1);
            }
            let RequestGroup { hash, bytecode: _, bytecode_len, waiters } = group;
            self.bytes_in_flight = self.bytes_in_flight + bytecode_len;
            let ghost pending_before = self.pending@;
            self.pending.push(PendingRequestGroup { hash, waiters, byte_size: bytecode_len });
            assert(pending_views(self.pending@) =~= pending_views(pending_before).push(
                groups[sent.index()].sent(),
            ));
            assert(pending_views(self.pending@) =~= before.pending + Seq::new(
                (sent.index() + 1) as nat,
                |i: int| groups[i].sent(),
            ));
        }
        proof {
            assert(groups.take(groups.len() as int) =~= groups);
            assert(self@.outgoing =~= Seq::empty());
            assert(self@.pending =~= before.delivered().pending);
        }
    }

    /// Takes the answer of the service for the bytecode named `input_hash`, and gives the replies
    /// that it means. An answer that nobody waits for is passed over.
    pub fn handle_result(&mut self, success: bool, data: String, input_hash: String) -> (replies:
        Vec<(W, DecompilationResponse)>)
        requires
            old(self).wf(),
        ensures
            final(self).wf(),
            final(self)@ == old(self)@.answered(input_hash@),
            replies_say(replies@) == (match pending_index(old(self)@.pending, input_hash@) {
                Some(i) => answer_all(
                    old(self)@.pending[i].waiters,
                    if success {
                        Ok(data@)
                    } else {
                        Err(data@)
                    },
                ),
                None => Seq::empty(),
            }),
            forall|i: int|
                0 <= i < old(self)@.pending.len() && (#[trigger] old(self)@.pending[i]).hash
                    == input_hash@ ==> ({
                    let waiters = old(self)@.pending[i].waiters;
                    &&& replies@.len() == waiters.len()
                    &&& forall|k: int|
                        0 <= k < waiters.len() ==> (#[trigger] replies@[k]).0 == waiters[k] && (
                        match replies@[k].1 {
                            Ok(source) => success && source@ == data@,
                            Err(reason) => !success && reason@ == data@,
                        })
                }),
            (forall|i: int|
                0 <= i < old(self)@.pending.len() ==> (#[trigger] old(self)@.pending[i]).hash
                    != input_hash@) ==> replies@.len() == 0,
    {
        let ghost before = self@;
        proof {
            lemma_answered_valid(before, input_hash@);
        }
        match find_pending(&self.pending, &input_hash) {
            None => {
                let replies: Vec<(W, DecompilationResponse)> = Vec::new();
                assert(replies_say(replies@) =~= Seq::empty());
                replies
            },
            Some(i) => {
                proof {
                    lemma_total_size_remove(before.pending, i as int);
                }
                let group = self.pending.remove(i);
                self.bytes_in_flight = self.bytes_in_flight.saturating_sub(group.byte_size);
                assert(self@.pending =~= before.pending.remove(i as int));
                let response: DecompilationResponse = if success {
                    Ok(data)
                } else {
                    Err(data)
                };
                complete_waiters(group.waiters, response)
            },
        }
    }

    /// Notes that no more requests will come.
    pub fn close_input(&mut self)
        requires
            old(self).wf(),
        ensures
            final(self).wf(),
            final(self)@ == (QueueView { input_closed: true, ..old(self)@ }),
    {
        self.input_closed = true;
    }

    /// Whether more requests may come.
    pub fn accepts_requests(&self) -> (open: bool)
        ensures
            open == !self@.input_closed,
    {
        !self.input_closed
    }

    /// Whether nothing is left to do.
    pub fn is_finished(&self) -> (finished: bool)
        ensures
            finished == self@.finished(),
            finished == (self@.input_closed && self@.pending.len() == 0 && self@.outgoing.len() == 0
                && self@.queued.len() == 0),
    {
        self.input_closed && self.pending.is_empty() && self.outgoing.is_empty()
            && self.queued.is_empty()
    }
}

/// Gives every waiter the same response, in order.
pub fn complete_waiters<W>(waiters: Vec<W>, result: DecompilationResponse) -> (replies: Vec<
    (W, DecompilationResponse),
>)
    ensures
        replies_say(replies@) == answer_all(waiters@, said(result)),
        replies@.len() == waiters@.len(),
        forall|k: int|
            0 <= k < waiters@.len() ==> (#[trigger] replies@[k]).0 == waiters@[k] && (match (
            replies@[k].1,
            result,
        ) {
                (Ok(told), Ok(source)) => told@ == source@,
                (Err(told), Err(reason)) => told@ == reason@,
                _ => false,
            }),
{
    let mut remaining = waiters;
    let mut replies: Vec<(W, DecompilationResponse)> = Vec::new();
    if let Some(last) = remaining.pop() {
        for waiter in told: remaining
            invariant
                told.seq() == remaining@,
                replies_say(replies@) == answer_all(
                    remaining@.take(told.index()),
                    said(result),
                ),
        {
            let ghost so_far = replies@;
            let response = copy_response(&result);
            replies.push((waiter, response));
            assert(replies_say(replies@) =~= replies_say(so_far).push((waiter, said(result))));
            assert(replies_say(replies@) =~= answer_all(
                remaining@.take(told.index() + 1),
                said(result),
            ));
        }
        let ghost so_far = replies@;
        let ghost answer = said(result);
        replies.push((last, result));
        assert(remaining@.take(remaining@.len() as int) =~= remaining@);
        assert(replies_say(replies@) =~= replies_say(so_far).push((last, answer)));
    }
    assert(replies_say(replies@) =~= answer_all(waiters@, said(result)));
    assert forall|k: int| 0 <= k < waiters@.len() implies (#[trigger] replies@[k]).0 == waiters@[k]
        && said(replies@[k].1) == said(result) by {
        assert(replies_say(replies@)[k] == answer_all(waiters@, said(result))[k]);
    }
    replies
}

/// A response that says the same.
fn copy_response(response: &DecompilationResponse) -> (copy: DecompilationResponse)
    ensures
        said(copy) == said(*response),
{
    match response {
        Ok(source) => Ok(source.clone()),
        Err(reason) => Err(reason.clone()),
    }
}

/// The message that asks the service to decompile the bytecodes of which `data` is the JSON array.
pub fn decompile_request(data: &str) -> (message: String)
    ensures
        message@ == "{\"type\":\"decompile\",\"data\":"@ + data@ + "}"@,
{
    let mut message = "{\"type\":\"decompile\",\"data\":".to_owned();
    message.append(data);
    message.append("}");
    message
}

/// The message for a batch.
fn batch_message<W>(batch: &Vec<RequestGroup<W>>) -> (message: String)
    ensures
        message@ == decompile_message(bytecodes_of(group_views(batch@))),
        message@ == "{\"type\":\"decompile\",\"data\":"@ + crate::outside::json_array_of(
            Seq::new(batch@.len(), |i: int| batch@[i].bytecode@),
        ) + "}"@,
{
    let mut texts: Vec<&str> = Vec::new();
    let mut i: usize = 0;
    while i < batch.len()
        invariant
            i <= batch@.len(),
            texts@.len() == i,
            forall|j: int| 0 <= j < i ==> (#[trigger] texts@[j])@ == batch@[j].bytecode@,
        decreases batch@.len() - i,
    {
        texts.push(batch[i].bytecode.as_str());
        i = i + 1;
    }
    assert(Seq::new(texts@.len(), |j: int| texts@[j]@) =~= bytecodes_of(group_views(batch@)));
    assert(Seq::new(texts@.len(), |j: int| texts@[j]@) =~= Seq::new(
        batch@.len(),
        |i: int| batch@[i].bytecode@,
    ));
    let data = json_array(&texts).expect("failed to serialize decompile batch");
    decompile_request(data.as_str())
}

/// Finds the group of `hash` among those that the service has.
fn find_pending<W>(groups: &Vec<PendingRequestGroup<W>>, hash: &String) -> (found: Option<usize>)
    requires
        forall|i: int, j: int|
            0 <= i < j < groups@.len() ==> (#[trigger] pending_views(groups@)[i]).hash != (
            #[trigger] pending_views(groups@)[j]).hash,
    ensures
        match found {
            Some(i) => i < groups@.len() && pending_index(pending_views(groups@), hash@) == Some(
                i as int,
            ),
            None => pending_index(pending_views(groups@), hash@) is None,
        },
{
    let mut i: usize = 0;
    while i < groups.len()
        invariant
            i <= groups@.len(),
            forall|j: int| 0 <= j < i ==> (#[trigger] pending_views(groups@)[j]).hash != hash@,
            forall|i: int, j: int|
                0 <= i < j < groups@.len() ==> (#[trigger] pending_views(groups@)[i]).hash != (
                #[trigger] pending_views(groups@)[j]).hash,
        decreases groups@.len() - i,
    {
        if groups[i].hash == *hash {
            assert(pending_views(groups@)[i as int].hash == hash@);
            return Some(i);
        }
        i = i + 1;
    }
    None
}

/// Finds the group of `hash` among those that the service does not have.
fn find_group<W>(groups: &Vec<RequestGroup<W>>, hash: &String) -> (found: Option<usize>)
    requires
        forall|i: int, j: int|
            0 <= i < j < groups@.len() ==> (#[trigger] group_views(groups@)[i]).hash != (
            #[trigger] group_views(groups@)[j]).hash,
    ensures
        match found {
            Some(i) => i < groups@.len() && group_index(group_views(groups@), hash@) == Some(
                i as int,
            ),
            None => group_index(group_views(groups@), hash@) is None,
        },
{
    let mut i: usize = 0;
    while i < groups.len()
        invariant
            i <= groups@.len(),
            forall|j: int| 0 <= j < i ==> (#[trigger] group_views(groups@)[j]).hash != hash@,
            forall|i: int, j: int|
                0 <= i < j < groups@.len() ==> (#[trigger] group_views(groups@)[i]).hash != (
                #[trigger] group_views(groups@)[j]).hash,
        decreases groups@.len() - i,
    {
        if groups[i].hash == *hash {
            assert(group_views(groups@)[i as int].hash == hash@);
            return Some(i);
        }
        i = i + 1;
    }
    None
}

/// One more waiter leaves the sizes of the groups as they are.
proof fn lemma_total_size_joined<W>(groups: Seq<PendingView<W>>, i: int, waiter: W)
    requires
        0 <= i < groups.len(),
    ensures
        total_size(groups.update(i, groups[i].joined(waiter))) == total_size(groups),
    decreases groups.len(),
{
    let after = groups.update(i, groups[i].joined(waiter));
    if i == 0 {
        assert(after.drop_first() =~= groups.drop_first());
    } else {
        lemma_total_size_joined(groups.drop_first(), i - 1, waiter);
        assert(after.drop_first() =~= groups.drop_first().update(
            i - 1,
            groups[i].joined(waiter),
        ));
    }
}

/// One more waiter leaves the lengths of the groups as they are.
proof fn lemma_total_len_joined<W>(groups: Seq<GroupView<W>>, i: int, waiter: W)
    requires
        0 <= i < groups.len(),
    ensures
        total_len(groups.update(i, groups[i].joined(waiter))) == total_len(groups),
    decreases groups.len(),
{
    let after = groups.update(i, groups[i].joined(waiter));
    if i == 0 {
        assert(after.drop_first() =~= groups.drop_first());
    } else {
        lemma_total_len_joined(groups.drop_first(), i - 1, waiter);
        assert(after.drop_first() =~= groups.drop_first().update(
            i - 1,
            groups[i].joined(waiter),
        ));
    }
}

/// A request that the service can take keeps the queue valid.
pub proof fn lemma_requested_valid<W>(
    queue: QueueView<W>,
    bytecode: Seq<char>,
    hash: Seq<char>,
    bytecode_len: int,
    waiter: W,
)
    requires
        queue.valid(),
        0 <= bytecode_len <= MAX_BYTES_IN_FLIGHT,
    ensures
        queue.requested(bytecode, hash, bytecode_len, waiter).valid(),
{
    if pending_index(queue.pending, hash) is Some {
        lemma_total_size_joined(queue.pending, pending_index(queue.pending, hash)->0, waiter);
    } else if group_index(queue.outgoing, hash) is Some {
        lemma_total_len_joined(queue.outgoing, group_index(queue.outgoing, hash)->0, waiter);
    }
}

/// The first groups and the next one.
proof fn lemma_total_len_step<W>(groups: Seq<GroupView<W>>, i: int)
    requires
        0 <= i < groups.len(),
    ensures
        total_len(groups.take(i + 1)) == total_len(groups.take(i)) + groups[i].bytecode_len,
    decreases groups.len(),
{
    let more = groups.take(i + 1);
    if i == 0 {
        assert(more.drop_first() =~= Seq::empty());
        assert(groups.take(0) =~= Seq::empty());
    } else {
        lemma_total_len_step(groups.drop_first(), i - 1);
        assert(more.drop_first() =~= groups.drop_first().take(i));
        assert(groups.take(i).drop_first() =~= groups.drop_first().take(i - 1));
    }
}

/// The first groups have no more bytes than all.
proof fn lemma_total_len_bounds<W>(groups: Seq<GroupView<W>>, i: int)
    requires
        0 <= i <= groups.len(),
        forall|j: int| 0 <= j < groups.len() ==> 0 <= (#[trigger] groups[j]).bytecode_len,
    ensures
        0 <= total_len(groups.take(i)) <= total_len(groups),
    decreases groups.len(),
{
    if groups.len() > 0 {
        let rest = groups.drop_first();
        assert forall|j: int| 0 <= j < rest.len() implies 0 <= (#[trigger] rest[j]).bytecode_len by {
            assert(rest[j] == groups[j + 1]);
        }
        if i > 0 {
            lemma_total_len_bounds(rest, i - 1);
            assert(groups.take(i).drop_first() =~= rest.take(i - 1));
        } else {
            lemma_total_len_bounds(rest, 0);
            assert(rest.take(0) =~= Seq::empty());
            assert(groups.take(0) =~= Seq::empty());
        }
    } else {
        assert(groups.take(i) =~= groups);
    }
}

/// What fits has no more bytes than there is room for.
proof fn lemma_fitting_bounds<W>(groups: Seq<GroupView<W>>, available: int)
    requires
        0 <= available,
        forall|j: int| 0 <= j < groups.len() ==> 0 <= (#[trigger] groups[j]).bytecode_len,
    ensures
        fitting(groups, available) <= groups.len(),
        total_len(groups.take(fitting(groups, available) as int)) <= available,
    decreases groups.len(),
{
    if groups.len() == 0 || groups[0].bytecode_len > available {
        assert(groups.take(0) =~= Seq::empty());
    } else {
        let rest = groups.drop_first();
        assert forall|j: int| 0 <= j < rest.len() implies 0 <= (#[trigger] rest[j]).bytecode_len by {
            assert(rest[j] == groups[j + 1]);
        }
        lemma_fitting_bounds(rest, available - groups[0].bytecode_len);
        let n = fitting(groups, available) as int;
        assert(groups.take(n).drop_first() =~= rest.take(n - 1));
    }
}

/// Taking a batch keeps the queue valid.
pub proof fn lemma_flushed_valid<W>(queue: QueueView<W>)
    requires
        queue.valid(),
    ensures
        queue.flushed().valid(),
{
    if queue.batch_len() > 0 {
        lemma_fitting_bounds(queue.queued, queue.available());
    }
}

/// The groups that the service has, and those of a batch.
proof fn lemma_total_size_sent<W>(pending: Seq<PendingView<W>>, groups: Seq<GroupView<W>>)
    ensures
        total_size(pending + Seq::new(groups.len(), |i: int| groups[i].sent())) == total_size(
            pending,
        ) + total_len(groups),
    decreases pending.len(), groups.len(),
{
    let sent = Seq::new(groups.len(), |i: int| groups[i].sent());
    if pending.len() > 0 {
        lemma_total_size_sent(pending.drop_first(), groups);
        assert((pending + sent).drop_first() =~= pending.drop_first() + sent);
    } else if groups.len() > 0 {
        let rest = groups.drop_first();
        lemma_total_size_sent(pending, rest);
        assert((pending + sent).drop_first() =~= pending + Seq::new(
            rest.len(),
            |i: int| rest[i].sent(),
        ));
    } else {
        assert(pending + sent =~= pending);
    }
}

/// Delivering a batch keeps the queue valid.
pub proof fn lemma_delivered_valid<W>(queue: QueueView<W>)
    requires
        queue.valid(),
    ensures
        queue.delivered().valid(),
{
    lemma_total_size_sent(queue.pending, queue.outgoing);
}

/// Without one group there are as many bytes less as it has.
proof fn lemma_total_size_remove<W>(groups: Seq<PendingView<W>>, i: int)
    requires
        0 <= i < groups.len(),
        forall|j: int| 0 <= j < groups.len() ==> 0 <= (#[trigger] groups[j]).byte_size,
    ensures
        total_size(groups.remove(i)) == total_size(groups) - groups[i].byte_size,
        0 <= total_size(groups.remove(i)),
    decreases groups.len(),
{
    let rest = groups.drop_first();
    assert forall|j: int| 0 <= j < rest.len() implies 0 <= (#[trigger] rest[j]).byte_size by {
        assert(rest[j] == groups[j + 1]);
    }
    if i == 0 {
        assert(groups.remove(0) =~= rest);
        if rest.len() > 0 {
            lemma_total_size_remove(rest, 0);
        }
    } else {
        lemma_total_size_remove(rest, i - 1);
        assert(groups.remove(i).drop_first() =~= rest.remove(i - 1));
    }
}

/// An answer keeps the queue valid.
pub proof fn lemma_answered_valid<W>(queue: QueueView<W>, hash: Seq<char>)
    requires
        queue.valid(),
    ensures
        queue.answered(hash).valid(),
{
    if pending_index(queue.pending, hash) is Some {
        lemma_total_size_remove(queue.pending, pending_index(queue.pending, hash)->0);
    }
}

/// Every group is found under its hash.
proof fn lemma_waiters<W>(queue: QueueView<W>)
    requires
        queue.distinct(),
    ensures
        forall|i: int|
            0 <= i < queue.pending.len() ==> queue.waiters_of((#[trigger] queue.pending[i]).hash)
                == queue.pending[i].waiters,
        forall|i: int|
            0 <= i < queue.outgoing.len() ==> queue.waiters_of((#[trigger] queue.outgoing[i]).hash)
                == queue.outgoing[i].waiters,
        forall|i: int|
            0 <= i < queue.queued.len() ==> queue.waiters_of((#[trigger] queue.queued[i]).hash)
                == queue.queued[i].waiters,
{
}

/// What the service has and what is being sent to it never exceeds what it may hold, and what is
/// counted as in flight is what it has.
pub proof fn law_in_flight_is_capped<W>(queue: QueueView<W>)
    requires
        queue.valid(),
    ensures
        queue.bytes_in_flight == total_size(queue.pending),
        total_size(queue.pending) + total_len(queue.outgoing) <= MAX_BYTES_IN_FLIGHT,
        queue.bytes_in_flight <= MAX_BYTES_IN_FLIGHT,
        queue.delivered().bytes_in_flight <= MAX_BYTES_IN_FLIGHT,
{
    lemma_total_len_bounds(queue.outgoing, 0);
}

/// Batches are taken in the order in which the bytecodes were first asked for: a batch is the front
/// of the queue, the rest stays in order, and the batch is as long as the room allows.
pub proof fn law_batches_are_fifo<W>(queue: QueueView<W>)
    requires
        queue.valid(),
        queue.outgoing.len() == 0,
        queue.available() > 0,
    ensures
        queue.flushed().outgoing + queue.flushed().queued == queue.queued,
        total_len(queue.flushed().outgoing) <= queue.available(),
        forall|n: int|
            queue.flushed().outgoing.len() < n <= queue.queued.len() ==> total_len(
                #[trigger] queue.queued.take(n),
            ) > queue.available(),
{
    lemma_fitting_bounds(queue.queued, queue.available());
    assert forall|n: int|
        queue.flushed().outgoing.len() < n <= queue.queued.len() implies total_len(
        #[trigger] queue.queued.take(n),
    ) > queue.available() by {
        lemma_fitting_is_longest(queue.queued, queue.available(), n);
    }
    assert(queue.flushed().outgoing + queue.flushed().queued =~= queue.queued);
}

/// Any more groups than fit have more bytes than there is room for.
proof fn lemma_fitting_is_longest<W>(groups: Seq<GroupView<W>>, available: int, n: int)
    requires
        fitting(groups, available) < n <= groups.len(),
        forall|j: int| 0 <= j < groups.len() ==> 0 <= (#[trigger] groups[j]).bytecode_len,
    ensures
        total_len(groups.take(n)) > available,
    decreases groups.len(),
{
    let rest = groups.drop_first();
    let first = groups.take(n);
    assert(first.drop_first() =~= rest.take(n - 1));
    assert forall|j: int| 0 <= j < rest.len() implies 0 <= (#[trigger] rest[j]).bytecode_len by {
        assert(rest[j] == groups[j + 1]);
    }
    if groups[0].bytecode_len > available {
        lemma_total_len_bounds(rest, n - 1);
    } else {
        lemma_fitting_is_longest(rest, available - groups[0].bytecode_len, n - 1);
    }
}

/// The queue never stalls: while the service has nothing and is being sent nothing, there is a batch
/// for whatever waits.
pub proof fn law_queue_does_not_stall<W>(queue: QueueView<W>)
    requires
        queue.valid(),
        queue.pending.len() == 0,
        queue.outgoing.len() == 0,
        queue.queued.len() > 0,
    ensures
        queue.batch_len() > 0,
{
}

/// Once a batch has been delivered, nothing more fits until the service answers.
pub proof fn law_one_batch_fills_the_room<W>(queue: QueueView<W>)
    requires
        queue.valid(),
        queue.batch_len() > 0,
    ensures
        queue.flushed().delivered().batch_len() == 0,
        queue.flushed().delivered().flushed() == queue.flushed().delivered(),
{
    let n = queue.batch_len() as int;
    lemma_fitting_bounds(queue.queued, queue.available());
    if n < queue.queued.len() {
        lemma_fitting_is_longest(queue.queued, queue.available(), n + 1);
        lemma_total_len_step(queue.queued, n);
        assert(queue.queued.skip(n)[0] == queue.queued[n]);
    }
}

/// A bytecode that is already waited for is not sent again: another request for it changes neither
/// what is sent nor what the service has. A new one is sent after all others.
pub proof fn law_a_bytecode_is_sent_once<W>(
    queue: QueueView<W>,
    bytecode: Seq<char>,
    hash: Seq<char>,
    bytecode_len: int,
    waiter: W,
)
    requires
        queue.valid(),
        0 <= bytecode_len <= MAX_BYTES_IN_FLIGHT,
    ensures
        ({
            let after = queue.requested(bytecode, hash, bytecode_len, waiter);
            let before = bytecodes_of(queue.outgoing) + bytecodes_of(queue.queued);
            &&& after.bytes_in_flight == queue.bytes_in_flight
            &&& after.pending.len() == queue.pending.len()
            &&& bytecodes_of(after.outgoing) == bytecodes_of(queue.outgoing)
            &&& bytecodes_of(after.outgoing) + bytecodes_of(after.queued) == (
            if queue.waiters_of(hash).len() > 0 {
                before
            } else {
                before.push(bytecode)
            })
        }),
{
    let after = queue.requested(bytecode, hash, bytecode_len, waiter);
    assert(bytecodes_of(after.outgoing) =~= bytecodes_of(queue.outgoing));
    if queue.waiters_of(hash).len() > 0 {
        assert(bytecodes_of(after.queued) =~= bytecodes_of(queue.queued));
    } else {
        assert(bytecodes_of(after.queued) =~= bytecodes_of(queue.queued).push(bytecode));
    }
    assert(bytecodes_of(after.outgoing) + bytecodes_of(after.queued) =~= (if queue.waiters_of(
        hash,
    ).len() > 0 {
        bytecodes_of(queue.outgoing) + bytecodes_of(queue.queued)
    } else {
        (bytecodes_of(queue.outgoing) + bytecodes_of(queue.queued)).push(bytecode)
    }));
}

/// A request adds its waiter after those who wait for the same bytecode, and touches no others.
pub proof fn law_request_adds_its_waiter<W>(
    queue: QueueView<W>,
    bytecode: Seq<char>,
    hash: Seq<char>,
    bytecode_len: int,
    waiter: W,
    other: Seq<char>,
)
    requires
        queue.valid(),
        0 <= bytecode_len <= MAX_BYTES_IN_FLIGHT,
    ensures
        queue.requested(bytecode, hash, bytecode_len, waiter).waiters_of(other) == (if other
            == hash {
            queue.waiters_of(hash).push(waiter)
        } else {
            queue.waiters_of(other)
        }),
{
    let after = queue.requested(bytecode, hash, bytecode_len, waiter);
    lemma_requested_valid(queue, bytecode, hash, bytecode_len, waiter);
    lemma_waiters(queue);
    lemma_waiters(after);
    if pending_index(queue.pending, other) is Some {
        let i = pending_index(queue.pending, other)->0;
        assert(after.pending[i].hash == other);
    } else if group_index(queue.outgoing, other) is Some {
        let i = group_index(queue.outgoing, other)->0;
        assert(after.outgoing[i].hash == other);
    } else if group_index(queue.queued, other) is Some {
        let i = group_index(queue.queued, other)->0;
        assert(after.queued[i].hash == other);
    } else if other == hash {
        assert(after.queued[queue.queued.len() as int].hash == other);
        assert(queue.waiters_of(hash).push(waiter) =~= seq![waiter]);
    }
}

/// Sending changes nobody's wait: whoever waited for a bytecode before its batch was taken or
/// delivered waits for it afterwards, and nobody else.
pub proof fn law_sending_keeps_waiters<W>(queue: QueueView<W>, hash: Seq<char>)
    requires
        queue.valid(),
    ensures
        queue.flushed().waiters_of(hash) == queue.waiters_of(hash),
        queue.delivered().waiters_of(hash) == queue.waiters_of(hash),
{
    lemma_waiters(queue);
    lemma_flushed_valid(queue);
    lemma_waiters(queue.flushed());
    lemma_delivered_valid(queue);
    lemma_waiters(queue.delivered());
    let flushed = queue.flushed();
    let delivered = queue.delivered();
    let n = queue.batch_len() as int;
    if pending_index(queue.pending, hash) is Some {
        let i = pending_index(queue.pending, hash)->0;
        assert(flushed.pending[i].hash == hash);
        assert(delivered.pending[i].hash == hash);
    } else if group_index(queue.outgoing, hash) is Some {
        let i = group_index(queue.outgoing, hash)->0;
        assert(flushed.outgoing[i].hash == hash);
        assert(delivered.pending[queue.pending.len() + i].hash == hash);
    } else if group_index(queue.queued, hash) is Some {
        let i = group_index(queue.queued, hash)->0;
        if n > 0 {
            lemma_fitting_bounds(queue.queued, queue.available());
            if i < n {
                assert(flushed.outgoing[i].hash == hash);
            } else {
                assert(flushed.queued[i - n].hash == hash);
            }
        }
        assert(delivered.queued[i].hash == hash);
    } else if n > 0 {
        lemma_fitting_bounds(queue.queued, queue.available());
        assert(forall|j: int| 0 <= j < n ==> flushed.outgoing[j] == #[trigger] queue.queued[j]);
        assert(forall|j: int|
            0 <= j < flushed.queued.len() ==> #[trigger] flushed.queued[j] == queue.queued[n + j]);
        assert(group_index(flushed.outgoing, hash) is None) by {
            if group_index(flushed.outgoing, hash) is Some {
                let j = group_index(flushed.outgoing, hash)->0;
                assert(queue.queued[j].hash == hash);
            }
        }
    }
}

/// An answer reaches everybody who waits for the bytecode, each once and in the order in which they
/// came, leaves nobody waiting for it, and touches no others.
pub proof fn law_answer_reaches_all_waiters<W>(
    queue: QueueView<W>,
    hash: Seq<char>,
    answer: Result<Seq<char>, Seq<char>>,
    other: Seq<char>,
)
    requires
        queue.valid(),
        pending_index(queue.pending, hash) is Some,
    ensures
        answer_all(queue.pending[pending_index(queue.pending, hash)->0].waiters, answer)
            == answer_all(queue.waiters_of(hash), answer),
        queue.waiters_of(hash).len() > 0,
        queue.answered(hash).waiters_of(other) == (if other == hash {
            Seq::empty()
        } else {
            queue.waiters_of(other)
        }),
{
    let k = pending_index(queue.pending, hash)->0;
    let after = queue.answered(hash);
    lemma_answered_valid(queue, hash);
    lemma_waiters(queue);
    lemma_waiters(after);
    if other == hash {
        if pending_index(after.pending, hash) is Some {
            let j = pending_index(after.pending, hash)->0;
            assert(after.pending[j] == queue.pending[if j < k {
                j
            } else {
                j + 1
            }]);
        }
    } else if pending_index(queue.pending, other) is Some {
        let i = pending_index(queue.pending, other)->0;
        if i < k {
            assert(after.pending[i].hash == other);
        } else {
            assert(after.pending[i - 1].hash == other);
        }
    } else if pending_index(after.pending, other) is Some {
        let j = pending_index(after.pending, other)->0;
        assert(after.pending[j] == queue.pending[if j < k {
            j
        } else {
            j + 1
        }]);
    }
}

/// When nothing is left to do, nobody is left waiting. While somebody waits, something is left.
pub proof fn law_finished_means_all_answered<W>(queue: QueueView<W>)
    requires
        queue.valid(),
        queue.input_closed,
    ensures
        queue.finished() <==> forall|hash: Seq<char>|
            (#[trigger] queue.waiters_of(hash)).len() == 0,
{
    lemma_waiters(queue);
    if forall|hash: Seq<char>| (#[trigger] queue.waiters_of(hash)).len() == 0 {
        if queue.pending.len() > 0 {
            assert(queue.waiters_of(queue.pending[0].hash).len() > 0);
        }
        if queue.outgoing.len() > 0 {
            assert(queue.waiters_of(queue.outgoing[0].hash).len() > 0);
        }
        if queue.queued.len() > 0 {
            assert(queue.waiters_of(queue.queued[0].hash).len() > 0);
        }
    }
}

/// One more at the end of a list.
proof fn lemma_gathered_update<W>(lists: Seq<Seq<W>>, i: int, waiter: W)
    requires
        0 <= i < lists.len(),
    ensures
        gathered(lists.update(i, lists[i].push(waiter))) == gathered(lists).insert(waiter),
    decreases lists.len(),
{
    let after = lists.update(i, lists[i].push(waiter));
    if i == 0 {
        lists[0].to_multiset_ensures();
        assert(after.drop_first() =~= lists.drop_first());
        assert(gathered(after) =~= gathered(lists).insert(waiter));
    } else {
        lemma_gathered_update(lists.drop_first(), i - 1, waiter);
        assert(after.drop_first() =~= lists.drop_first().update(i - 1, lists[i].push(waiter)));
        assert(gathered(after) =~= gathered(lists).insert(waiter));
    }
}

/// One more list.
proof fn lemma_gathered_push<W>(lists: Seq<Seq<W>>, waiter: W)
    ensures
        gathered(lists.push(seq![waiter])) == gathered(lists).insert(waiter),
    decreases lists.len(),
{
    let after = lists.push(seq![waiter]);
    if lists.len() == 0 {
        let none = Seq::<W>::empty();
        none.to_multiset_ensures();
        assert(none.push(waiter) =~= seq![waiter]);
        assert(none.to_multiset() =~= Multiset::empty());
        assert(after.drop_first() =~= lists);
        assert(gathered(after) =~= gathered(lists).insert(waiter));
    } else {
        lemma_gathered_push(lists.drop_first(), waiter);
        assert(after.drop_first() =~= lists.drop_first().push(seq![waiter]));
        assert(gathered(after) =~= gathered(lists).insert(waiter));
    }
}

/// One list less.
proof fn lemma_gathered_remove<W>(lists: Seq<Seq<W>>, i: int)
    requires
        0 <= i < lists.len(),
    ensures
        gathered(lists) == gathered(lists.remove(i)).add(lists[i].to_multiset()),
    decreases lists.len(),
{
    if i == 0 {
        assert(lists.remove(0) =~= lists.drop_first());
        assert(gathered(lists) =~= gathered(lists.remove(i)).add(lists[i].to_multiset()));
    } else {
        lemma_gathered_remove(lists.drop_first(), i - 1);
        assert(lists.remove(i).drop_first() =~= lists.drop_first().remove(i - 1));
        assert(gathered(lists) =~= gathered(lists.remove(i)).add(lists[i].to_multiset()));
    }
}

/// A request adds its waiter to those who wait.
pub proof fn lemma_requested_everyone<W>(
    queue: QueueView<W>,
    bytecode: Seq<char>,
    hash: Seq<char>,
    bytecode_len: int,
    waiter: W,
)
    ensures
        queue.requested(bytecode, hash, bytecode_len, waiter).everyone()
            == queue.everyone().insert(waiter),
{
    let after = queue.requested(bytecode, hash, bytecode_len, waiter);
    let lists = queue.waiter_lists();
    let p = queue.pending.len() as int;
    let o = queue.outgoing.len() as int;
    if pending_index(queue.pending, hash) is Some {
        let i = pending_index(queue.pending, hash)->0;
        lemma_gathered_update(lists, i, waiter);
        assert(after.waiter_lists() =~= lists.update(i, lists[i].push(waiter)));
    } else if group_index(queue.outgoing, hash) is Some {
        let i = group_index(queue.outgoing, hash)->0;
        lemma_gathered_update(lists, p + i, waiter);
        assert(after.waiter_lists() =~= lists.update(p + i, lists[p + i].push(waiter)));
    } else if group_index(queue.queued, hash) is Some {
        let i = group_index(queue.queued, hash)->0;
        lemma_gathered_update(lists, p + o + i, waiter);
        assert(after.waiter_lists() =~= lists.update(p + o + i, lists[p + o + i].push(waiter)));
    } else {
        lemma_gathered_push(lists, waiter);
        assert(after.waiter_lists() =~= lists.push(seq![waiter]));
    }
}

/// Sending leaves those who wait as they are.
pub proof fn lemma_sending_everyone<W>(queue: QueueView<W>)
    requires
        queue.valid(),
    ensures
        queue.flushed().everyone() == queue.everyone(),
        queue.delivered().everyone() == queue.everyone(),
{
    if queue.batch_len() > 0 {
        lemma_fitting_bounds(queue.queued, queue.available());
    }
    assert(queue.flushed().waiter_lists() =~= queue.waiter_lists());
    assert(queue.delivered().waiter_lists() =~= queue.waiter_lists());
}

/// Those whom an answer reaches no longer wait.
pub proof fn lemma_answered_everyone<W>(
    queue: QueueView<W>,
    hash: Seq<char>,
    answer: Result<Seq<char>, Seq<char>>,
)
    ensures
        queue.everyone() == queue.answered(hash).everyone().add(
            recipients(
                match pending_index(queue.pending, hash) {
                    Some(i) => answer_all(queue.pending[i].waiters, answer),
                    None => Seq::empty(),
                },
            ),
        ),
{
    match pending_index(queue.pending, hash) {
        Some(i) => {
            let lists = queue.waiter_lists();
            let waiters = queue.pending[i].waiters;
            let replies = answer_all(waiters, answer);
            lemma_gathered_remove(lists, i);
            assert(queue.answered(hash).waiter_lists() =~= lists.remove(i));
            assert(Seq::new(replies.len(), |k: int| replies[k].0) =~= waiters);
        },
        None => {
            let none = Seq::<(W, Result<Seq<char>, Seq<char>>)>::empty();
            let nobody = Seq::new(none.len(), |k: int| none[k].0);
            nobody.to_multiset_ensures();
            assert(nobody =~= Seq::empty());
            assert(recipients(none) =~= Multiset::empty());
            assert(queue.everyone() =~= queue.everyone().add(recipients(none)));
        },
    }
}

/// The room is eight mebibytes.
pub proof fn law_room_is_eight_mebibytes<W>(queue: QueueView<W>)
    ensures
        MAX_BYTES_IN_FLIGHT == 8 * 1024 * 1024,
        queue.available() == 8 * 1024 * 1024 - queue.bytes_in_flight,
{
}

/// Every group counts with all its bytes: without groups there are none, and one more group adds its
/// own.
pub proof fn law_sizes_add_up<W>(
    groups: Seq<GroupView<W>>,
    group: GroupView<W>,
    pending: Seq<PendingView<W>>,
    more: PendingView<W>,
)
    ensures
        total_len(Seq::<GroupView<W>>::empty()) == 0,
        total_len(groups.push(group)) == total_len(groups) + group.bytecode_len,
        total_size(Seq::<PendingView<W>>::empty()) == 0,
        total_size(pending.push(more)) == total_size(pending) + more.byte_size,
    decreases groups.len() + pending.len(),
{
    if groups.len() > 0 {
        law_sizes_add_up(groups.drop_first(), group, Seq::empty(), more);
        assert(groups.push(group).drop_first() =~= groups.drop_first().push(group));
    } else {
        assert(groups.push(group).drop_first() =~= Seq::empty());
    }
    if pending.len() > 0 {
        law_sizes_add_up(Seq::<GroupView<W>>::empty(), group, pending.drop_first(), more);
        assert(pending.push(more).drop_first() =~= pending.drop_first().push(more));
    } else {
        assert(pending.push(more).drop_first() =~= Seq::empty());
    }
}

/// In a valid queue no bytecode has two groups, no group is without a waiter, and what is counted as
/// in flight is what the service has.
pub proof fn law_groups_are_distinct_and_awaited<W>(queue: QueueView<W>, i: int, j: int)
    requires
        queue.valid(),
    ensures
        0 <= i < queue.pending.len() ==> queue.pending[i].waiters.len() > 0,
        0 <= i < queue.outgoing.len() ==> queue.outgoing[i].waiters.len() > 0,
        0 <= i < queue.queued.len() ==> queue.queued[i].waiters.len() > 0,
        0 <= i < j < queue.pending.len() ==> queue.pending[i].hash != queue.pending[j].hash,
        0 <= i < j < queue.outgoing.len() ==> queue.outgoing[i].hash != queue.outgoing[j].hash,
        0 <= i < j < queue.queued.len() ==> queue.queued[i].hash != queue.queued[j].hash,
        0 <= i < queue.pending.len() && 0 <= j < queue.outgoing.len() ==> queue.pending[i].hash
            != queue.outgoing[j].hash,
        0 <= i < queue.pending.len() && 0 <= j < queue.queued.len() ==> queue.pending[i].hash
            != queue.queued[j].hash,
        0 <= i < queue.outgoing.len() && 0 <= j < queue.queued.len() ==> queue.outgoing[i].hash
            != queue.queued[j].hash,
        queue.bytes_in_flight == total_size(queue.pending),
        total_size(queue.pending) + total_len(queue.outgoing) <= 8 * 1024 * 1024,
{
}

/// Who waits for a bytecode are the waiters of its group, wherever the group stands, and nobody else.
pub proof fn law_waiters_are_those_of_the_group<W>(queue: QueueView<W>, hash: Seq<char>)
    requires
        queue.valid(),
    ensures
        forall|i: int|
            0 <= i < queue.pending.len() && (#[trigger] queue.pending[i]).hash == hash
                ==> queue.waiters_of(hash) == queue.pending[i].waiters,
        forall|i: int|
            0 <= i < queue.outgoing.len() && (#[trigger] queue.outgoing[i]).hash == hash
                ==> queue.waiters_of(hash) == queue.outgoing[i].waiters,
        forall|i: int|
            0 <= i < queue.queued.len() && (#[trigger] queue.queued[i]).hash == hash
                ==> queue.waiters_of(hash) == queue.queued[i].waiters,
        queue.waiters_of(hash).len() > 0 ==> {
            ||| exists|i: int| 0 <= i < queue.pending.len() && queue.pending[i].hash == hash
            ||| exists|i: int| 0 <= i < queue.outgoing.len() && queue.outgoing[i].hash == hash
            ||| exists|i: int| 0 <= i < queue.queued.len() && queue.queued[i].hash == hash
        },
{
    lemma_waiters(queue);
}

/// A request for a bytecode that has a group joins it as the last waiter, wherever the group stands,
/// and changes nothing else.
pub proof fn law_request_joins_its_group<W>(
    queue: QueueView<W>,
    bytecode: Seq<char>,
    hash: Seq<char>,
    bytecode_len: int,
    waiter: W,
    i: int,
)
    requires
        queue.valid(),
    ensures
        ({
            let after = queue.requested(bytecode, hash, bytecode_len, waiter);
            &&& after.bytes_in_flight == queue.bytes_in_flight
            &&& after.input_closed == queue.input_closed
            &&& 0 <= i < queue.pending.len() && queue.pending[i].hash == hash ==> {
                &&& after.pending == queue.pending.update(
                    i,
                    PendingView {
                        hash,
                        waiters: queue.pending[i].waiters.push(waiter),
                        byte_size: queue.pending[i].byte_size,
                    },
                )
                &&& after.outgoing == queue.outgoing
                &&& after.queued == queue.queued
            }
            &&& 0 <= i < queue.outgoing.len() && queue.outgoing[i].hash == hash ==> {
                &&& after.pending == queue.pending
                &&& after.outgoing == queue.outgoing.update(
                    i,
                    GroupView {
                        hash,
                        bytecode: queue.outgoing[i].bytecode,
                        bytecode_len: queue.outgoing[i].bytecode_len,
                        waiters: queue.outgoing[i].waiters.push(waiter),
                    },
                )
                &&& after.queued == queue.queued
            }
            &&& 0 <= i < queue.queued.len() && queue.queued[i].hash == hash ==> {
                &&& after.pending == queue.pending
                &&& after.outgoing == queue.outgoing
                &&& after.queued == queue.queued.update(
                    i,
                    GroupView {
                        hash,
                        bytecode: queue.queued[i].bytecode,
                        bytecode_len: queue.queued[i].bytecode_len,
                        waiters: queue.queued[i].waiters.push(waiter),
                    },
                )
            }
        }),
{
}

/// A request for a bytecode that has no group makes one, at the end of the queue, with the whole
/// bytecode and the one waiter.
pub proof fn law_new_bytecode_is_queued_last<W>(
    queue: QueueView<W>,
    bytecode: Seq<char>,
    hash: Seq<char>,
    bytecode_len: int,
    waiter: W,
)
    requires
        forall|i: int| 0 <= i < queue.pending.len() ==> (#[trigger] queue.pending[i]).hash != hash,
        forall|i: int|
            0 <= i < queue.outgoing.len() ==> (#[trigger] queue.outgoing[i]).hash != hash,
        forall|i: int| 0 <= i < queue.queued.len() ==> (#[trigger] queue.queued[i]).hash != hash,
    ensures
        queue.requested(bytecode, hash, bytecode_len, waiter) == (QueueView {
            bytes_in_flight: queue.bytes_in_flight,
            pending: queue.pending,
            outgoing: queue.outgoing,
            queued: queue.queued.push(
                GroupView { hash, bytecode, bytecode_len, waiters: seq![waiter] },
            ),
            input_closed: queue.input_closed,
        }),
{
}

/// Taking a batch moves groups from the front of the queue to the outgoing ones, whole and in order,
/// and does nothing else; while a batch is under way or there is no room, it does nothing at all.
pub proof fn law_batch_is_moved_whole<W>(queue: QueueView<W>)
    requires
        queue.valid(),
    ensures
        queue.flushed().bytes_in_flight == queue.bytes_in_flight,
        queue.flushed().pending == queue.pending,
        queue.flushed().input_closed == queue.input_closed,
        queue.flushed().outgoing + queue.flushed().queued == queue.outgoing + queue.queued,
        queue.outgoing.len() > 0 || queue.bytes_in_flight >= 8 * 1024 * 1024 ==> queue.flushed()
            == queue,
        queue.bytes_in_flight + total_len(queue.flushed().outgoing) <= 8 * 1024 * 1024,
        queue.outgoing.len() == 0 && queue.bytes_in_flight < 8 * 1024 * 1024 && queue.queued.len()
            > queue.flushed().outgoing.len() ==> queue.bytes_in_flight + total_len(
            queue.queued.take(queue.flushed().outgoing.len() as int + 1),
        ) > 8 * 1024 * 1024,
        queue.outgoing.len() == 0 ==> (queue.batch_len() > 0 <==> queue.flushed().outgoing.len()
            > 0),
        queue.outgoing.len() > 0 ==> queue.batch_len() == 0,
{
    if queue.outgoing.len() == 0 && queue.available() > 0 {
        law_batches_are_fifo(queue);
        lemma_fitting_bounds(queue.queued, queue.available());
        assert(queue.flushed().outgoing + queue.flushed().queued =~= queue.outgoing + queue.queued);
    }
}

/// The message for a batch asks for every bytecode of it, in order, however many there are.
pub proof fn law_message_asks_for_the_whole_batch<W>(
    bytecodes: Seq<Seq<char>>,
    groups: Seq<GroupView<W>>,
    i: int,
)
    ensures
        decompile_message(bytecodes) == "{\"type\":\"decompile\",\"data\":"@
            + crate::outside::json_array_of(bytecodes) + "}"@,
        bytecodes_of(groups).len() == groups.len(),
        0 <= i < groups.len() ==> bytecodes_of(groups)[i] == groups[i].bytecode,
        decompile_message(bytecodes_of(groups)) == "{\"type\":\"decompile\",\"data\":"@
            + crate::outside::json_array_of(
            Seq::new(groups.len(), |k: int| groups[k].bytecode),
        ) + "}"@,
{
    assert(bytecodes_of(groups) =~= Seq::new(groups.len(), |k: int| groups[k].bytecode));
}

/// What is delivered is pending: every group of the batch, with its waiters and its size, after those
/// that were pending; what was asked for is what is waited for.
pub proof fn law_delivered_batch_is_pending<W>(queue: QueueView<W>, i: int)
    ensures
        queue.delivered().bytes_in_flight == queue.bytes_in_flight + total_len(queue.outgoing),
        queue.delivered().pending.len() == queue.pending.len() + queue.outgoing.len(),
        0 <= i < queue.pending.len() ==> queue.delivered().pending[i] == queue.pending[i],
        0 <= i < queue.outgoing.len() ==> queue.delivered().pending[queue.pending.len() + i] == (
        PendingView {
            hash: queue.outgoing[i].hash,
            waiters: queue.outgoing[i].waiters,
            byte_size: queue.outgoing[i].bytecode_len,
        }),
        queue.delivered().outgoing.len() == 0,
        queue.delivered().queued == queue.queued,
        queue.delivered().input_closed == queue.input_closed,
{
}

/// An answer takes away the group of its bytecode and frees its room, and changes nothing else; one
/// for a bytecode that the service does not have changes nothing.
pub proof fn law_answer_takes_its_group_away<W>(queue: QueueView<W>, hash: Seq<char>, i: int)
    requires
        queue.valid(),
    ensures
        0 <= i < queue.pending.len() && queue.pending[i].hash == hash ==> queue.answered(hash) == (
        QueueView {
            bytes_in_flight: queue.bytes_in_flight - queue.pending[i].byte_size,
            pending: queue.pending.remove(i),
            outgoing: queue.outgoing,
            queued: queue.queued,
            input_closed: queue.input_closed,
        }),
        (forall|k: int| 0 <= k < queue.pending.len() ==> (#[trigger] queue.pending[k]).hash != hash)
            ==> queue.answered(hash) == queue,
{
}

/// Everybody told gets the very answer: the source as a success, or the reason as a failure.
pub proof fn law_all_get_the_very_answer<W>(
    waiters: Seq<W>,
    answer: Result<Seq<char>, Seq<char>>,
    source: String,
    k: int,
)
    ensures
        answer_all(waiters, answer).len() == waiters.len(),
        0 <= k < waiters.len() ==> answer_all(waiters, answer)[k] == (waiters[k], answer),
        said(Ok(source)) == Ok::<Seq<char>, Seq<char>>(source@),
        said(Err(source)) == Err::<Seq<char>, Seq<char>>(source@),
{
}

/// The queue is finished when it is closed and nothing is pending, under way or queued, and only then.
pub proof fn law_finished_means_empty_and_closed<W>(queue: QueueView<W>)
    ensures
        queue.finished() <==> queue.input_closed && queue.pending.len() == 0
            && queue.outgoing.len() == 0 && queue.queued.len() == 0,
{
}

} // verus!
