//! The conversation with the decompilation service: what to do next, given what happened.

use vstd::multiset::Multiset;
use vstd::prelude::*;
use vstd::string::StringExecFns;

use crate::decompiler::queue::{
    DecompilationRequest, DecompilationResponse, GroupView, QueueView, RequestQueue,
    MAX_BYTES_IN_FLIGHT,
};

verus! {

/// What the service says.
pub enum WebsocketClientboundMessage {
    /// The bytecode named `input_hash` has been dealt with: `data` is its source, or says why there
    /// is none.
    DecompilationResult { success: bool, data: String, input_hash: String },
}

/// Something that happened on the connection, or among those who ask.
pub enum Event<W> {
    /// The batch has been sent.
    BatchSent,
    /// The batch could not be sent, for the given reason.
    BatchFailed(String),
    /// It is time to show the service that the connection is in use.
    PingDue,
    /// The ping has been sent.
    PingSent,
    /// The ping could not be sent, for the given reason.
    PingFailed(String),
    /// The service sent a message.
    Message(WebsocketClientboundMessage),
    /// The service sent a text that is no message, quoted here.
    UnknownText(String),
    /// The service sent something that needs no attention.
    OtherFrame,
    /// The service closed the connection.
    ClosedByServer,
    /// The connection failed, for the given reason.
    ConnectionError(String),
    /// The connection is gone.
    ConnectionEnded,
    /// Somebody asks for a decompilation.
    Request(DecompilationRequest<W>),
    /// Nobody will ask any more.
    RequestsClosed,
}

/// What to do next.
pub enum Action {
    /// Send this message, and tell whether it was sent.
    SendBatch(String),
    /// Send a ping, and tell whether it was sent.
    SendPing,
    /// Wait for whatever happens next: a message, the time for a ping, and, if `requests` is set, a
    /// request.
    Wait { requests: bool },
    /// All is done.
    Finish,
    /// Give up, and tell the user why.
    Abort(String),
}

/// What comes of an event: replies to deliver, something to tell the user, and what to do next.
pub struct Step<W> {
    pub replies: Vec<(W, DecompilationResponse)>,
    pub notice: Option<String>,
    pub action: Action,
}

/// An action, by its texts.
pub enum ActionView {
    SendBatch(Seq<char>),
    SendPing,
    Wait { requests: bool },
    Finish,
    Abort(Seq<char>),
}

impl View for Action {
    type V = ActionView;

    open spec fn view(&self) -> ActionView {
        match *self {
            Action::SendBatch(message) => ActionView::SendBatch(message@),
            Action::SendPing => ActionView::SendPing,
            Action::Wait { requests } => ActionView::Wait { requests },
            Action::Finish => ActionView::Finish,
            Action::Abort(reason) => ActionView::Abort(reason@),
        }
    }
}

/// Why an event ends the conversation, if it does.
pub open spec fn fatal<W>(event: Event<W>) -> Option<Seq<char>> {
    match event {
        Event::BatchFailed(error) => Some(
            "error: failed to send websocket message (connection lost): "@ + error@,
        ),
        Event::PingFailed(error) => Some(
            "error: failed to send ping (connection lost): "@ + error@,
        ),
        Event::ClosedByServer => Some("error: websocket connection closed by server"@),
        Event::ConnectionError(error) => Some("error: websocket connection error: "@ + error@),
        Event::ConnectionEnded => Some("error: websocket connection terminated unexpectedly"@),
        _ => None,
    }
}

/// The queue once an event has been taken in.
pub open spec fn taken_in<W>(
    queue: QueueView<W>,
    event: Event<W>,
) -> QueueView<W> {
    match event {
        Event::BatchSent => queue.delivered(),
        Event::Message(
            WebsocketClientboundMessage::DecompilationResult { success: _, data: _, input_hash },
        ) => queue.answered(input_hash@),
        Event::Request(request) => if request.bytecode_len > MAX_BYTES_IN_FLIGHT {
            queue
        } else {
            queue.requested(
                request.bytecode@,
                request.bytecode_hash@,
                request.bytecode_len as int,
                request.tx,
            )
        },
        Event::RequestsClosed => QueueView { input_closed: true, ..queue },
        _ => queue,
    }
}

/// The queue once an event has been dealt with.
pub open spec fn stepped<W>(
    queue: QueueView<W>,
    event: Event<W>,
) -> QueueView<W> {
    if fatal(event) is Some || event is PingDue {
        queue
    } else {
        taken_in(queue, event).flushed()
    }
}

/// Who is told what because of an event.
pub open spec fn replies_to<W>(queue: QueueView<W>, event: Event<W>) -> Seq<
    (W, Result<Seq<char>, Seq<char>>),
> {
    match event {
        Event::Message(
            WebsocketClientboundMessage::DecompilationResult { success, data, input_hash },
        ) => match crate::decompiler::queue::pending_index(queue.pending, input_hash@) {
            Some(i) => crate::decompiler::queue::answer_all(
                queue.pending[i].waiters,
                if success {
                    Ok(data@)
                } else {
                    Err(data@)
                },
            ),
            None => Seq::empty(),
        },
        Event::Request(request) => if request.bytecode_len > MAX_BYTES_IN_FLIGHT {
            seq![(request.tx, Err(crate::messages::too_large(request.bytecode_len as nat)))]
        } else {
            Seq::empty()
        },
        _ => Seq::empty(),
    }
}

/// What the user is told because of an event that ends nothing.
pub open spec fn noticed<W>(event: Event<W>) -> Option<Seq<char>> {
    match event {
        Event::UnknownText(quoted) => Some("server sent something unknown: "@ + quoted@),
        _ => None,
    }
}

/// What is to be done next, when the queue is as given.
pub open spec fn due<W>(queue: QueueView<W>) -> ActionView {
    if queue.batch_len() > 0 {
        ActionView::SendBatch(
            crate::decompiler::queue::decompile_message(
                crate::decompiler::queue::bytecodes_of(queue.flushed().outgoing),
            ),
        )
    } else if queue.finished() {
        ActionView::Finish
    } else {
        ActionView::Wait { requests: !queue.input_closed }
    }
}

/// Decides what to do next: send what can be sent, or else stop if all is done, or else wait.
pub fn next_action<W>(queue: &mut RequestQueue<W>) -> (action: Action)
    requires
        old(queue).wf(),
    ensures
        final(queue).wf(),
        final(queue)@ == old(queue)@.flushed(),
        action@ == due(old(queue)@),
        match action {
            Action::SendBatch(message) => {
                &&& final(queue)@.outgoing.len() > 0
                &&& message@ == "{\"type\":\"decompile\",\"data\":"@
                    + crate::outside::json_array_of(
                    Seq::new(
                        final(queue)@.outgoing.len(),
                        |i: int| final(queue)@.outgoing[i].bytecode,
                    ),
                ) + "}"@
            },
            Action::Wait { requests } => {
                &&& requests == !final(queue)@.input_closed
                &&& !(final(queue)@.input_closed && final(queue)@.pending.len() == 0
                    && final(queue)@.outgoing.len() == 0 && final(queue)@.queued.len() == 0)
            },
            Action::Finish => final(queue)@.input_closed && final(queue)@.pending.len() == 0
                && final(queue)@.outgoing.len() == 0 && final(queue)@.queued.len() == 0,
            Action::SendPing => false,
            Action::Abort(_) => false,
        },
        !(action is SendBatch) ==> final(queue)@ == old(queue)@,
{
    match queue.flush_queued_requests() {
        Some(message) => Action::SendBatch(message),
        None => if queue.is_finished() {
            Action::Finish
        } else {
            Action::Wait { requests: queue.accepts_requests() }
        },
    }
}

/// `what`, with `detail` after it.
fn detailed(what: &str, detail: &str) -> (message: String)
    ensures
        message@ == what@ + detail@,
{
    let mut message = what.to_owned();
    message.append(detail);
    message
}

/// Takes in an event and decides what to do next.
pub fn handle_event<W>(queue: &mut RequestQueue<W>, event: Event<W>) -> (step: Step<W>)
    requires
        old(queue).wf(),
    ensures
        final(queue).wf(),
        crate::decompiler::queue::replies_say(step.replies@) == replies_to(old(queue)@, event),
        match step.notice {
            Some(text) => noticed(event) == Some(text@),
            None => noticed(event) is None,
        },
        final(queue)@ == stepped(old(queue)@, event),
        step.action@ == (match fatal(event) {
            Some(reason) => ActionView::Abort(reason),
            None => if event is PingDue {
                ActionView::SendPing
            } else {
                due(taken_in(old(queue)@, event))
            },
        }),
        match step.action {
            Action::SendBatch(message) => {
                &&& final(queue)@.outgoing.len() > 0
                &&& message@ == "{\"type\":\"decompile\",\"data\":"@
                    + crate::outside::json_array_of(
                    Seq::new(
                        final(queue)@.outgoing.len(),
                        |i: int| final(queue)@.outgoing[i].bytecode,
                    ),
                ) + "}"@
            },
            Action::Wait { requests } => {
                &&& requests == !final(queue)@.input_closed
                &&& !(final(queue)@.input_closed && final(queue)@.pending.len() == 0
                    && final(queue)@.outgoing.len() == 0 && final(queue)@.queued.len() == 0)
            },
            Action::Finish => final(queue)@.input_closed && final(queue)@.pending.len() == 0
                && final(queue)@.outgoing.len() == 0 && final(queue)@.queued.len() == 0,
            Action::SendPing => event is PingDue,
            Action::Abort(reason) => match event {
                Event::BatchFailed(error) => reason@
                    == "error: failed to send websocket message (connection lost): "@ + error@,
                Event::PingFailed(error) => reason@
                    == "error: failed to send ping (connection lost): "@ + error@,
                Event::ClosedByServer => reason@ == "error: websocket connection closed by server"@,
                Event::ConnectionError(error) => reason@ == "error: websocket connection error: "@
                    + error@,
                Event::ConnectionEnded => reason@
                    == "error: websocket connection terminated unexpectedly"@,
                _ => false,
            },
        },
        event is PingDue ==> step.action is SendPing,
        event is BatchFailed || event is PingFailed || event is ClosedByServer
            || event is ConnectionError || event is ConnectionEnded ==> step.action is Abort,
        match event {
            Event::Message(
                WebsocketClientboundMessage::DecompilationResult { success, data, input_hash },
            ) => {
                &&& forall|i: int|
                    0 <= i < old(queue)@.pending.len() && (#[trigger] old(queue)@.pending[i]).hash
                        == input_hash@ ==> ({
                        let waiters = old(queue)@.pending[i].waiters;
                        &&& step.replies@.len() == waiters.len()
                        &&& forall|k: int|
                            0 <= k < waiters.len() ==> (#[trigger] step.replies@[k]).0 == waiters[k]
                                && (match step.replies@[k].1 {
                                Ok(source) => success && source@ == data@,
                                Err(reason) => !success && reason@ == data@,
                            })
                    })
                &&& (forall|i: int|
                    0 <= i < old(queue)@.pending.len() ==> (#[trigger] old(queue)@.pending[i]).hash
                        != input_hash@) ==> step.replies@.len() == 0
            },
            Event::Request(request) => if request.bytecode_len > 8 * 1024 * 1024 {
                &&& step.replies@.len() == 1
                &&& step.replies@[0].0 == request.tx
                &&& step.replies@[0].1 is Err
                &&& step.replies@[0].1->Err_0@ == crate::messages::too_large(
                    request.bytecode_len as nat,
                )
            } else {
                step.replies@.len() == 0
            },
            _ => step.replies@.len() == 0,
        },
        match step.notice {
            Some(text) => match event {
                Event::UnknownText(quoted) => text@ == "server sent something unknown: "@ + quoted@,
                _ => false,
            },
            None => !(event is UnknownText),
        },
{
    let mut replies: Vec<(W, DecompilationResponse)> = Vec::new();
    let mut notice: Option<String> = None;
    assert(crate::decompiler::queue::replies_say(replies@) =~= Seq::empty());
    let action = match event {
        Event::BatchFailed(error) => Action::Abort(
            detailed("error: failed to send websocket message (connection lost): ", error.as_str()),
        ),
        Event::PingFailed(error) => Action::Abort(
            detailed("error: failed to send ping (connection lost): ", error.as_str()),
        ),
        Event::ClosedByServer => Action::Abort(
            "error: websocket connection closed by server".to_owned(),
        ),
        Event::ConnectionError(error) => Action::Abort(
            detailed("error: websocket connection error: ", error.as_str()),
        ),
        Event::ConnectionEnded => Action::Abort(
            "error: websocket connection terminated unexpectedly".to_owned(),
        ),
        Event::PingDue => Action::SendPing,
        Event::BatchSent => {
            queue.batch_sent();
            next_action(queue)
        },
        Event::Message(
            WebsocketClientboundMessage::DecompilationResult { success, data, input_hash },
        ) => {
            replies = queue.handle_result(success, data, input_hash);
            next_action(queue)
        },
        Event::UnknownText(quoted) => {
            notice = Some(detailed("server sent something unknown: ", quoted.as_str()));
            next_action(queue)
        },
        Event::Request(request) => {
            if let Some(refusal) = queue.queue_request(request) {
                replies.push(refusal);
            }
            assert(crate::decompiler::queue::replies_say(replies@) =~= replies_to(
                old(queue)@,
                event,
            ));
            next_action(queue)
        },
        Event::RequestsClosed => {
            queue.close_input();
            next_action(queue)
        },
        Event::OtherFrame | Event::PingSent => next_action(queue),
    };
    Step { replies, notice, action }
}

/// Waiting has a reason: where the next thing to do is to wait, a request may come or the service
/// has something to answer, and nothing waits to be sent to a service that has nothing.
pub proof fn law_waiting_has_a_reason<W>(queue: QueueView<W>)
    requires
        queue.valid(),
        queue.outgoing.len() == 0,
        due(queue) is Wait,
    ensures
        !queue.input_closed || queue.pending.len() > 0,
        queue.queued.len() > 0 ==> queue.pending.len() > 0,
{
    if queue.queued.len() > 0 && queue.pending.len() == 0 {
        crate::decompiler::queue::law_queue_does_not_stall(queue);
    }
}

/// How many bytecodes are waited for.
pub open spec fn outstanding<W>(queue: QueueView<W>) -> nat {
    queue.pending.len() + queue.outgoing.len() + queue.queued.len()
}

/// Every answer that somebody waits for leaves one bytecode less to wait for, and only a request can
/// make it more, by one. Once no more requests come, the conversation is over when none is waited for
/// and not before.
pub proof fn law_each_answer_leaves_less_to_do<W>(
    queue: QueueView<W>,
    event: Event<W>,
)
    requires
        queue.valid(),
    ensures
        event is Request ==> outstanding(queue) <= outstanding(stepped(queue, event))
            <= outstanding(queue) + 1,
        !(event is Request) ==> outstanding(stepped(queue, event)) == outstanding(queue) - (
        match event {
            Event::Message(
                WebsocketClientboundMessage::DecompilationResult { success: _, data: _, input_hash },
            ) if crate::decompiler::queue::pending_index(queue.pending, input_hash@) is Some => 1int,
            _ => 0int,
        }),
        queue.input_closed && outstanding(queue) == 0 <==> queue.finished(),
{
    lemma_batch_len(taken_in(queue, event));
}

/// The queue after all of `events`.
pub open spec fn after_events<W>(
    queue: QueueView<W>,
    events: Seq<Event<W>>,
) -> QueueView<W>
    decreases events.len(),
{
    if events.len() == 0 {
        queue
    } else {
        after_events(stepped(queue, events[0]), events.drop_first())
    }
}

/// Who asks in an event.
pub open spec fn asking<W>(event: Event<W>) -> Multiset<W> {
    match event {
        Event::Request(request) => Multiset::singleton(request.tx),
        _ => Multiset::empty(),
    }
}

/// Everybody who asks in the course of `events`.
pub open spec fn asked<W>(events: Seq<Event<W>>) -> Multiset<W>
    decreases events.len(),
{
    if events.len() == 0 {
        Multiset::empty()
    } else {
        asking(events[0]).add(asked(events.drop_first()))
    }
}

/// Everybody who is told something in the course of `events`.
pub open spec fn told<W>(
    queue: QueueView<W>,
    events: Seq<Event<W>>,
) -> Multiset<W>
    decreases events.len(),
{
    if events.len() == 0 {
        Multiset::empty()
    } else {
        crate::decompiler::queue::recipients(replies_to(queue, events[0])).add(
            told(stepped(queue, events[0]), events.drop_first()),
        )
    }
}

/// Whatever happens, and in whatever order, the queue stays valid, and no more is in flight than the
/// service may hold.
pub proof fn law_events_keep_the_cap<W>(
    queue: QueueView<W>,
    events: Seq<Event<W>>,
)
    requires
        queue.valid(),
    ensures
        after_events(queue, events).valid(),
        after_events(queue, events).bytes_in_flight <= MAX_BYTES_IN_FLIGHT,
    decreases events.len(),
{
    if events.len() > 0 {
        lemma_stepped(queue, events[0]);
        law_events_keep_the_cap(stepped(queue, events[0]), events.drop_first());
    } else {
        crate::decompiler::queue::law_in_flight_is_capped(queue);
    }
}

/// One event: whoever waits or asks goes on waiting or is told.
proof fn lemma_stepped<W>(queue: QueueView<W>, event: Event<W>)
    requires
        queue.valid(),
    ensures
        stepped(queue, event).valid(),
        queue.everyone().add(asking(event)) == stepped(queue, event).everyone().add(
            crate::decompiler::queue::recipients(replies_to(queue, event)),
        ),
{
    let next = taken_in(queue, event);
    let replies = replies_to(queue, event);
    let names = Seq::new(replies.len(), |k: int| replies[k].0);
    names.to_multiset_ensures();
    if replies.len() == 0 {
        assert(names =~= Seq::empty());
        assert(crate::decompiler::queue::recipients(replies) =~= Multiset::empty());
    }
    match event {
        Event::BatchSent => {
            crate::decompiler::queue::lemma_delivered_valid(queue);
            crate::decompiler::queue::lemma_sending_everyone(queue);
        },
        Event::Message(
            WebsocketClientboundMessage::DecompilationResult { success, data, input_hash },
        ) => {
            crate::decompiler::queue::lemma_answered_valid(queue, input_hash@);
            let answer: Result<Seq<char>, Seq<char>> = if success {
                Ok(data@)
            } else {
                Err(data@)
            };
            crate::decompiler::queue::lemma_answered_everyone(queue, input_hash@, answer);
        },
        Event::Request(request) => {
            if request.bytecode_len > MAX_BYTES_IN_FLIGHT {
                let none = Seq::<W>::empty();
                none.to_multiset_ensures();
                assert(names =~= none.push(request.tx));
            } else {
                crate::decompiler::queue::lemma_requested_valid(
                    queue,
                    request.bytecode@,
                    request.bytecode_hash@,
                    request.bytecode_len as int,
                    request.tx,
                );
                crate::decompiler::queue::lemma_requested_everyone(
                    queue,
                    request.bytecode@,
                    request.bytecode_hash@,
                    request.bytecode_len as int,
                    request.tx,
                );
            }
        },
        Event::RequestsClosed => {
            assert(next.waiter_lists() =~= queue.waiter_lists());
        },
        _ => {},
    }
    crate::decompiler::queue::lemma_flushed_valid(next);
    crate::decompiler::queue::lemma_sending_everyone(next);
    assert(queue.everyone().add(asking(event)) =~= stepped(queue, event).everyone().add(
        crate::decompiler::queue::recipients(replies),
    ));
}

/// Nobody is forgotten and nobody is told twice: whoever waited at first or asked since has been told
/// once for each time they asked, or waits still.
pub proof fn law_everybody_is_told_once<W>(
    queue: QueueView<W>,
    events: Seq<Event<W>>,
)
    requires
        queue.valid(),
    ensures
        queue.everyone().add(asked(events)) == after_events(queue, events).everyone().add(
            told(queue, events),
        ),
    decreases events.len(),
{
    if events.len() > 0 {
        let next = stepped(queue, events[0]);
        lemma_stepped(queue, events[0]);
        law_everybody_is_told_once(next, events.drop_first());
        let rest = events.drop_first();
        assert forall|waiter: W|
            queue.everyone().add(asked(events)).count(waiter) == after_events(
                queue,
                events,
            ).everyone().add(told(queue, events)).count(waiter) by {
            assert(queue.everyone().add(asking(events[0])).count(waiter) == next.everyone().add(
                crate::decompiler::queue::recipients(replies_to(queue, events[0])),
            ).count(waiter));
            assert(next.everyone().add(asked(rest)).count(waiter) == after_events(
                next,
                rest,
            ).everyone().add(told(next, rest)).count(waiter));
        }
    }
    assert(queue.everyone().add(asked(events)) =~= after_events(queue, events).everyone().add(
        told(queue, events),
    ));
}

/// When the conversation that began with nothing is over, exactly those who asked have been told.
pub proof fn law_all_are_told_in_the_end<W>(events: Seq<Event<W>>)
    requires
        after_events(QueueView::<W>::empty(), events).finished(),
    ensures
        told(QueueView::<W>::empty(), events) == asked(events),
{
    let start = QueueView::<W>::empty();
    let end = after_events(start, events);
    law_everybody_is_told_once(start, events);
    assert(start.waiter_lists() =~= Seq::empty());
    assert(end.waiter_lists() =~= Seq::empty());
    assert(told(start, events) =~= end.everyone().add(told(start, events)));
    assert(asked(events) =~= start.everyone().add(asked(events)));
}

/// The bytecode that an event asks for, if nobody waits for it yet and the service can take it.
pub open spec fn fresh<W>(
    queue: QueueView<W>,
    event: Event<W>,
) -> Seq<Seq<char>> {
    match event {
        Event::Request(request) => if request.bytecode_len
            <= MAX_BYTES_IN_FLIGHT && queue.waiters_of(
            request.bytecode_hash@,
        ).len() == 0 {
            seq![request.bytecode@]
        } else {
            Seq::empty()
        },
        _ => Seq::empty(),
    }
}

/// The bytecodes that are sent because of an event.
pub open spec fn sent_on<W>(
    queue: QueueView<W>,
    event: Event<W>,
) -> Seq<Seq<char>> {
    if fatal(event) is Some || event is PingDue {
        Seq::empty()
    } else {
        let next = taken_in(queue, event);
        crate::decompiler::queue::bytecodes_of(next.queued.take(next.batch_len() as int))
    }
}

/// The bytecodes that are asked for in the course of `events`, without those that are waited for
/// already.
pub open spec fn all_fresh<W>(
    queue: QueueView<W>,
    events: Seq<Event<W>>,
) -> Seq<Seq<char>>
    decreases events.len(),
{
    if events.len() == 0 {
        Seq::empty()
    } else {
        fresh(queue, events[0]) + all_fresh(stepped(queue, events[0]), events.drop_first())
    }
}

/// The bytecodes that are sent in the course of `events`.
pub open spec fn all_sent<W>(
    queue: QueueView<W>,
    events: Seq<Event<W>>,
) -> Seq<Seq<char>>
    decreases events.len(),
{
    if events.len() == 0 {
        Seq::empty()
    } else {
        sent_on(queue, events[0]) + all_sent(stepped(queue, events[0]), events.drop_first())
    }
}

/// One event: what is sent is the front of what waits to be sent.
proof fn lemma_sent_on<W>(queue: QueueView<W>, event: Event<W>)
    requires
        queue.valid(),
    ensures
        crate::decompiler::queue::bytecodes_of(queue.queued) + fresh(queue, event) == sent_on(
            queue,
            event,
        ) + crate::decompiler::queue::bytecodes_of(stepped(queue, event).queued),
{
    let next = taken_in(queue, event);
    let waiting = crate::decompiler::queue::bytecodes_of(queue.queued) + fresh(queue, event);
    if let Event::Request(request) = event {
        if request.bytecode_len <= MAX_BYTES_IN_FLIGHT {
            crate::decompiler::queue::lemma_requested_valid(
                queue,
                request.bytecode@,
                request.bytecode_hash@,
                request.bytecode_len as int,
                request.tx,
            );
            crate::decompiler::queue::law_a_bytecode_is_sent_once(
                queue,
                request.bytecode@,
                request.bytecode_hash@,
                request.bytecode_len as int,
                request.tx,
            );
        }
    }
    assert(crate::decompiler::queue::bytecodes_of(next.queued) =~= waiting);
    lemma_batch_len(next);
    assert(waiting =~= sent_on(queue, event) + crate::decompiler::queue::bytecodes_of(
        stepped(queue, event).queued,
    ));
}

/// A batch is no longer than the queue.
proof fn lemma_batch_len<W>(queue: QueueView<W>)
    ensures
        queue.batch_len() <= queue.queued.len(),
{
    lemma_fitting_len(queue.queued, queue.available());
}

proof fn lemma_fitting_len<W>(
    groups: Seq<GroupView<W>>,
    available: int,
)
    ensures
        crate::decompiler::queue::fitting(groups, available) <= groups.len(),
    decreases groups.len(),
{
    if groups.len() > 0 && groups[0].bytecode_len <= available {
        lemma_fitting_len(groups.drop_first(), available - groups[0].bytecode_len);
    }
}

/// Bytecodes are sent in the order in which they were first asked for, each once for as long as it
/// is waited for: those sent and those yet to be sent are those that waited to be sent at first,
/// followed by those asked for since.
pub proof fn law_bytecodes_are_sent_in_order<W>(
    queue: QueueView<W>,
    events: Seq<Event<W>>,
)
    requires
        queue.valid(),
    ensures
        crate::decompiler::queue::bytecodes_of(queue.queued) + all_fresh(queue, events)
            == all_sent(queue, events) + crate::decompiler::queue::bytecodes_of(
            after_events(queue, events).queued,
        ),
    decreases events.len(),
{
    let waiting = crate::decompiler::queue::bytecodes_of(queue.queued);
    let unsent = crate::decompiler::queue::bytecodes_of(after_events(queue, events).queued);
    if events.len() == 0 {
        assert(waiting + all_fresh(queue, events) =~= all_sent(queue, events) + unsent);
    } else {
        let next = stepped(queue, events[0]);
        let rest = events.drop_first();
        let upcoming = crate::decompiler::queue::bytecodes_of(next.queued);
        lemma_stepped(queue, events[0]);
        lemma_sent_on(queue, events[0]);
        law_bytecodes_are_sent_in_order(next, rest);
        assert(waiting + all_fresh(queue, events) =~= waiting + fresh(queue, events[0])
            + all_fresh(next, rest));
        assert(sent_on(queue, events[0]) + upcoming + all_fresh(next, rest) =~= sent_on(
            queue,
            events[0],
        ) + (upcoming + all_fresh(next, rest)));
        assert(sent_on(queue, events[0]) + (all_sent(next, rest) + unsent) =~= all_sent(
            queue,
            events,
        ) + unsent);
    }
}

/// Everybody who waits for the bytecode of an answer is told exactly what the answer says: `data` as
/// the source if it is a success, and `data` as the reason if it is not.
pub proof fn law_answers_are_told_as_they_are<W>(
    queue: QueueView<W>,
    success: bool,
    data: String,
    input_hash: String,
    i: int,
    k: int,
)
    requires
        queue.valid(),
        0 <= i < queue.pending.len(),
        queue.pending[i].hash == input_hash@,
        0 <= k < queue.pending[i].waiters.len(),
    ensures
        ({
            let event = Event::<W>::Message(
                WebsocketClientboundMessage::DecompilationResult { success, data, input_hash },
            );
            &&& replies_to(queue, event).len() == queue.pending[i].waiters.len()
            &&& success ==> replies_to(queue, event)[k] == (
                queue.pending[i].waiters[k],
                Ok::<Seq<char>, Seq<char>>(data@),
            )
            &&& !success ==> replies_to(queue, event)[k] == (
                queue.pending[i].waiters[k],
                Err::<Seq<char>, Seq<char>>(data@),
            )
        }),
{
}

/// Nobody is told anything but by an answer for a bytecode that the service has, or by the refusal of
/// the request just made.
pub proof fn law_nothing_else_is_told<W>(queue: QueueView<W>, event: Event<W>)
    ensures
        !(event is Message) && !(event is Request) ==> replies_to(queue, event).len() == 0,
        event matches Event::Message(
            WebsocketClientboundMessage::DecompilationResult { success: _, data: _, input_hash },
        ) && (forall|i: int|
            0 <= i < queue.pending.len() ==> (#[trigger] queue.pending[i]).hash != input_hash@)
            ==> replies_to(queue, event).len() == 0,
        event matches Event::Request(request) ==> (if request.bytecode_len > 8 * 1024 * 1024 {
            replies_to(queue, event) == seq![
                (
                    request.tx,
                    Err::<Seq<char>, Seq<char>>(
                        crate::messages::too_large(request.bytecode_len as nat),
                    ),
                ),
            ]
        } else {
            replies_to(queue, event).len() == 0
        }),
{
}

/// How each event changes the queue, before what can be sent is taken from it.
pub proof fn law_events_change_the_queue_in_one_way<W>(queue: QueueView<W>, event: Event<W>)
    ensures
        taken_in(queue, event) == (match event {
            Event::BatchSent => queue.delivered(),
            Event::Message(
                WebsocketClientboundMessage::DecompilationResult { success: _, data: _, input_hash },
            ) => queue.answered(input_hash@),
            Event::Request(request) => if request.bytecode_len > 8 * 1024 * 1024 {
                queue
            } else {
                queue.requested(
                    request.bytecode@,
                    request.bytecode_hash@,
                    request.bytecode_len as int,
                    request.tx,
                )
            },
            Event::RequestsClosed => QueueView {
                bytes_in_flight: queue.bytes_in_flight,
                pending: queue.pending,
                outgoing: queue.outgoing,
                queued: queue.queued,
                input_closed: true,
            },
            _ => queue,
        }),
        stepped(queue, event) == (if event is BatchFailed || event is PingFailed
            || event is ClosedByServer || event is ConnectionError || event is ConnectionEnded
            || event is PingDue {
            queue
        } else {
            taken_in(queue, event).flushed()
        }),
{
}

/// Whatever can be sent is sent: where nothing is, a batch is under way, there is no room at all,
/// nothing is queued, or the oldest bytecode that is queued does not fit into the room.
pub proof fn law_whatever_fits_is_sent<W>(queue: QueueView<W>)
    requires
        queue.valid(),
    ensures
        due(queue) is SendBatch || queue.outgoing.len() > 0 || queue.bytes_in_flight >= 8 * 1024
            * 1024 || queue.queued.len() == 0 || queue.bytes_in_flight
            + queue.queued[0].bytecode_len > 8 * 1024 * 1024,
        due(queue) is SendBatch ==> {
            &&& queue.outgoing.len() == 0
            &&& queue.flushed().outgoing.len() > 0
            &&& due(queue)->SendBatch_0 == "{\"type\":\"decompile\",\"data\":"@
                + crate::outside::json_array_of(
                Seq::new(
                    queue.flushed().outgoing.len(),
                    |i: int| queue.flushed().outgoing[i].bytecode,
                ),
            ) + "}"@
        },
        !(due(queue) is SendBatch) ==> queue.flushed() == queue,
        due(queue) is Finish <==> queue.input_closed && queue.pending.len() == 0
            && queue.outgoing.len() == 0 && queue.queued.len() == 0,
        due(queue) is SendBatch || due(queue) is Finish || due(queue) == (ActionView::Wait {
            requests: !queue.input_closed,
        }),
{
    lemma_batch_len(queue);
    let outgoing = queue.flushed().outgoing;
    assert(crate::decompiler::queue::bytecodes_of(outgoing) =~= Seq::new(
        outgoing.len(),
        |i: int| outgoing[i].bytecode,
    ));
}

/// What happened is judged in one way: these events end the conversation, with these words, and no
/// others do.
pub proof fn law_only_failures_end_the_conversation<W>(event: Event<W>)
    ensures
        fatal(event) == (match event {
            Event::BatchFailed(error) => Some(
                "error: failed to send websocket message (connection lost): "@ + error@,
            ),
            Event::PingFailed(error) => Some(
                "error: failed to send ping (connection lost): "@ + error@,
            ),
            Event::ClosedByServer => Some("error: websocket connection closed by server"@),
            Event::ConnectionError(error) => Some("error: websocket connection error: "@ + error@),
            Event::ConnectionEnded => Some("error: websocket connection terminated unexpectedly"@),
            _ => None,
        }),
        noticed(event) == (match event {
            Event::UnknownText(quoted) => Some("server sent something unknown: "@ + quoted@),
            _ => None,
        }),
{
}

/// A request and its answer belong together: once a new bytecode has been asked for, sent and
/// delivered, an answer for its hash is told to the one who asked, word for word.
pub proof fn law_round_trip_of_one_request<W>(
    request: DecompilationRequest<W>,
    success: bool,
    data: String,
    input_hash: String,
)
    requires
        request.bytecode_len <= 8 * 1024 * 1024,
        input_hash@ == request.bytecode_hash@,
    ensures
        ({
            let start = QueueView::<W>::empty();
            let sending = stepped(start, Event::Request(request));
            let waiting = stepped(sending, Event::<W>::BatchSent);
            let event = Event::<W>::Message(
                WebsocketClientboundMessage::DecompilationResult { success, data, input_hash },
            );
            &&& due(taken_in(start, Event::Request(request))) == ActionView::SendBatch(
                "{\"type\":\"decompile\",\"data\":"@ + crate::outside::json_array_of(
                    seq![request.bytecode@],
                ) + "}"@,
            )
            &&& success ==> replies_to(waiting, event) == seq![
                (request.tx, Ok::<Seq<char>, Seq<char>>(data@)),
            ]
            &&& !success ==> replies_to(waiting, event) == seq![
                (request.tx, Err::<Seq<char>, Seq<char>>(data@)),
            ]
        }),
{
    let start = QueueView::<W>::empty();
    let asked = taken_in(start, Event::Request(request));
    let group = GroupView {
        hash: request.bytecode_hash@,
        bytecode: request.bytecode@,
        bytecode_len: request.bytecode_len as int,
        waiters: seq![request.tx],
    };
    assert(asked.queued =~= seq![group]);
    assert(asked.queued.drop_first() =~= Seq::empty());
    reveal_with_fuel(crate::decompiler::queue::fitting, 2);
    assert(asked.batch_len() == 1);
    let sending = asked.flushed();
    assert(sending.outgoing =~= seq![group]);
    assert(crate::decompiler::queue::bytecodes_of(sending.outgoing) =~= seq![request.bytecode@]);
    assert(sending.queued =~= Seq::empty());
    let delivered = sending.delivered();
    assert(delivered.pending =~= seq![group.sent()]);
    assert(delivered.batch_len() == 0);
    let waiting = delivered.flushed();
    assert(waiting.pending[0].hash == input_hash@);
    assert(crate::decompiler::queue::pending_index(waiting.pending, input_hash@) == Some(0int));
    let event = Event::<W>::Message(
        WebsocketClientboundMessage::DecompilationResult { success, data, input_hash },
    );
    assert(success ==> replies_to(waiting, event) =~= seq![
        (request.tx, Ok::<Seq<char>, Seq<char>>(data@)),
    ]);
    assert(!success ==> replies_to(waiting, event) =~= seq![
        (request.tx, Err::<Seq<char>, Seq<char>>(data@)),
    ]);
}

} // verus!
