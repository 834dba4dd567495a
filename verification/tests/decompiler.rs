use std::collections::{HashMap, VecDeque};

use oracle_postprocess::decompiler::queue::{
    complete_waiters, decompile_request, DecompilationResponse, RequestQueue, MAX_BYTES_IN_FLIGHT,
};
use oracle_postprocess::decompiler::transport::{
    handle_event, next_action, Action, Event, Step, WebsocketClientboundMessage,
};
use oracle_postprocess::decompiler::DecompilationRequest;
use sha2::{Digest, Sha256};

fn sha256_of(input: &str) -> String {
    format!("{:x}", Sha256::digest(input.as_bytes()))
}

fn mock_decompilation(bytecode: &str) -> String {
    format!("print(\"{}\")", sha256_of(bytecode))
}

fn synthetic_bytecode(fill: char, len: usize) -> String {
    std::iter::repeat_n(fill, len).collect()
}

/// The bytecodes that a message asks for.
fn asked_for(message: &str) -> Vec<String> {
    let value: serde_json::Value = serde_json::from_str(message).expect("JSON");
    assert_eq!(value["type"], "decompile");
    assert_eq!(value.as_object().expect("object").len(), 2);
    value["data"]
        .as_array()
        .expect("array")
        .iter()
        .map(|item| item.as_str().expect("string").to_string())
        .collect()
}

/// A request with a size of its own choice.
fn sized(name: &str, bytecode_len: u32, tx: u32) -> DecompilationRequest<u32> {
    DecompilationRequest {
        bytecode: format!("code of {name}"),
        bytecode_hash: name.to_string(),
        bytecode_len,
        tx,
    }
}

fn answer(hash: &str, success: bool, data: &str) -> Event<u32> {
    Event::Message(WebsocketClientboundMessage::DecompilationResult {
        success,
        data: data.to_string(),
        input_hash: hash.to_string(),
    })
}

/// A service that answers in the order in which it was asked.
#[derive(Default)]
struct MockService {
    received_hashes: Vec<String>,
    hash_counts: HashMap<String, usize>,
    waiting: VecDeque<(String, String)>,
    inflight_bytes: usize,
    max_inflight_bytes: usize,
}

impl MockService {
    fn receive(&mut self, message: &str) {
        for bytecode in asked_for(message) {
            let hash = sha256_of(&bytecode);
            self.received_hashes.push(hash.clone());
            *self.hash_counts.entry(hash.clone()).or_insert(0) += 1;
            self.inflight_bytes += bytecode.len();
            self.max_inflight_bytes = self.max_inflight_bytes.max(self.inflight_bytes);
            self.waiting.push_back((hash, bytecode));
        }
    }

    fn next_answer(&mut self) -> Event<u32> {
        let (hash, bytecode) = self.waiting.pop_front().expect("nothing to answer");
        self.inflight_bytes -= bytecode.len();
        answer(&hash, true, &mock_decompilation(&bytecode))
    }
}

/// Runs a conversation to its end.
fn converse(
    requests: Vec<DecompilationRequest<u32>>,
    service: &mut MockService,
) -> HashMap<u32, DecompilationResponse> {
    let mut queue = RequestQueue::new();
    let mut incoming: VecDeque<DecompilationRequest<u32>> = requests.into();
    let mut replies = HashMap::new();
    let mut action = next_action(&mut queue);
    loop {
        let event = match action {
            Action::SendBatch(message) => {
                service.receive(&message);
                Event::BatchSent
            }
            Action::Wait { requests: true } => match incoming.pop_front() {
                Some(request) => Event::Request(request),
                None => Event::RequestsClosed,
            },
            Action::Wait { requests: false } => service.next_answer(),
            Action::Finish => return replies,
            Action::SendPing | Action::Abort(_) => panic!("unexpected action"),
        };
        let step = handle_event(&mut queue, event);
        for (tx, response) in step.replies {
            assert!(replies.insert(tx, response).is_none(), "told twice");
        }
        assert_eq!(step.notice, None);
        action = step.action;
    }
}

#[test]
fn decompiler_transport_batches_fifo_and_caps_inflight_bytes() {
    let first = synthetic_bytecode('A', 3 * 1024 * 1024);
    let second = synthetic_bytecode('B', 3 * 1024 * 1024);
    let third = synthetic_bytecode('C', 3 * 1024 * 1024);
    let fourth = synthetic_bytecode('D', 1024 * 1024);
    let duplicate_third = third.clone();

    let mut service = MockService::default();
    let requests = [&first, &second, &third, &fourth, &duplicate_third]
        .into_iter()
        .enumerate()
        .map(|(index, bytecode)| DecompilationRequest::new(bytecode.clone(), index as u32))
        .collect();
    let results = converse(requests, &mut service);

    assert_eq!(
        service.received_hashes,
        vec![
            sha256_of(&first),
            sha256_of(&second),
            sha256_of(&third),
            sha256_of(&fourth),
        ]
    );
    assert!(service.max_inflight_bytes <= MAX_BYTES_IN_FLIGHT as usize);
    assert_eq!(service.hash_counts[&sha256_of(&third)], 1);
    assert_eq!(results[&0], Ok(mock_decompilation(&first)));
    assert_eq!(results[&1], Ok(mock_decompilation(&second)));
    assert_eq!(results[&2], Ok(mock_decompilation(&third)));
    assert_eq!(results[&3], Ok(mock_decompilation(&fourth)));
    assert_eq!(results[&4], Ok(mock_decompilation(&duplicate_third)));
}

#[test]
fn request_carries_hash_and_length() {
    let request = DecompilationRequest::new("QUJD\u{e9}".to_string(), 5u32);
    assert_eq!(request.bytecode, "QUJD\u{e9}");
    assert_eq!(request.bytecode_hash, sha256_of("QUJD\u{e9}"));
    assert_eq!(request.bytecode_len, 6);
    assert_eq!(request.tx, 5);
    assert_eq!(
        DecompilationRequest::new("abc".to_string(), ()).bytecode_hash,
        "ba7816bf8f01cfea414140de5dae2223b00361a396177a9cb410ff61f20015ad"
    );
}

#[test]
fn message_is_the_one_the_service_expects() {
    let mut queue = RequestQueue::new();
    assert!(queue.queue_request(sized("a", 1, 1)).is_none());
    assert!(queue.queue_request(sized("b", 1, 2)).is_none());
    assert_eq!(
        queue.flush_queued_requests().as_deref(),
        Some("{\"type\":\"decompile\",\"data\":[\"code of a\",\"code of b\"]}")
    );
    assert_eq!(queue.flush_queued_requests(), None);
}

#[test]
fn request_is_framed_around_the_array() {
    assert_eq!(decompile_request("[]"), "{\"type\":\"decompile\",\"data\":[]}");
    assert_eq!(decompile_request("[\"QUJD\"]"), "{\"type\":\"decompile\",\"data\":[\"QUJD\"]}");
}

#[test]
fn bytecodes_are_quoted_in_messages() {
    let mut queue = RequestQueue::new();
    let bytecode = "\"\\\n\u{1}\u{1f600}";
    assert!(queue.queue_request(DecompilationRequest::new(bytecode.to_string(), 1u32)).is_none());
    let message = queue.flush_queued_requests().expect("batch");
    assert_eq!(asked_for(&message), vec![bytecode.to_string()]);
}

#[test]
fn batches_are_as_long_as_the_room_allows() {
    let mut queue = RequestQueue::new();
    for (index, (name, len)) in [
        ("a", MAX_BYTES_IN_FLIGHT - 3),
        ("b", 2),
        ("c", 2),
        ("d", 1),
    ]
    .into_iter()
    .enumerate()
    {
        assert!(queue.queue_request(sized(name, len, index as u32)).is_none());
    }
    // The last would fit, but not before the one that came earlier.
    let message = queue.flush_queued_requests().expect("batch");
    assert_eq!(asked_for(&message), vec!["code of a", "code of b"]);
    queue.batch_sent();
    assert_eq!(queue.flush_queued_requests(), None);
    assert_eq!(queue.handle_result(true, "x".to_string(), "b".to_string()), vec![(1, Ok("x".to_string()))]);
    let message = queue.flush_queued_requests().expect("batch");
    assert_eq!(asked_for(&message), vec!["code of c", "code of d"]);
}

#[test]
fn nothing_is_sent_while_there_is_no_room() {
    let mut queue = RequestQueue::new();
    assert!(queue.queue_request(sized("full", MAX_BYTES_IN_FLIGHT, 1)).is_none());
    assert!(queue.flush_queued_requests().is_some());
    queue.batch_sent();
    assert!(queue.queue_request(sized("empty", 0, 2)).is_none());
    assert_eq!(queue.flush_queued_requests(), None);
    queue.handle_result(false, String::new(), "full".to_string());
    let message = queue.flush_queued_requests().expect("batch");
    assert_eq!(asked_for(&message), vec!["code of empty"]);
}

#[test]
fn too_large_requests_are_refused() {
    let mut queue = RequestQueue::new();
    let refused = queue.queue_request(sized("large", MAX_BYTES_IN_FLIGHT + 1, 9));
    assert_eq!(
        refused,
        Some((9, Err("bytecode too large (8.00 mb) exceeds 8mb limit".to_string())))
    );
    assert_eq!(queue.flush_queued_requests(), None);
    queue.close_input();
    assert!(queue.is_finished());
}

#[test]
fn requests_for_the_same_bytecode_are_joined_wherever_it_stands() {
    let mut queue = RequestQueue::new();
    assert!(queue.queue_request(sized("a", 4, 1)).is_none());
    // While it is queued, while it is being sent, and while the service has it.
    assert!(queue.queue_request(sized("a", 4, 2)).is_none());
    let message = queue.flush_queued_requests().expect("batch");
    assert_eq!(asked_for(&message), vec!["code of a"]);
    assert!(queue.queue_request(sized("a", 4, 3)).is_none());
    queue.batch_sent();
    assert!(queue.queue_request(sized("a", 4, 4)).is_none());
    assert_eq!(queue.flush_queued_requests(), None);
    let replies = queue.handle_result(false, "broken".to_string(), "a".to_string());
    let failed: DecompilationResponse = Err("broken".to_string());
    assert_eq!(
        replies,
        vec![(1, failed.clone()), (2, failed.clone()), (3, failed.clone()), (4, failed)]
    );
    // Afterwards it can be asked for anew.
    assert!(queue.queue_request(sized("a", 4, 5)).is_none());
    assert!(queue.flush_queued_requests().is_some());
}

#[test]
fn answers_that_nobody_waits_for_are_passed_over() {
    let mut queue = RequestQueue::new();
    assert!(queue.queue_request(sized("a", 4, 1)).is_none());
    // It is not with the service yet.
    assert_eq!(queue.handle_result(true, "x".to_string(), "a".to_string()), vec![]);
    assert_eq!(queue.handle_result(true, "x".to_string(), "b".to_string()), vec![]);
    assert!(queue.flush_queued_requests().is_some());
    queue.batch_sent();
    assert_eq!(queue.handle_result(true, "x".to_string(), "a".to_string()).len(), 1);
    assert_eq!(queue.handle_result(true, "x".to_string(), "a".to_string()), vec![]);
}

#[test]
fn every_waiter_gets_the_same_response() {
    let done: DecompilationResponse = Ok("return".to_string());
    assert_eq!(complete_waiters(Vec::<u8>::new(), done.clone()), vec![]);
    assert_eq!(complete_waiters(vec![7u8], done.clone()), vec![(7, done.clone())]);
    assert_eq!(
        complete_waiters(vec![3u8, 1, 2], done.clone()),
        vec![(3, done.clone()), (1, done.clone()), (2, done)]
    );
}

#[test]
fn queue_is_finished_once_closed_and_answered() {
    let mut queue = RequestQueue::new();
    assert!(queue.accepts_requests());
    assert!(!queue.is_finished());
    assert!(queue.queue_request(sized("a", 4, 1)).is_none());
    queue.close_input();
    assert!(!queue.accepts_requests());
    assert!(!queue.is_finished());
    assert!(queue.flush_queued_requests().is_some());
    assert!(!queue.is_finished());
    queue.batch_sent();
    assert!(!queue.is_finished());
    assert_eq!(queue.handle_result(true, String::new(), "a".to_string()).len(), 1);
    assert!(queue.is_finished());
}

fn abort_reason(event: Event<u32>) -> String {
    let mut queue = RequestQueue::new();
    let step = handle_event(&mut queue, event);
    assert!(step.replies.is_empty());
    assert_eq!(step.notice, None);
    match step.action {
        Action::Abort(reason) => reason,
        _ => panic!("expected to give up"),
    }
}

#[test]
fn failures_end_the_conversation() {
    assert_eq!(
        abort_reason(Event::BatchFailed("gone".to_string())),
        "error: failed to send websocket message (connection lost): gone"
    );
    assert_eq!(
        abort_reason(Event::PingFailed("gone".to_string())),
        "error: failed to send ping (connection lost): gone"
    );
    assert_eq!(
        abort_reason(Event::ClosedByServer),
        "error: websocket connection closed by server"
    );
    assert_eq!(
        abort_reason(Event::ConnectionError("reset".to_string())),
        "error: websocket connection error: reset"
    );
    assert_eq!(
        abort_reason(Event::ConnectionEnded),
        "error: websocket connection terminated unexpectedly"
    );
}

fn waits(step: &Step<u32>) -> bool {
    matches!(step.action, Action::Wait { requests: true })
}

#[test]
fn other_events_only_lead_to_more_waiting() {
    let mut queue = RequestQueue::new();
    assert!(matches!(next_action(&mut queue), Action::Wait { requests: true }));
    let due = handle_event(&mut queue, Event::PingDue);
    assert!(matches!(due.action, Action::SendPing));
    assert!(waits(&handle_event(&mut queue, Event::PingSent)));
    assert!(waits(&handle_event(&mut queue, Event::OtherFrame)));
    let unknown = handle_event(&mut queue, Event::UnknownText("\"hello\"".to_string()));
    assert!(waits(&unknown));
    assert_eq!(unknown.notice.as_deref(), Some("server sent something unknown: \"hello\""));
    assert!(waits(&handle_event(&mut queue, answer("nobody", true, "x"))));
    let closed = handle_event(&mut queue, Event::RequestsClosed);
    assert!(matches!(closed.action, Action::Finish));
}

#[test]
fn refused_request_is_told_at_once() {
    let mut queue = RequestQueue::new();
    let step = handle_event(&mut queue, Event::Request(sized("large", u32::MAX, 3)));
    assert_eq!(step.replies.len(), 1);
    assert_eq!(step.replies[0].0, 3);
    assert!(step.replies[0].1.is_err());
    assert!(waits(&step));
}

#[test]
fn everybody_is_told_once_in_any_order() {
    // A small generator of pseudo-random numbers drives the order of events.
    let mut state = 0x2545_f491_4f6c_dd1du64;
    let mut random = move |bound: u64| {
        state ^= state << 13;
        state ^= state >> 7;
        state ^= state << 17;
        state % bound
    };
    for _ in 0..200 {
        let mut queue: RequestQueue<u32> = RequestQueue::new();
        let mut in_service: Vec<(String, u32)> = Vec::new();
        let mut on_the_way: Vec<(String, u32)> = Vec::new();
        let mut sizes: HashMap<String, u32> = HashMap::new();
        let mut told: HashMap<u32, usize> = HashMap::new();
        let mut asked = 0u32;
        let mut action = next_action(&mut queue);
        loop {
            let event = match action {
                Action::SendBatch(message) => {
                    for bytecode in asked_for(&message) {
                        let name = bytecode["code of ".len()..].to_string();
                        let size = sizes[&name];
                        on_the_way.push((name, size));
                    }
                    in_service.append(&mut on_the_way);
                    let total: u32 = in_service.iter().map(|(_, size)| size).sum();
                    assert!(total <= MAX_BYTES_IN_FLIGHT);
                    Event::BatchSent
                }
                Action::SendPing => Event::PingSent,
                Action::Finish => break,
                Action::Abort(_) => panic!("unexpected"),
                Action::Wait { requests } => {
                    let choice = random(8);
                    if requests && choice < 4 {
                        if asked == 40 {
                            Event::RequestsClosed
                        } else {
                            asked += 1;
                            let name = format!("{}", random(9));
                            let size = *sizes
                                .entry(name.clone())
                                .or_insert(random(MAX_BYTES_IN_FLIGHT as u64 + 2) as u32);
                            Event::Request(sized(&name, size, asked))
                        }
                    } else if choice < 7 && !in_service.is_empty() {
                        let index = random(in_service.len() as u64) as usize;
                        let (name, _) = in_service.remove(index);
                        answer(&name, choice % 2 == 0, "data")
                    } else {
                        Event::PingDue
                    }
                }
            };
            let step = handle_event(&mut queue, event);
            for (tx, _) in step.replies {
                *told.entry(tx).or_insert(0) += 1;
            }
            action = step.action;
        }
        assert_eq!(told.len(), asked as usize);
        assert!(told.values().all(|&times| times == 1));
        assert!(in_service.is_empty());
    }
}

#[test]
fn anything_that_waits_can_be_sent_to_an_idle_service() {
    for len in [0, 1, MAX_BYTES_IN_FLIGHT - 1, MAX_BYTES_IN_FLIGHT] {
        let mut queue = RequestQueue::new();
        assert!(queue.queue_request(sized("a", len, 1)).is_none());
        assert!(matches!(next_action(&mut queue), Action::SendBatch(_)));
    }
}
