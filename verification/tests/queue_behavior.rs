//! The ordered buffer: insertion order, duplicate handling, eviction,
//! contiguous counting, acknowledgment removal and retransmission aging.

use netwayste::packet::{BroadcastChatMessage, Packet, RequestAction, ResponseCode};
use netwayste::queue::{NetworkQueue, RETRANSMISSION_TIMEOUT_MS};

fn chat(seq: u64) -> BroadcastChatMessage {
    BroadcastChatMessage {
        player_name: "other".to_owned(),
        message: format!("line {}", seq),
        chat_seq: Some(seq),
    }
}

fn request(seq: u64) -> Packet {
    Packet::Request {
        sequence: seq,
        response_ack: Some(0),
        cookie: Some("cookie".to_owned()),
        action: RequestAction::KeepAlive(0),
    }
}

fn response(seq: u64, ack: Option<u64>, code: ResponseCode) -> Packet {
    Packet::Response { sequence: seq, request_ack: ack, code }
}

fn chat_seq_at(q: &NetworkQueue<BroadcastChatMessage>, i: usize) -> u64 {
    q.get(i).chat_seq.unwrap()
}

#[test]
fn out_of_order_inserts_are_sorted() {
    let mut q: NetworkQueue<BroadcastChatMessage> = NetworkQueue::new();
    q.buffer_item(chat(5), 10);
    q.buffer_item(chat(3), 11);
    q.buffer_item(chat(6), 12);
    assert_eq!(q.len(), 3);
    assert_eq!(chat_seq_at(&q, 0), 3);
    assert_eq!(chat_seq_at(&q, 1), 5);
    assert_eq!(chat_seq_at(&q, 2), 6);
}

#[test]
fn duplicate_sequence_is_dropped() {
    let mut q: NetworkQueue<BroadcastChatMessage> = NetworkQueue::new();
    q.buffer_item(chat(5), 10);
    q.buffer_item(chat(5), 20);
    assert_eq!(q.len(), 1);
    assert_eq!(q.get(0).message, "line 5");
}

#[test]
fn bounded_queue_evicts_oldest_first() {
    let mut q: NetworkQueue<BroadcastChatMessage> = NetworkQueue::with_capacity(2);
    q.buffer_item(chat(1), 0);
    q.buffer_item(chat(2), 0);
    q.buffer_item(chat(3), 0);
    assert_eq!(q.len(), 2);
    assert_eq!(chat_seq_at(&q, 0), 2);
    assert_eq!(chat_seq_at(&q, 1), 3);
}

#[test]
fn contiguous_count_stops_at_gap() {
    let mut q: NetworkQueue<Packet> = NetworkQueue::new();
    q.buffer_item(response(0, None, ResponseCode::OK), 0);
    q.buffer_item(response(1, None, ResponseCode::OK), 0);
    q.buffer_item(response(3, None, ResponseCode::OK), 0);
    // the run starts at the front: 0 and 1 are processable, 3 waits for 2
    assert_eq!(q.get_contiguous_packets_count(0), 2);
    // a watermark that does not match the front finds nothing processable
    assert_eq!(q.get_contiguous_packets_count(2), 0);
    // once 0 and 1 are delivered, 3 still waits for 2
    q.pop_front();
    q.pop_front();
    assert_eq!(q.get_contiguous_packets_count(2), 0);
    assert_eq!(q.get_contiguous_packets_count(3), 1);
}

#[test]
fn remove_targets_the_acknowledged_request() {
    let mut q: NetworkQueue<Packet> = NetworkQueue::new();
    q.buffer_item(request(1), 0);
    q.buffer_item(request(2), 0);
    let probe = response(7, Some(1), ResponseCode::OK);
    let removed = q.remove(&probe);
    match removed {
        Some(Packet::Request { sequence, .. }) => assert_eq!(sequence, 1),
        _ => panic!("expected the request with sequence 1"),
    }
    assert_eq!(q.len(), 1);
    // a second acknowledgment of the same request finds nothing
    assert!(q.remove(&probe).is_none());
    // an unmatched acknowledgment removes nothing
    let unmatched = response(8, Some(9), ResponseCode::OK);
    assert!(q.remove(&unmatched).is_none());
    assert_eq!(q.len(), 1);
}

#[test]
fn remove_without_ack_key_is_a_no_op() {
    let mut q: NetworkQueue<Packet> = NetworkQueue::new();
    q.buffer_item(request(1), 0);
    let probe = response(7, None, ResponseCode::OK);
    assert!(q.remove(&probe).is_none());
    assert_eq!(q.len(), 1);
}

#[test]
fn retransmit_indices_age_by_the_fixed_timeout() {
    let mut q: NetworkQueue<Packet> = NetworkQueue::new();
    q.buffer_item(request(1), 0);
    q.buffer_item(request(2), 500);
    let due_early = q.get_retransmit_indices(RETRANSMISSION_TIMEOUT_MS - 1);
    assert!(due_early.is_empty());
    let due_mid = q.get_retransmit_indices(RETRANSMISSION_TIMEOUT_MS);
    assert_eq!(due_mid, vec![0]);
    let due_late = q.get_retransmit_indices(500 + RETRANSMISSION_TIMEOUT_MS);
    assert_eq!(due_late, vec![0, 1]);
}

#[test]
fn pop_front_returns_lowest_sequence() {
    let mut q: NetworkQueue<Packet> = NetworkQueue::new();
    q.buffer_item(response(2, None, ResponseCode::OK), 0);
    q.buffer_item(response(1, None, ResponseCode::OK), 0);
    match q.pop_front() {
        Some(Packet::Response { sequence, .. }) => assert_eq!(sequence, 1),
        _ => panic!("expected the response with sequence 1"),
    }
    assert_eq!(q.len(), 1);
}

#[test]
fn clear_empties_but_keeps_the_bound() {
    let mut q: NetworkQueue<BroadcastChatMessage> = NetworkQueue::with_capacity(2);
    q.buffer_item(chat(1), 0);
    q.clear();
    assert_eq!(q.len(), 0);
    q.buffer_item(chat(4), 0);
    q.buffer_item(chat(5), 0);
    q.buffer_item(chat(6), 0);
    assert_eq!(q.len(), 2);
}
