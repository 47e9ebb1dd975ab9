//! The session state machine end to end: login, in-order delivery with
//! gaps and duplicates, heartbeat timeout, retransmission, chat merging
//! and protocol violations.

use netwayste::input::UserInput;
use netwayste::packet::{BroadcastChatMessage, Packet, RequestAction, ResponseCode};
use netwayste::session::{ClientNetState, Event, CONNECTION_TIMEOUT_MS};

fn response(seq: u64, ack: u64, code: ResponseCode) -> Packet {
    Packet::Response { sequence: seq, request_ack: Some(ack), code }
}

fn command(cmd: &str, args: &[&str]) -> UserInput {
    UserInput::Command {
        cmd: cmd.to_owned(),
        args: args.iter().map(|a| (*a).to_owned()).collect(),
    }
}

fn chat_from(name: &str, seq: u64) -> BroadcastChatMessage {
    BroadcastChatMessage {
        player_name: name.to_owned(),
        message: format!("{} says {}", name, seq),
        chat_seq: Some(seq),
    }
}

/// Connect as "me" and deliver the login response; the session ends up in
/// the lobby with watermark 1 and request sequence 0.
fn logged_in_session(now: u64) -> ClientNetState {
    let mut state = ClientNetState::new();
    let out = state.handle_user_input_event(now, command("connect", &["me"]));
    assert_eq!(out.to_send.len(), 1);
    state.handle_incoming_event(
        now,
        response(0, 0, ResponseCode::LoggedIn("abc123".to_owned(), "0.0.1".to_owned())),
    );
    assert_eq!(state.cookie, Some("abc123".to_owned()));
    state
}

#[test]
fn login_stores_cookie_and_warns_on_version_mismatch() {
    let mut state = ClientNetState::new();
    let out = state.handle_user_input_event(5, command("connect", &["me"]));
    assert!(out.local_error.is_none());
    assert_eq!(out.to_send.len(), 1);
    match &out.to_send[0] {
        Packet::Request { sequence, response_ack, cookie, action } => {
            assert_eq!(*sequence, 0);
            assert_eq!(*response_ack, Some(0));
            assert!(cookie.is_none());
            assert_eq!(
                *action,
                RequestAction::Connect {
                    name: "me".to_owned(),
                    client_version: "0.0.1".to_owned(),
                }
            );
        },
        other => panic!("expected a request, got {:?}", other),
    }
    let out = state.handle_incoming_event(
        7,
        response(0, 0, ResponseCode::LoggedIn("abc123".to_owned(), "1.2".to_owned())),
    );
    // lobby: cookie stored, no room joined
    assert_eq!(state.cookie, Some("abc123".to_owned()));
    assert!(state.room.is_none());
    // the mismatched server version draws a warning, not an error
    assert!(out.version_mismatch);
    assert!(out.local_error.is_none());
    // the login code is mirrored to the player-facing layer
    assert_eq!(out.notifications.len(), 1);
    // the watermark advanced past the login response
    assert_eq!(state.response_sequence, 1);
}

#[test]
fn matching_version_draws_no_warning() {
    let mut state = ClientNetState::new();
    state.handle_user_input_event(5, command("connect", &["me"]));
    let out = state.handle_incoming_event(
        7,
        response(0, 0, ResponseCode::LoggedIn("abc123".to_owned(), "0.0.1".to_owned())),
    );
    assert!(!out.version_mismatch);
}

#[test]
fn responses_are_delivered_in_order_despite_gaps_and_duplicates() {
    let now = 10;
    let mut state = logged_in_session(now);
    // three requests, sequences 1, 2, 3
    state.handle_user_input_event(now, command("list", &[]));
    state.handle_user_input_event(now, command("new", &["alpha"]));
    state.handle_user_input_event(now, command("join", &["alpha"]));
    assert_eq!(state.sequence, 3);

    let r1 = response(1, 1, ResponseCode::RoomList(Vec::new()));
    let r3 = response(3, 3, ResponseCode::JoinedRoom("alpha".to_owned()));

    // sequence 2 arrives first: buffered behind the gap, nothing delivered
    let out = state.handle_incoming_event(now, response(2, 2, ResponseCode::OK));
    assert!(out.notifications.is_empty());
    assert_eq!(state.response_sequence, 1);

    // a duplicate of sequence 2 is dropped silently
    let out = state.handle_incoming_event(now, response(2, 2, ResponseCode::OK));
    assert!(out.notifications.is_empty());
    assert_eq!(state.response_sequence, 1);

    // sequence 1 fills the gap: 1 and 2 are delivered, in order, once
    let out = state.handle_incoming_event(now, r1);
    assert_eq!(out.notifications, vec![ResponseCode::RoomList(Vec::new())]);
    assert_eq!(state.response_sequence, 3);

    // sequence 3 is delivered as soon as it arrives
    let out = state.handle_incoming_event(now, r3);
    assert_eq!(
        out.notifications,
        vec![ResponseCode::JoinedRoom("alpha".to_owned())]
    );
    assert_eq!(state.response_sequence, 4);
    assert_eq!(state.room, Some("alpha".to_owned()));

    // a stale redelivery of sequence 1 changes nothing
    let stale = response(1, 1, ResponseCode::RoomList(Vec::new()));
    let out = state.handle_incoming_event(now, stale);
    assert!(out.notifications.is_empty());
    assert_eq!(state.response_sequence, 4);
}

#[test]
fn unmatched_response_is_treated_as_already_acknowledged() {
    let now = 10;
    let mut state = logged_in_session(now);
    // nothing awaits acknowledgment under sequence 9
    let out = state.handle_incoming_event(now, response(1, 9, ResponseCode::OK));
    assert!(out.notifications.is_empty());
    assert_eq!(state.response_sequence, 1);
}

#[test]
fn heartbeat_timeout_on_tick_resets_the_session() {
    let now = 100;
    let mut state = logged_in_session(now);
    state.handle_user_input_event(now, command("join", &["alpha"]));
    state.handle_incoming_event(
        now,
        response(1, 1, ResponseCode::JoinedRoom("alpha".to_owned())),
    );
    assert!(state.room.is_some());
    assert!(state.sequence > 0);

    // while alive, a tick sends a keep-alive carrying the watermark
    let sent = state.handle_tick_event(now + 1);
    match sent {
        Some(Packet::Request { action: RequestAction::KeepAlive(ack), response_ack, .. }) => {
            assert_eq!(ack, 2);
            assert_eq!(response_ack, None);
        },
        other => panic!("expected a keep-alive, got {:?}", other),
    }

    // silence for the whole timeout: the tick tears the session down
    let sent = state.handle_tick_event(now + CONNECTION_TIMEOUT_MS);
    assert!(sent.is_none());
    assert_eq!(state.cookie, None);
    assert_eq!(state.room, None);
    assert_eq!(state.sequence, 0);
    assert_eq!(state.response_sequence, 0);
    assert_eq!(state.chat_msg_seq_num, 0);
    assert_eq!(state.heartbeat, None);
    // the player's name survives a reset
    assert_eq!(state.name, Some("me".to_owned()));
}

#[test]
fn request_is_retransmitted_with_fresh_ack_and_same_sequence() {
    let now = 1_000;
    let mut state = logged_in_session(now);
    let out = state.handle_user_input_event(now, command("new", &["alpha"]));
    let original = &out.to_send[0];
    let original_seq = match original {
        Packet::Request { sequence, .. } => *sequence,
        _ => panic!("expected a request"),
    };

    // before the timeout nothing is due
    let out = state.handle_network_event(now + 999);
    assert!(out.to_send.is_empty());

    // at the timeout the request is re-sent: same sequence, current
    // watermark as the piggybacked acknowledgment
    let out = state.handle_network_event(now + 1_000);
    assert_eq!(out.to_send.len(), 1);
    match &out.to_send[0] {
        Packet::Request { sequence, response_ack, .. } => {
            assert_eq!(*sequence, original_seq);
            assert_eq!(*response_ack, Some(state.response_sequence));
        },
        other => panic!("expected a request, got {:?}", other),
    }

    // once the matching response arrives, nothing is ever re-sent again
    state.handle_incoming_event(now + 1_500, response(1, original_seq, ResponseCode::OK));
    let out = state.handle_network_event(now + 10_000);
    assert!(out.to_send.is_empty());
}

#[test]
fn update_merges_fresh_chats_and_drops_replayed_ones() {
    let now = 50;
    let mut state = logged_in_session(now);
    state.chat_msg_seq_num = 4;

    let update = Packet::Update {
        chats: Some(vec![chat_from("other", 5), chat_from("other", 3), chat_from("other", 6)]),
        game_updates: None,
        universe_update: None,
    };
    let out = state.handle_incoming_event(now, update);

    // 5 and 6 are delivered and counted; the replayed 3 is dropped
    assert_eq!(out.chat_messages.len(), 2);
    assert_eq!(out.chat_messages[0].chat_seq, Some(5));
    assert_eq!(out.chat_messages[1].chat_seq, Some(6));
    assert_eq!(state.chat_msg_seq_num, 6);

    // the update is echoed at once, acknowledging the new watermark
    assert_eq!(out.to_send.len(), 1);
    match &out.to_send[0] {
        Packet::UpdateReply { cookie, last_chat_seq, .. } => {
            assert_eq!(cookie, "abc123");
            assert_eq!(*last_chat_seq, Some(6));
        },
        other => panic!("expected an update reply, got {:?}", other),
    }

    // replaying the whole update delivers nothing new
    let replay = Packet::Update {
        chats: Some(vec![chat_from("other", 5), chat_from("other", 6)]),
        game_updates: None,
        universe_update: None,
    };
    let out = state.handle_incoming_event(now + 1, replay);
    assert!(out.chat_messages.is_empty());
    assert_eq!(state.chat_msg_seq_num, 6);
}

#[test]
fn own_chat_lines_are_counted_but_not_shown() {
    let now = 50;
    let mut state = logged_in_session(now);
    let update = Packet::Update {
        chats: Some(vec![chat_from("me", 1), chat_from("other", 2)]),
        game_updates: None,
        universe_update: None,
    };
    let out = state.handle_incoming_event(now, update);
    assert_eq!(out.chat_messages.len(), 1);
    assert_eq!(out.chat_messages[0].player_name, "other");
    assert_eq!(state.chat_msg_seq_num, 2);
}

#[test]
fn leaving_a_room_restarts_chat_numbering() {
    let now = 10;
    let mut state = logged_in_session(now);
    state.handle_user_input_event(now, command("join", &["alpha"]));
    state.handle_incoming_event(
        now,
        response(1, 1, ResponseCode::JoinedRoom("alpha".to_owned())),
    );
    state.chat_msg_seq_num = 9;
    state.handle_user_input_event(now, command("leave", &[]));
    let out = state.handle_incoming_event(now, response(2, 2, ResponseCode::LeaveRoom));
    assert_eq!(out.notifications, vec![ResponseCode::LeaveRoom]);
    assert_eq!(state.room, None);
    assert_eq!(state.chat_msg_seq_num, 0);
}

#[test]
fn server_side_packets_are_discarded_as_protocol_violations() {
    let now = 10;
    let mut state = logged_in_session(now);
    let before_room = state.room.clone();
    let before_seq = state.sequence;
    let intruding = Packet::Request {
        sequence: 7,
        response_ack: None,
        cookie: None,
        action: RequestAction::ListRooms,
    };
    let out = state.handle_incoming_event(now + 3, intruding);
    assert!(out.to_send.is_empty());
    assert!(out.notifications.is_empty());
    assert_eq!(state.room, before_room);
    assert_eq!(state.sequence, before_seq);
    // but the packet still proves the server is alive
    assert_eq!(state.heartbeat, Some(now + 3));
}

#[test]
fn error_codes_are_mirrored_to_the_player() {
    let now = 10;
    let mut state = logged_in_session(now);
    state.handle_user_input_event(now, command("new", &["alpha"]));
    let out = state.handle_incoming_event(
        now,
        response(1, 1, ResponseCode::BadRequest(Some("bad".to_owned()))),
    );
    assert_eq!(
        out.notifications,
        vec![ResponseCode::BadRequest(Some("bad".to_owned()))]
    );
}

#[test]
fn disconnect_winds_the_session_down_via_the_next_tick() {
    let now = 10;
    let mut state = logged_in_session(now);
    let out = state.handle_user_input_event(now, command("quit", &[]));
    assert!(out.exit);
    assert!(state.disconnect_initiated);
    let sent = state.handle_tick_event(now + 1);
    assert!(sent.is_none());
    assert_eq!(state.cookie, None);
    assert_eq!(state.sequence, 0);
}

#[test]
fn game_layer_requests_use_the_same_send_path() {
    let now = 10;
    let mut state = logged_in_session(now);
    let out = state.handle_event(now, Event::ConwaysteEvent(RequestAction::ListRooms));
    assert_eq!(out.to_send.len(), 1);
    match &out.to_send[0] {
        Packet::Request { sequence, action, .. } => {
            assert_eq!(*sequence, 1);
            assert_eq!(*action, RequestAction::ListRooms);
        },
        other => panic!("expected a request, got {:?}", other),
    }
    // the sentinel is refused by the shared send path
    let out = state.handle_event(now, Event::ConwaysteEvent(RequestAction::NoAction));
    assert!(out.to_send.is_empty());
}

#[test]
fn statistics_count_all_three_queues() {
    let now = 10;
    let mut state = logged_in_session(now);
    state.handle_user_input_event(now, command("new", &["alpha"]));
    let st = state.network.statistics();
    assert_eq!(st.tx_packets_queued, 1);
    assert_eq!(st.rx_packets_buffered, 0);
    assert_eq!(st.chat_messages_buffered, 0);
}
