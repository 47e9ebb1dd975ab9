//! The terminal side: splitting typed lines and the command table.

use netwayste::input::{parse_stdin, UserInput};
use netwayste::packet::{Packet, RequestAction};
use netwayste::session::{ClientNetState, Event};

fn command(cmd: &str, args: &[&str]) -> UserInput {
    UserInput::Command {
        cmd: cmd.to_owned(),
        args: args.iter().map(|a| (*a).to_owned()).collect(),
    }
}

#[test]
fn free_text_is_chat() {
    assert_eq!(
        parse_stdin("hello world".to_owned()),
        UserInput::Chat("hello world".to_owned())
    );
    assert_eq!(parse_stdin(String::new()), UserInput::Chat(String::new()));
}

#[test]
fn slash_lines_are_commands() {
    assert_eq!(
        parse_stdin("/join myroom".to_owned()),
        command("join", &["myroom"])
    );
    assert_eq!(parse_stdin("/list".to_owned()), command("list", &[]));
    assert_eq!(
        parse_stdin("/connect some name".to_owned()),
        command("connect", &["some", "name"])
    );
}

#[test]
fn command_word_is_lowered_but_arguments_are_verbatim() {
    assert_eq!(
        parse_stdin("/JOIN MyRoom".to_owned()),
        command("join", &["MyRoom"])
    );
}

#[test]
fn repeated_separators_are_collapsed() {
    assert_eq!(
        parse_stdin("/new \t  alpha ".to_owned()),
        command("new", &["alpha"])
    );
}

#[test]
fn a_bare_slash_is_an_empty_command() {
    assert_eq!(parse_stdin("/".to_owned()), command("", &[]));
}

#[test]
fn join_while_in_a_room_is_refused_locally() {
    let now = 10;
    let mut state = ClientNetState::new();
    state.cookie = Some("abc123".to_owned());
    state.room = Some("alpha".to_owned());
    let sequence_before = state.sequence;
    let out = state.handle_user_input_event(now, command("join", &["beta"]));
    // no packet is sent, the error is local, the state is unchanged
    assert!(out.to_send.is_empty());
    assert!(out.local_error.is_some());
    assert_eq!(state.room, Some("alpha".to_owned()));
    assert_eq!(state.sequence, sequence_before);
    assert_eq!(state.network.statistics().tx_packets_queued, 0);
}

#[test]
fn leave_in_the_lobby_is_refused_locally() {
    let mut state = ClientNetState::new();
    state.cookie = Some("abc123".to_owned());
    let out = state.handle_user_input_event(1, command("leave", &[]));
    assert!(out.to_send.is_empty());
    assert!(out.local_error.is_some());
}

#[test]
fn wrong_argument_counts_are_refused_locally() {
    let mut state = ClientNetState::new();
    for input in [
        command("connect", &[]),
        command("connect", &["a", "b"]),
        command("disconnect", &["x"]),
        command("list", &["x"]),
        command("new", &[]),
        command("join", &["a", "b"]),
        command("leave", &["x"]),
    ] {
        let out = state.handle_user_input_event(1, input);
        assert!(out.to_send.is_empty());
        assert!(out.local_error.is_some());
    }
}

#[test]
fn unknown_commands_are_refused_locally() {
    let mut state = ClientNetState::new();
    let out = state.handle_user_input_event(1, command("frobnicate", &[]));
    assert!(out.to_send.is_empty());
    assert!(out.local_error.is_some());
}

#[test]
fn list_asks_for_rooms_in_the_lobby_and_players_in_a_room() {
    let mut state = ClientNetState::new();
    state.cookie = Some("abc123".to_owned());
    let out = state.handle_user_input_event(1, command("list", &[]));
    match &out.to_send[0] {
        Packet::Request { action, .. } => assert_eq!(*action, RequestAction::ListRooms),
        other => panic!("expected a request, got {:?}", other),
    }
    state.room = Some("alpha".to_owned());
    let out = state.handle_user_input_event(2, command("list", &[]));
    match &out.to_send[0] {
        Packet::Request { action, .. } => assert_eq!(*action, RequestAction::ListPlayers),
        other => panic!("expected a request, got {:?}", other),
    }
}

#[test]
fn help_and_stats_are_local() {
    let mut state = ClientNetState::new();
    let out = state.handle_user_input_event(1, command("help", &[]));
    assert!(out.show_help);
    assert!(out.to_send.is_empty());
    let out = state.handle_user_input_event(2, command("stats", &[]));
    assert!(out.show_stats);
    assert!(out.to_send.is_empty());
}

#[test]
fn connect_records_the_chosen_name() {
    let mut state = ClientNetState::new();
    state.handle_user_input_event(1, command("connect", &["zorro"]));
    assert_eq!(state.name, Some("zorro".to_owned()));
}

#[test]
fn a_typed_line_travels_from_parser_to_wire() {
    let mut state = ClientNetState::new();
    state.cookie = Some("abc123".to_owned());
    let parsed = parse_stdin("/NEW  my_room".to_owned());
    let out = state.handle_event(3, Event::UserInputEvent(parsed));
    assert_eq!(out.to_send.len(), 1);
    match &out.to_send[0] {
        Packet::Request { sequence, response_ack, cookie, action } => {
            assert_eq!(*sequence, 1);
            assert_eq!(*response_ack, Some(0));
            assert_eq!(*cookie, Some("abc123".to_owned()));
            assert_eq!(*action, RequestAction::NewRoom("my_room".to_owned()));
        },
        other => panic!("expected a request, got {:?}", other),
    }
}

#[test]
fn chat_input_becomes_a_chat_request() {
    let mut state = ClientNetState::new();
    state.cookie = Some("abc123".to_owned());
    let out = state.handle_user_input_event(1, UserInput::Chat("hi all".to_owned()));
    assert_eq!(out.to_send.len(), 1);
    match &out.to_send[0] {
        Packet::Request { action, sequence, .. } => {
            assert_eq!(*action, RequestAction::ChatMessage("hi all".to_owned()));
            assert_eq!(*sequence, 1);
        },
        other => panic!("expected a request, got {:?}", other),
    }
}
