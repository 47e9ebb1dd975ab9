//! The wire-level packet model: the tagged unions a client exchanges with
//! its server, and their sequence-number accessors for the queues.

use vstd::prelude::*;

use crate::queue::Sequenced;

verus! {

/// The port a server listens on when none is given.
pub const DEFAULT_PORT: u16 = 2016;

/// The version string this client reports when connecting.
pub open spec fn client_version_spec() -> Seq<char> {
    "0.0.1"@
}

/// The version string this client reports when connecting.
pub fn client_version() -> (v: String)
    ensures
        v@ == client_version_spec(),
{
    "0.0.1".to_owned()
}

/// One chat line broadcast by the server inside an `Update` packet.
/// `chat_seq` is the per-room ordering key; it is absent only on a packet
/// the server has not yet numbered.
#[derive(Debug, PartialEq)]
pub struct BroadcastChatMessage {
    pub player_name: String,
    pub message: String,
    pub chat_seq: Option<u64>,
}

/// One row of a room listing: the room's name, how many players are in it,
/// and whether its game is running.
#[derive(Debug, PartialEq)]
pub struct RoomInfo {
    pub room_name: String,
    pub player_count: u64,
    pub in_progress: bool,
}

/// What a client asks of the server. `NoAction` is never transmitted: it
/// is the sentinel for "no action produced this step".
#[derive(Debug, PartialEq)]
pub enum RequestAction {
    NoAction,
    Connect { name: String, client_version: String },
    Disconnect,
    KeepAlive(u64),
    ChatMessage(String),
    ListPlayers,
    ListRooms,
    NewRoom(String),
    JoinRoom(String),
    LeaveRoom,
}

impl Clone for RequestAction {
    fn clone(&self) -> (r: Self)
        ensures
            r == *self,
    {
        match self {
            RequestAction::NoAction => RequestAction::NoAction,
            RequestAction::Connect { name, client_version } => RequestAction::Connect {
                name: name.clone(),
                client_version: client_version.clone(),
            },
            RequestAction::Disconnect => RequestAction::Disconnect,
            RequestAction::KeepAlive(ack) => RequestAction::KeepAlive(*ack),
            RequestAction::ChatMessage(text) => RequestAction::ChatMessage(text.clone()),
            RequestAction::ListPlayers => RequestAction::ListPlayers,
            RequestAction::ListRooms => RequestAction::ListRooms,
            RequestAction::NewRoom(name) => RequestAction::NewRoom(name.clone()),
            RequestAction::JoinRoom(name) => RequestAction::JoinRoom(name.clone()),
            RequestAction::LeaveRoom => RequestAction::LeaveRoom,
        }
    }
}

/// How the server answers one request, or what it pushes out of band.
#[derive(Debug, PartialEq)]
pub enum ResponseCode {
    OK,
    LoggedIn(String, String),
    LeaveRoom,
    JoinedRoom(String),
    PlayerList(Vec<String>),
    RoomList(Vec<RoomInfo>),
    KeepAlive,
    BadRequest(Option<String>),
    Unauthorized(Option<String>),
    ServerError(Option<String>),
}

/// One datagram of the protocol.
#[derive(Debug, PartialEq)]
#[allow(inconsistent_fields)]
pub enum Packet {
    /// Client to server; `sequence` is the client's request counter and
    /// `response_ack` piggybacks the client's response watermark.
    Request {
        sequence: u64,
        response_ack: Option<u64>,
        cookie: Option<String>,
        action: RequestAction,
    },
    /// Server to client, one per request; `sequence` is the server's
    /// response counter and `request_ack` names the request it answers.
    Response { sequence: u64, request_ack: Option<u64>, code: ResponseCode },
    /// Server to client, unsolicited periodic push. The game payloads are
    /// opaque to the session layer; only their presence matters here.
    Update {
        chats: Option<Vec<BroadcastChatMessage>>,
        game_updates: Option<Vec<u64>>,
        universe_update: Option<u64>,
    },
    /// Client to server, acknowledging an `Update`.
    UpdateReply {
        cookie: String,
        last_chat_seq: Option<u64>,
        last_game_update_seq: Option<u64>,
        last_gen: Option<u64>,
    },
}

impl Sequenced for Packet {
    /// Requests and responses are filed under their own sequence number;
    /// updates carry none and are never queued.
    open spec fn sequence_spec(&self) -> Option<u64> {
        match self {
            Packet::Request { sequence, .. } => Some(*sequence),
            Packet::Response { sequence, .. } => Some(*sequence),
            Packet::Update { .. } => None,
            Packet::UpdateReply { .. } => None,
        }
    }

    /// A response acknowledges the request named by its `request_ack`; a
    /// request stands for itself.
    open spec fn ack_spec(&self) -> Option<u64> {
        match self {
            Packet::Request { sequence, .. } => Some(*sequence),
            Packet::Response { request_ack, .. } => *request_ack,
            Packet::Update { .. } => None,
            Packet::UpdateReply { .. } => None,
        }
    }

    fn sequence_number(&self) -> (r: Option<u64>) {
        match self {
            Packet::Request { sequence, .. } => Some(*sequence),
            Packet::Response { sequence, .. } => Some(*sequence),
            Packet::Update { .. } => Option::None,
            Packet::UpdateReply { .. } => Option::None,
        }
    }

    fn ack_target(&self) -> (r: Option<u64>) {
        match self {
            Packet::Request { sequence, .. } => Some(*sequence),
            Packet::Response { request_ack, .. } => *request_ack,
            Packet::Update { .. } => Option::None,
            Packet::UpdateReply { .. } => Option::None,
        }
    }
}

impl Sequenced for BroadcastChatMessage {
    /// Chat lines are filed under their broadcast sequence number.
    open spec fn sequence_spec(&self) -> Option<u64> {
        self.chat_seq
    }

    open spec fn ack_spec(&self) -> Option<u64> {
        self.chat_seq
    }

    fn sequence_number(&self) -> (r: Option<u64>) {
        self.chat_seq
    }

    fn ack_target(&self) -> (r: Option<u64>) {
        self.chat_seq
    }
}

impl Clone for BroadcastChatMessage {
    fn clone(&self) -> (r: Self)
        ensures
            r == *self,
    {
        BroadcastChatMessage {
            player_name: self.player_name.clone(),
            message: self.message.clone(),
            chat_seq: self.chat_seq,
        }
    }
}

/// A copy of an optional string, equal to the original.
pub fn clone_opt_string(s: &Option<String>) -> (r: Option<String>)
    ensures
        r == *s,
{
    match s {
        Some(text) => Some(text.clone()),
        Option::None => Option::None,
    }
}

} // verus!
