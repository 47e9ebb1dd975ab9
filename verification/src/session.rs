//! The per-session state machine: sequence counters, cookie, room
//! membership and heartbeat, together with the rules that decide what to
//! send and how to react to every inbound packet or local event.
//!
//! The state is threaded explicitly: each handler takes the session by
//! exclusive borrow, the current time in milliseconds, and one event, and
//! returns what must be put on the wire or shown to the player. All I/O —
//! timers, sockets, the terminal — lives outside the library.

use vstd::prelude::*;

use crate::manager::{
    all_requests, all_responses, stamp_response_ack, NetworkManager, CHAT_HISTORY_LIMIT,
};
use crate::packet::{
    client_version, client_version_spec, clone_opt_string, BroadcastChatMessage, Packet,
    RequestAction, ResponseCode,
};
use crate::input::UserInput;
use crate::queue::{
    contains_sequence, contiguous_len, evicted_base, index_of_sequence, insert_sorted, key_of,
    keyed, sorted_by_sequence, Sequenced,
};

verus! {

/// Milliseconds between keep-alive ticks.
pub const TICK_INTERVAL_MS: u64 = 1000;

/// Milliseconds between retransmission checks.
pub const NETWORK_INTERVAL_MS: u64 = 1000;

/// Milliseconds without any packet from the server after which the
/// connection counts as lost.
pub const CONNECTION_TIMEOUT_MS: u64 = 5000;

/// The connection is considered lost when the last packet of any kind was
/// received at least the timeout ago. A session that has never heard from
/// the server does not time out.
pub open spec fn timed_out_spec(heartbeat: Option<u64>, now: u64) -> bool {
    match heartbeat {
        Some(h) => now >= h + CONNECTION_TIMEOUT_MS,
        None => false,
    }
}

/// See [`timed_out_spec`].
pub fn has_connection_timed_out(heartbeat: Option<u64>, now: u64) -> (r: bool)
    ensures
        r == timed_out_spec(heartbeat, now),
{
    match heartbeat {
        Some(h) => now >= h && now - h >= CONNECTION_TIMEOUT_MS,
        Option::None => false,
    }
}

/// The mathematical image of one session: the plain fields together with
/// the contents of the three queues.
#[verifier::ext_equal]
pub struct SessionV {
    pub sequence: u64,
    pub response_sequence: u64,
    pub name: Option<String>,
    pub room: Option<String>,
    pub cookie: Option<String>,
    pub chat_msg_seq_num: u64,
    pub tick: usize,
    pub heartbeat: Option<u64>,
    pub disconnect_initiated: bool,
    pub tx: Seq<(Packet, u64)>,
    pub rx: Seq<(Packet, u64)>,
    pub chats_enabled: bool,
    pub chats: Seq<(BroadcastChatMessage, u64)>,
}

/// Every buffered response can still be processed: its sequence number is
/// at or above the watermark (older ones were already delivered) and below
/// the final sequence number (so the watermark can move past it).
pub open spec fn rx_processable(rx: Seq<(Packet, u64)>, watermark: u64) -> bool {
    forall|i: int|
        0 <= i < rx.len() ==> watermark <= key_of(#[trigger] rx[i]) && key_of(rx[i]) < u64::MAX
}

/// What every reachable session state satisfies.
pub open spec fn session_inv(s: SessionV) -> bool {
    &&& keyed(s.tx)
    &&& sorted_by_sequence(s.tx)
    &&& all_requests(s.tx)
    &&& keyed(s.rx)
    &&& sorted_by_sequence(s.rx)
    &&& all_responses(s.rx)
    &&& rx_processable(s.rx, s.response_sequence)
    &&& keyed(s.chats)
    &&& sorted_by_sequence(s.chats)
    &&& s.chats_enabled
    &&& (s.room is Some ==> s.cookie is Some)
}

/// The state of a freshly constructed session.
pub open spec fn initial_session() -> SessionV {
    SessionV {
        sequence: 0,
        response_sequence: 0,
        name: None,
        room: None,
        cookie: None,
        chat_msg_seq_num: 0,
        tick: 0,
        heartbeat: None,
        disconnect_initiated: false,
        tx: Seq::empty(),
        rx: Seq::empty(),
        chats_enabled: true,
        chats: Seq::empty(),
    }
}

/// Session teardown: every field back to its initial value, except the
/// player's name and the presence of the chat history, which survive.
pub open spec fn reset_view(s: SessionV) -> SessionV {
    SessionV { name: s.name, chats_enabled: s.chats_enabled, ..initial_session() }
}

/// The request packet one send of `action` puts on the wire: it carries
/// the (possibly incremented) request sequence number, piggybacks the
/// response watermark, and proves the session with the cookie.
pub open spec fn enqueue_request(s: SessionV, action: RequestAction) -> Packet {
    Packet::Request {
        sequence: if s.cookie is Some {
            (s.sequence + 1) as u64
        } else {
            s.sequence
        },
        response_ack: Some(s.response_sequence),
        cookie: s.cookie,
        action,
    }
}

/// How sending `action` changes the session: the sequence counter
/// increments only once authenticated, the request joins the transmit
/// queue to await its acknowledgment, and a disconnect marks the session
/// as winding down. The sentinel `NoAction` changes nothing.
pub open spec fn enqueue_step(s: SessionV, action: RequestAction, now: u64) -> SessionV {
    if action is NoAction {
        s
    } else {
        let p = enqueue_request(s, action);
        SessionV {
            sequence: if s.cookie is Some {
                (s.sequence + 1) as u64
            } else {
                s.sequence
            },
            tx: if contains_sequence(s.tx, p.sequence_spec()->Some_0) {
                s.tx
            } else {
                insert_sorted(s.tx, p, now)
            },
            disconnect_initiated: s.disconnect_initiated || action is Disconnect,
            ..s
        }
    }
}

/// What one send of `action` puts on the wire: nothing for the sentinel.
pub open spec fn enqueue_wire(s: SessionV, action: RequestAction) -> Option<Packet> {
    if action is NoAction {
        None
    } else {
        Some(enqueue_request(s, action))
    }
}

/// What `enqueue` hands back: the packet to transmit, if any, and whether
/// the process should wind down.
pub struct EnqueueOutput {
    pub packet: Option<Packet>,
    pub exit: bool,
}

/// How one server response code moves the session: a login stores the
/// cookie (entering the lobby), joining a room records it — but only on an
/// authenticated session, anything else is a protocol violation and is
/// discarded — leaving a room returns to the lobby and restarts the
/// per-room chat numbering, and a keep-alive only refreshes the heartbeat.
/// Listings and error codes change nothing; they are only reported.
pub open spec fn apply_response_code(s: SessionV, code: ResponseCode, now: u64) -> SessionV {
    match code {
        ResponseCode::OK => s,
        ResponseCode::LoggedIn(cookie, _server_version) => SessionV { cookie: Some(cookie), ..s },
        ResponseCode::LeaveRoom => SessionV { room: None, chat_msg_seq_num: 0, ..s },
        ResponseCode::JoinedRoom(room) => if s.cookie is Some {
            SessionV { room: Some(room), ..s }
        } else {
            s
        },
        ResponseCode::PlayerList(_) => s,
        ResponseCode::RoomList(_) => s,
        ResponseCode::KeepAlive => SessionV { heartbeat: Some(now), ..s },
        ResponseCode::BadRequest(_) => s,
        ResponseCode::Unauthorized(_) => s,
        ResponseCode::ServerError(_) => s,
    }
}

/// Every code except the routine `OK` and `KeepAlive` is mirrored to the
/// player-facing layer.
pub open spec fn is_notifiable(code: ResponseCode) -> bool {
    !(code is OK) && !(code is KeepAlive)
}

/// A login whose server version differs from this client's version draws
/// a one-way-incompatibility warning (it does not block the connection).
pub open spec fn warns_version(code: ResponseCode) -> bool {
    code matches ResponseCode::LoggedIn(_, server_version) && server_version@
        != client_version_spec()
}

/// What processing one response code hands back: the code to mirror to the
/// player-facing layer, if any, and whether a version warning is due.
pub struct CodeEffect {
    pub notification: Option<ResponseCode>,
    pub version_mismatch: bool,
}

/// The response code a buffered packet carries. Only response packets are
/// ever buffered in the receive queue, so the other shapes do not occur.
pub open spec fn response_code_of(p: Packet) -> ResponseCode {
    match p {
        Packet::Response { code, .. } => code,
        _ => vstd::pervasive::arbitrary(),
    }
}

/// How many buffered responses can be delivered right now: the contiguous
/// run starting exactly at the response watermark.
pub open spec fn drain_count(s: SessionV) -> nat {
    contiguous_len(s.rx, s.response_sequence as int)
}

/// The response codes that one drain delivers, in watermark order.
pub open spec fn drained_codes(s: SessionV) -> Seq<ResponseCode> {
    Seq::new(drain_count(s) as nat, |i: int| response_code_of(s.rx[i].0))
}

/// A sequence of response codes applied in order.
pub open spec fn apply_response_codes(s: SessionV, codes: Seq<ResponseCode>, now: u64) -> SessionV
    decreases codes.len(),
{
    if codes.len() == 0 {
        s
    } else {
        apply_response_codes(apply_response_code(s, codes[0], now), codes.drop_first(), now)
    }
}

/// One drain of the receive queue: the contiguous prefix at the watermark
/// leaves the queue, the watermark advances by exactly its length (one per
/// delivered response, never past a gap), and each delivered code moves
/// the session in order.
pub open spec fn after_drain(s: SessionV, now: u64) -> SessionV {
    let k = drain_count(s);
    apply_response_codes(
        SessionV {
            response_sequence: (s.response_sequence + k) as u64,
            rx: s.rx.skip(k as int),
            ..s
        },
        drained_codes(s),
        now,
    )
}

/// The codes a drain mirrors to the player-facing layer, in delivery
/// order: everything but the routine `OK` and `KeepAlive`.
pub open spec fn notifications_of(codes: Seq<ResponseCode>) -> Seq<ResponseCode>
    decreases codes.len(),
{
    if codes.len() == 0 {
        Seq::empty()
    } else {
        notifications_of(codes.drop_last()) + if is_notifiable(codes.last()) {
            seq![codes.last()]
        } else {
            Seq::empty()
        }
    }
}

/// Whether any delivered login carried a mismatched server version.
pub open spec fn any_version_warning(codes: Seq<ResponseCode>) -> bool
    decreases codes.len(),
{
    if codes.len() == 0 {
        false
    } else {
        any_version_warning(codes.drop_last()) || warns_version(codes.last())
    }
}

/// Applying a response code never touches the receive queue or the
/// watermark, so those fields can be swapped out around it.
pub proof fn lemma_apply_code_frame(
    s: SessionV,
    rx: Seq<(Packet, u64)>,
    w: u64,
    code: ResponseCode,
    now: u64,
)
    ensures
        apply_response_code((SessionV { rx, response_sequence: w, ..s }), code, now) == (SessionV {
            rx,
            response_sequence: w,
            ..apply_response_code(s, code, now)
        }),
{
    match code {
        ResponseCode::OK => {
            assert(apply_response_code(SessionV { rx, response_sequence: w, ..s }, code, now)
                =~= SessionV { rx, response_sequence: w, ..apply_response_code(s, code, now) });
        },
        ResponseCode::LoggedIn(_, _) => {
            assert(apply_response_code(SessionV { rx, response_sequence: w, ..s }, code, now)
                =~= SessionV { rx, response_sequence: w, ..apply_response_code(s, code, now) });
        },
        ResponseCode::LeaveRoom => {
            assert(apply_response_code(SessionV { rx, response_sequence: w, ..s }, code, now)
                =~= SessionV { rx, response_sequence: w, ..apply_response_code(s, code, now) });
        },
        ResponseCode::JoinedRoom(_) => {
            assert(apply_response_code(SessionV { rx, response_sequence: w, ..s }, code, now)
                =~= SessionV { rx, response_sequence: w, ..apply_response_code(s, code, now) });
        },
        ResponseCode::PlayerList(_) => {
            assert(apply_response_code(SessionV { rx, response_sequence: w, ..s }, code, now)
                =~= SessionV { rx, response_sequence: w, ..apply_response_code(s, code, now) });
        },
        ResponseCode::RoomList(_) => {
            assert(apply_response_code(SessionV { rx, response_sequence: w, ..s }, code, now)
                =~= SessionV { rx, response_sequence: w, ..apply_response_code(s, code, now) });
        },
        ResponseCode::KeepAlive => {
            assert(apply_response_code(SessionV { rx, response_sequence: w, ..s }, code, now)
                =~= SessionV { rx, response_sequence: w, ..apply_response_code(s, code, now) });
        },
        ResponseCode::BadRequest(_) => {
            assert(apply_response_code(SessionV { rx, response_sequence: w, ..s }, code, now)
                =~= SessionV { rx, response_sequence: w, ..apply_response_code(s, code, now) });
        },
        ResponseCode::Unauthorized(_) => {
            assert(apply_response_code(SessionV { rx, response_sequence: w, ..s }, code, now)
                =~= SessionV { rx, response_sequence: w, ..apply_response_code(s, code, now) });
        },
        ResponseCode::ServerError(_) => {
            assert(apply_response_code(SessionV { rx, response_sequence: w, ..s }, code, now)
                =~= SessionV { rx, response_sequence: w, ..apply_response_code(s, code, now) });
        },
    }
}

/// Appending one code to a fold applies it last.
pub proof fn lemma_apply_codes_snoc(s: SessionV, codes: Seq<ResponseCode>, c: ResponseCode, now: u64)
    ensures
        apply_response_codes(s, codes.push(c), now) == apply_response_code(
            apply_response_codes(s, codes, now),
            c,
            now,
        ),
    decreases codes.len(),
{
    let cs = codes.push(c);
    assert(cs.len() == codes.len() + 1);
    if codes.len() == 0 {
        assert(cs[0] == c);
        assert(cs.drop_first() =~= Seq::<ResponseCode>::empty());
        assert(apply_response_codes(s, cs, now) == apply_response_codes(
            apply_response_code(s, cs[0], now),
            cs.drop_first(),
            now,
        ));
        assert(apply_response_codes(apply_response_code(s, c, now), cs.drop_first(), now)
            == apply_response_code(s, c, now));
        assert(apply_response_codes(s, codes, now) == s);
    } else {
        assert(cs[0] == codes[0]);
        assert(cs.drop_first() =~= codes.drop_first().push(c));
        lemma_apply_codes_snoc(apply_response_code(s, codes[0], now), codes.drop_first(), c, now);
        assert(apply_response_codes(s, cs, now) == apply_response_codes(
            apply_response_code(s, cs[0], now),
            cs.drop_first(),
            now,
        ));
        assert(apply_response_codes(s, codes, now) == apply_response_codes(
            apply_response_code(s, codes[0], now),
            codes.drop_first(),
            now,
        ));
    }
}

/// Applying a whole sequence of response codes never touches the receive
/// queue or the watermark either.
pub proof fn lemma_apply_codes_frame(
    s: SessionV,
    rx: Seq<(Packet, u64)>,
    w: u64,
    codes: Seq<ResponseCode>,
    now: u64,
)
    ensures
        apply_response_codes((SessionV { rx, response_sequence: w, ..s }), codes, now)
            == (SessionV { rx, response_sequence: w, ..apply_response_codes(s, codes, now) }),
    decreases codes.len(),
{
    if codes.len() == 0 {
    } else {
        lemma_apply_code_frame(s, rx, w, codes[0], now);
        lemma_apply_codes_frame(
            apply_response_code(s, codes[0], now),
            rx,
            w,
            codes.drop_first(),
            now,
        );
    }
}

/// Whether and how one received response enters the receive queue. Every
/// packet refreshes the heartbeat. A keep-alive does no more. Any other
/// response is accepted only if it is not stale (its sequence number is at
/// or above the watermark, and below the largest one the watermark can
/// move past) and it acknowledges a request still awaiting its answer —
/// that request then leaves the transmit queue. An unmatched response is
/// treated as already acknowledged and dropped; a response whose sequence
/// number is already buffered is a duplicate and dropped.
pub open spec fn response_accept(s: SessionV, p: Packet, now: u64) -> SessionV
    recommends
        p is Response,
{
    let s1 = SessionV { heartbeat: Some(now), ..s };
    match p {
        Packet::Response { sequence, request_ack, code } => {
            if code is KeepAlive {
                s1
            } else if s.response_sequence <= sequence && sequence < u64::MAX {
                match request_ack {
                    Some(a) => {
                        if contains_sequence(s.tx, a) {
                            let s2 = SessionV {
                                tx: s.tx.remove(index_of_sequence(s.tx, a)),
                                ..s1
                            };
                            if contains_sequence(s2.rx, sequence) {
                                s2
                            } else {
                                SessionV { rx: insert_sorted(s2.rx, p, now), ..s2 }
                            }
                        } else {
                            s1
                        }
                    },
                    None => s1,
                }
            } else {
                s1
            }
        },
        _ => s1,
    }
}

/// A received response is worth buffering — and so triggers a delivery
/// attempt — when it is neither a keep-alive nor stale.
pub open spec fn response_triggers_drain(s: SessionV, p: Packet) -> bool {
    match p {
        Packet::Response { sequence, request_ack: _, code } => !(code is KeepAlive)
            && s.response_sequence <= sequence && sequence < u64::MAX,
        _ => false,
    }
}

/// How one received response moves the whole session: it is accepted (or
/// dropped) as [`response_accept`] says, and when it was worth buffering —
/// not a keep-alive, not stale — the newly contiguous run is delivered at
/// once.
pub open spec fn incoming_response_step(s: SessionV, p: Packet, now: u64) -> SessionV
    recommends
        p is Response,
{
    if response_triggers_drain(s, p) {
        after_drain(response_accept(s, p, now), now)
    } else {
        response_accept(s, p, now)
    }
}

/// A chat line survives the staleness filter when its sequence number is
/// above the watermark the update was received at.
pub open spec fn is_fresh(c: BroadcastChatMessage, watermark: u64) -> bool {
    c.chat_seq matches Some(q) && q > watermark
}

/// The chat lines of one update that survive the staleness filter, in
/// arrival order (the batch is not reordered).
pub open spec fn fresh_chats(chats: Seq<BroadcastChatMessage>, watermark: u64) -> Seq<
    BroadcastChatMessage,
>
    decreases chats.len(),
{
    if chats.len() == 0 {
        Seq::empty()
    } else {
        fresh_chats(chats.drop_last(), watermark) + if is_fresh(chats.last(), watermark) {
            seq![chats.last()]
        } else {
            Seq::empty()
        }
    }
}

/// One surviving chat line: the chat watermark rises to its sequence
/// number, and the line joins the bounded history unless its sequence
/// number is already held.
pub open spec fn apply_chat(s: SessionV, c: BroadcastChatMessage, now: u64) -> SessionV {
    let q = c.chat_seq->Some_0;
    SessionV {
        chat_msg_seq_num: if q > s.chat_msg_seq_num {
            q
        } else {
            s.chat_msg_seq_num
        },
        chats: if contains_sequence(s.chats, q) {
            s.chats
        } else {
            insert_sorted(evicted_base(s.chats, Some(CHAT_HISTORY_LIMIT)), c, now)
        },
        ..s
    }
}

/// The surviving chat lines of one update, applied in arrival order.
pub open spec fn apply_chats(s: SessionV, list: Seq<BroadcastChatMessage>, now: u64) -> SessionV
    decreases list.len(),
{
    if list.len() == 0 {
        s
    } else {
        apply_chats(apply_chat(s, list[0], now), list.drop_first(), now)
    }
}

/// The survivors that are shown to the player: everything not sent by the
/// player themselves.
pub open spec fn surfaced_of(list: Seq<BroadcastChatMessage>, name: Seq<char>) -> Seq<
    BroadcastChatMessage,
>
    decreases list.len(),
{
    if list.len() == 0 {
        Seq::empty()
    } else {
        surfaced_of(list.drop_last(), name) + if list.last().player_name@ != name {
            seq![list.last()]
        } else {
            Seq::empty()
        }
    }
}

/// How one `Update` packet moves the session: the heartbeat refreshes, and
/// the piggybacked chat list — filtered against the chat watermark at
/// arrival — is merged into the history.
pub open spec fn update_step(s: SessionV, p: Packet, now: u64) -> SessionV
    recommends
        p is Update,
{
    let s1 = SessionV { heartbeat: Some(now), ..s };
    match p {
        Packet::Update { chats, .. } => match chats {
            Some(list) => apply_chats(s1, fresh_chats(list@, s.chat_msg_seq_num), now),
            None => s1,
        },
        _ => s1,
    }
}

/// The unconditional echo to an `Update`: it acknowledges the chat
/// watermark reached after the merge.
pub open spec fn update_reply_packet(s_after: SessionV) -> Packet {
    Packet::UpdateReply {
        cookie: s_after.cookie->Some_0,
        last_chat_seq: Some(s_after.chat_msg_seq_num),
        last_game_update_seq: None,
        last_gen: None,
    }
}

/// Every chat line of an update carries a sequence number (the server
/// numbers them before broadcasting).
pub open spec fn update_chats_keyed(p: Packet) -> bool {
    match p {
        Packet::Update { chats: Some(list), .. } => forall|i: int|
            0 <= i < list@.len() ==> (#[trigger] list@[i]).chat_seq is Some,
        _ => true,
    }
}

/// Merging chat lines touches only the chat watermark — which never goes
/// down — and the chat history; every other field is untouched.
pub proof fn lemma_apply_chats_fields(s: SessionV, list: Seq<BroadcastChatMessage>, now: u64)
    ensures
        ({
            let r = apply_chats(s, list, now);
            &&& r.sequence == s.sequence
            &&& r.response_sequence == s.response_sequence
            &&& r.name == s.name
            &&& r.room == s.room
            &&& r.cookie == s.cookie
            &&& r.tick == s.tick
            &&& r.heartbeat == s.heartbeat
            &&& r.disconnect_initiated == s.disconnect_initiated
            &&& r.tx == s.tx
            &&& r.rx == s.rx
            &&& r.chats_enabled == s.chats_enabled
            &&& r.chat_msg_seq_num >= s.chat_msg_seq_num
        }),
    decreases list.len(),
{
    if list.len() > 0 {
        lemma_apply_chats_fields(apply_chat(s, list[0], now), list.drop_first(), now);
    }
}

/// Appending one survivor to the merge applies it last.
pub proof fn lemma_apply_chats_snoc(
    s: SessionV,
    list: Seq<BroadcastChatMessage>,
    c: BroadcastChatMessage,
    now: u64,
)
    ensures
        apply_chats(s, list.push(c), now) == apply_chat(apply_chats(s, list, now), c, now),
    decreases list.len(),
{
    let l2 = list.push(c);
    assert(l2.len() == list.len() + 1);
    if list.len() == 0 {
        assert(l2[0] == c);
        assert(l2.drop_first() =~= Seq::<BroadcastChatMessage>::empty());
        assert(apply_chats(s, l2, now) == apply_chats(apply_chat(s, l2[0], now), l2.drop_first(), now));
        assert(apply_chats(s, list, now) == s);
    } else {
        assert(l2[0] == list[0]);
        assert(l2.drop_first() =~= list.drop_first().push(c));
        lemma_apply_chats_snoc(apply_chat(s, list[0], now), list.drop_first(), c, now);
        assert(apply_chats(s, l2, now) == apply_chats(apply_chat(s, l2[0], now), l2.drop_first(), now));
        assert(apply_chats(s, list, now) == apply_chats(apply_chat(s, list[0], now), list.drop_first(), now));
    }
}

/// Every survivor of the staleness filter carries a sequence number above
/// the watermark.
pub proof fn lemma_fresh_chats_elements(chats: Seq<BroadcastChatMessage>, watermark: u64)
    ensures
        forall|i: int|
            0 <= i < fresh_chats(chats, watermark).len() ==> is_fresh(
                #[trigger] fresh_chats(chats, watermark)[i],
                watermark,
            ),
    decreases chats.len(),
{
    if chats.len() > 0 {
        let t = chats.drop_last();
        lemma_fresh_chats_elements(t, watermark);
        let f = fresh_chats(chats, watermark);
        let ft = fresh_chats(t, watermark);
        assert forall|i: int| 0 <= i < f.len() implies is_fresh(#[trigger] f[i], watermark) by {
            if i < ft.len() {
                assert(is_fresh(fresh_chats(t, watermark)[i], watermark));
                assert(f[i] == ft[i]);
            } else {
                assert(f[i] == chats.last());
            }
        }
    }
}

/// Applying one response code touches only the cookie, the room, the chat
/// watermark and the heartbeat; everything else is untouched.
pub proof fn lemma_apply_code_fields(s: SessionV, code: ResponseCode, now: u64)
    ensures
        ({
            let r = apply_response_code(s, code, now);
            &&& r.sequence == s.sequence
            &&& r.response_sequence == s.response_sequence
            &&& r.name == s.name
            &&& r.tick == s.tick
            &&& r.disconnect_initiated == s.disconnect_initiated
            &&& r.tx == s.tx
            &&& r.rx == s.rx
            &&& r.chats == s.chats
            &&& r.chats_enabled == s.chats_enabled
        }),
{
}

/// Applying a sequence of response codes preserves the same fields.
pub proof fn lemma_apply_codes_fields(s: SessionV, codes: Seq<ResponseCode>, now: u64)
    ensures
        ({
            let r = apply_response_codes(s, codes, now);
            &&& r.sequence == s.sequence
            &&& r.response_sequence == s.response_sequence
            &&& r.name == s.name
            &&& r.tick == s.tick
            &&& r.disconnect_initiated == s.disconnect_initiated
            &&& r.tx == s.tx
            &&& r.rx == s.rx
            &&& r.chats == s.chats
            &&& r.chats_enabled == s.chats_enabled
        }),
    decreases codes.len(),
{
    if codes.len() > 0 {
        lemma_apply_code_fields(s, codes[0], now);
        lemma_apply_codes_fields(apply_response_code(s, codes[0], now), codes.drop_first(), now);
    }
}

/// The next tick count, wrapping at the top.
pub open spec fn tick_wrap(t: usize) -> usize {
    if t == usize::MAX {
        0
    } else {
        (t + 1) as usize
    }
}

/// The keep-alive heartbeat an authenticated session sends each tick; it
/// is fire-and-forget and never buffered for retransmission.
pub open spec fn keep_alive_packet(s: SessionV) -> Packet {
    Packet::Request {
        sequence: s.sequence,
        response_ack: None,
        cookie: s.cookie,
        action: RequestAction::KeepAlive(s.response_sequence),
    }
}

/// How one tick moves the session: an authenticated session that has timed
/// out, or whose player asked to disconnect, is torn down; any session
/// counts the tick.
pub open spec fn tick_step(s: SessionV, now: u64) -> SessionV {
    if s.cookie is Some && (timed_out_spec(s.heartbeat, now) || s.disconnect_initiated) {
        let r = reset_view(s);
        SessionV { tick: tick_wrap(r.tick), ..r }
    } else {
        SessionV { tick: tick_wrap(s.tick), ..s }
    }
}

/// What one tick puts on the wire: a keep-alive, only while the session is
/// authenticated and alive.
pub open spec fn tick_wire(s: SessionV, now: u64) -> Option<Packet> {
    if s.cookie is Some && !timed_out_spec(s.heartbeat, now) && !s.disconnect_initiated {
        Some(keep_alive_packet(s))
    } else {
        None
    }
}

/// The transmit queue after a retransmission pass: every entry past its
/// deadline is restamped with the acknowledgment `ack` and the time `now`;
/// its request — same sequence number — goes back on the wire.
pub open spec fn retransmit_stamped(tx: Seq<(Packet, u64)>, ack: Option<u64>, now: u64) -> Seq<
    (Packet, u64),
> {
    Seq::new(
        tx.len(),
        |i: int|
            if crate::queue::stamp_expired(tx[i].1, now) {
                (stamp_response_ack(tx[i].0, ack), now)
            } else {
                tx[i]
            },
    )
}

/// How one retransmission check moves an authenticated session: first the
/// newly contiguous responses are delivered, then every transmit-queue
/// entry past its deadline is re-sent with the current watermark as its
/// piggybacked acknowledgment. An unauthenticated session does nothing.
pub open spec fn network_step(s: SessionV, now: u64) -> SessionV {
    if s.cookie is Some {
        let s1 = after_drain(s, now);
        SessionV { tx: retransmit_stamped(s1.tx, Some(s1.response_sequence), now), ..s1 }
    } else {
        s
    }
}

/// The chat lines one update shows to the player: the fresh ones not sent
/// by the player themselves.
pub open spec fn update_shown(s: SessionV, p: Packet) -> Seq<BroadcastChatMessage> {
    match p {
        Packet::Update { chats: Some(list), .. } => surfaced_of(
            fresh_chats(list@, s.chat_msg_seq_num),
            s.name->Some_0@,
        ),
        _ => Seq::empty(),
    }
}

/// What one slash command produces: at most one request action, a local
/// error message when the command was malformed or impossible in the
/// current state, and whether the help text or the queue statistics should
/// be shown. A rejected command never reaches the network.
pub struct CommandResult {
    pub action: RequestAction,
    pub error: Option<String>,
    pub show_help: bool,
    pub show_stats: bool,
}

/// The full command table: how one slash command `cmd` with `args`, read
/// in session state `s`, yields the state `s2` and the result `r`. Each
/// command demands its exact argument count; `connect` records the chosen
/// player name; `list` asks for players inside a room and for rooms in the
/// lobby; `join` is refused while in a room and `leave`/`part` are refused
/// in the lobby; `quit` disconnects; anything else is unknown and refused.
pub open spec fn command_spec(
    s: SessionV,
    cmd: Seq<char>,
    args: Seq<String>,
    s2: SessionV,
    r: CommandResult,
) -> bool {
    if cmd == "help"@ {
        &&& s2 == s
        &&& r.action is NoAction
        &&& r.error is None
        &&& r.show_help
        &&& !r.show_stats
    } else if cmd == "stats"@ {
        &&& s2 == s
        &&& r.action is NoAction
        &&& r.error is None
        &&& !r.show_help
        &&& r.show_stats
    } else if cmd == "connect"@ {
        if args.len() == 1 {
            &&& s2 == (SessionV { name: Some(args[0]), ..s })
            &&& (r.action matches RequestAction::Connect { name, client_version } && name
                == args[0] && client_version@ == client_version_spec())
            &&& r.error is None
            &&& !r.show_help
            &&& !r.show_stats
        } else {
            command_rejected(s, s2, r)
        }
    } else if cmd == "disconnect"@ {
        if args.len() == 0 {
            command_accepted(s, s2, r) && r.action is Disconnect
        } else {
            command_rejected(s, s2, r)
        }
    } else if cmd == "list"@ {
        if args.len() == 0 {
            command_accepted(s, s2, r) && if s.room is Some {
                r.action is ListPlayers
            } else {
                r.action is ListRooms
            }
        } else {
            command_rejected(s, s2, r)
        }
    } else if cmd == "new"@ {
        if args.len() == 1 {
            command_accepted(s, s2, r) && r.action == RequestAction::NewRoom(args[0])
        } else {
            command_rejected(s, s2, r)
        }
    } else if cmd == "join"@ {
        if args.len() == 1 {
            if s.room is None {
                command_accepted(s, s2, r) && r.action == RequestAction::JoinRoom(args[0])
            } else {
                command_rejected(s, s2, r)
            }
        } else {
            command_rejected(s, s2, r)
        }
    } else if cmd == "part"@ || cmd == "leave"@ {
        if args.len() == 0 {
            if s.room is Some {
                command_accepted(s, s2, r) && r.action is LeaveRoom
            } else {
                command_rejected(s, s2, r)
            }
        } else {
            command_rejected(s, s2, r)
        }
    } else if cmd == "quit"@ {
        command_accepted(s, s2, r) && r.action is Disconnect
    } else {
        command_rejected(s, s2, r)
    }
}

/// A command that produced an action: the state is untouched and nothing
/// local is reported.
pub open spec fn command_accepted(s: SessionV, s2: SessionV, r: CommandResult) -> bool {
    &&& s2 == s
    &&& r.error is None
    &&& !r.show_help
    &&& !r.show_stats
}

/// A command that was refused: the state is untouched, no action is
/// produced, and a local error is reported.
pub open spec fn command_rejected(s: SessionV, s2: SessionV, r: CommandResult) -> bool {
    &&& s2 == s
    &&& r.action is NoAction
    &&& r.error is Some
    &&& !r.show_help
    &&& !r.show_stats
}

/// Every command leaves the session core alone: only the player's name can
/// change, and only on a well-formed `connect`.
pub proof fn lemma_command_keeps_core(
    s: SessionV,
    cmd: Seq<char>,
    args: Seq<String>,
    s2: SessionV,
    r: CommandResult,
)
    requires
        command_spec(s, cmd, args, s2, r),
    ensures
        s2.sequence == s.sequence,
        s2.response_sequence == s.response_sequence,
        s2.room == s.room,
        s2.cookie == s.cookie,
        s2.chat_msg_seq_num == s.chat_msg_seq_num,
        s2.tick == s.tick,
        s2.heartbeat == s.heartbeat,
        s2.disconnect_initiated == s.disconnect_initiated,
        s2.tx == s.tx,
        s2.rx == s.rx,
        s2.chats_enabled == s.chats_enabled,
        s2.chats == s.chats,
{
}

/// One source of events for the session: the periodic tick, the periodic
/// retransmission check, a packet from the wire, a line the player typed,
/// or a request the game layer makes directly.
pub enum Event {
    TickEvent,
    UserInputEvent(UserInput),
    Incoming(Packet),
    NetworkEvent,
    ConwaysteEvent(RequestAction),
}

/// Everything one handled event asks of the surrounding loop: packets to
/// put on the wire, response codes and chat lines to show to the player,
/// whether a version warning is due, a local error message for a rejected
/// command, and whether the process should wind down.
pub struct StepOutput {
    pub to_send: Vec<Packet>,
    pub notifications: Vec<ResponseCode>,
    pub chat_messages: Vec<BroadcastChatMessage>,
    pub version_mismatch: bool,
    pub local_error: Option<String>,
    pub show_help: bool,
    pub show_stats: bool,
    pub exit: bool,
}

impl StepOutput {
    /// An output that asks nothing of the loop.
    fn quiet() -> (out: Self)
        ensures
            out.to_send@ == Seq::<Packet>::empty(),
            out.notifications@ == Seq::<ResponseCode>::empty(),
            out.chat_messages@ == Seq::<BroadcastChatMessage>::empty(),
            !out.version_mismatch,
            out.local_error is None,
            !out.show_help,
            !out.show_stats,
            !out.exit,
    {
        StepOutput {
            to_send: Vec::new(),
            notifications: Vec::new(),
            chat_messages: Vec::new(),
            version_mismatch: false,
            local_error: Option::None,
            show_help: false,
            show_stats: false,
            exit: false,
        }
    }
}

/// Whether `cmd` is the command word `word`.
fn is_cmd(cmd: &String, word: &str) -> (r: bool)
    ensures
        r == (cmd@ == word@),
{
    *cmd == word.to_owned()
}

/// A refused command: no action, a local error message.
fn rejected(message: &str) -> (r: CommandResult)
    ensures
        r.action is NoAction,
        r.error is Some,
        !r.show_help,
        !r.show_stats,
{
    CommandResult {
        action: RequestAction::NoAction,
        error: Some(message.to_owned()),
        show_help: false,
        show_stats: false,
    }
}

/// An accepted command carrying `action`.
fn accepted(action: RequestAction) -> (r: CommandResult)
    ensures
        r.action == action,
        r.error is None,
        !r.show_help,
        !r.show_stats,
{
    CommandResult { action, error: Option::None, show_help: false, show_stats: false }
}

/// What one drain hands back: the codes to mirror to the player-facing
/// layer, in delivery order, and whether a version warning is due.
pub struct DrainEffect {
    pub notifications: Vec<ResponseCode>,
    pub version_mismatch: bool,
}

/// The client half of the session protocol.
pub struct ClientNetState {
    /// Sequence number of the next (or current) outbound request;
    /// increments only once a cookie exists.
    pub sequence: u64,
    /// The response watermark: the sequence number of the next server
    /// response to be processed.
    pub response_sequence: u64,
    /// The player's name, set by a connect command.
    pub name: Option<String>,
    /// The joined room; absent while in the lobby.
    pub room: Option<String>,
    /// The server-issued session token; absent until logged in.
    pub cookie: Option<String>,
    /// The highest chat sequence number delivered so far.
    pub chat_msg_seq_num: u64,
    /// How many tick events this session has seen.
    pub tick: usize,
    /// The reliability queues.
    pub network: NetworkManager,
    /// When the last packet of any kind was received.
    pub heartbeat: Option<u64>,
    /// Whether the player asked to disconnect and the session is winding
    /// down.
    pub disconnect_initiated: bool,
}

impl View for ClientNetState {
    type V = SessionV;

    open spec fn view(&self) -> SessionV {
        SessionV {
            sequence: self.sequence,
            response_sequence: self.response_sequence,
            name: self.name,
            room: self.room,
            cookie: self.cookie,
            chat_msg_seq_num: self.chat_msg_seq_num,
            tick: self.tick,
            heartbeat: self.heartbeat,
            disconnect_initiated: self.disconnect_initiated,
            tx: self.network.tx_packets@,
            rx: self.network.rx_packets@,
            chats_enabled: self.network.rx_chat_messages is Some,
            chats: match self.network.rx_chat_messages {
                Some(q) => q@,
                None => Seq::empty(),
            },
        }
    }
}

impl ClientNetState {
    /// The executable state is well formed: the queues satisfy their own
    /// invariants and the session view satisfies [`session_inv`].
    pub open spec fn wf(&self) -> bool {
        &&& self.network.inv()
        &&& session_inv(self@)
    }

    /// A fresh session: not authenticated, in no room, with empty queues
    /// and a chat history attached.
    pub fn new() -> (s: Self)
        ensures
            s.wf(),
            s@ == initial_session(),
    {
        let s = ClientNetState {
            sequence: 0,
            response_sequence: 0,
            name: Option::None,
            room: Option::None,
            cookie: Option::None,
            chat_msg_seq_num: 0,
            tick: 0,
            network: NetworkManager::new().with_message_buffering(),
            heartbeat: Option::None,
            disconnect_initiated: false,
        };
        proof {
            assert(s@ =~= initial_session());
        }
        s
    }

    /// The player is in a room (not in the lobby).
    pub fn in_game(&self) -> (r: bool)
        ensures
            r == (self@.room is Some),
    {
        self.room.is_some()
    }

    /// The shared send path: refuse the sentinel, increment the sequence
    /// counter when authenticated, buffer the request for
    /// acknowledgment-driven retransmission, and hand back the packet to
    /// transmit. A disconnect additionally marks the session as winding
    /// down and asks the caller to exit.
    pub fn enqueue(&mut self, now: u64, action: RequestAction) -> (out: EnqueueOutput)
        requires
            old(self).wf(),
            old(self)@.cookie is Some ==> old(self)@.sequence < u64::MAX,
        ensures
            final(self).wf(),
            final(self)@ == enqueue_step(old(self)@, action, now),
            out.packet == enqueue_wire(old(self)@, action),
            out.exit == (action is Disconnect),
    {
        if matches!(action, RequestAction::NoAction) {
            return EnqueueOutput { packet: Option::None, exit: false };
        }
        if self.cookie.is_some() {
            self.sequence = self.sequence + 1;
        }
        let is_disconnect = matches!(action, RequestAction::Disconnect);
        let queue_copy = Packet::Request {
            sequence: self.sequence,
            response_ack: Some(self.response_sequence),
            cookie: clone_opt_string(&self.cookie),
            action: action.clone(),
        };
        let wire_copy = Packet::Request {
            sequence: self.sequence,
            response_ack: Some(self.response_sequence),
            cookie: clone_opt_string(&self.cookie),
            action,
        };
        let ghost p = enqueue_request(old(self)@, action);
        proof {
            assert(queue_copy == p);
            assert(wire_copy == p);
        }
        self.network.tx_packets.buffer_item(queue_copy, now);
        if is_disconnect {
            self.disconnect_initiated = true;
        }
        proof {
            let s0 = old(self)@;
            let k = p.sequence_spec()->Some_0;
            if !contains_sequence(s0.tx, k) {
                crate::queue::lemma_insert_sorted_elements(s0.tx, p, now);
                let tx1 = insert_sorted(s0.tx, p, now);
                assert forall|i: int| 0 <= i < tx1.len() implies (#[trigger] tx1[i]).0
                    is Request by {
                    if tx1[i] == (p, now) {
                    } else {
                        assert(s0.tx.contains(tx1[i]));
                        let w = choose|w: int| 0 <= w < s0.tx.len() && s0.tx[w] == tx1[i];
                        assert(s0.tx[w].0 is Request);
                    }
                }
            }
            assert(final(self)@ =~= enqueue_step(old(self)@, action, now));
        }
        EnqueueOutput { packet: Some(wire_copy), exit: is_disconnect }
    }

    /// Whether the server's version differs from this client's.
    pub fn check_for_upgrade(&self, server_version: &String) -> (mismatch: bool)
        ensures
            mismatch == (server_version@ != client_version_spec()),
    {
        let local = client_version();
        !(*server_version == local)
    }

    /// Dispatch one server response code: move the session as
    /// [`apply_response_code`] says, and report what must be mirrored to
    /// the player-facing layer.
    pub fn process_event_code(&mut self, now: u64, code: ResponseCode) -> (eff: CodeEffect)
        requires
            old(self).wf(),
        ensures
            final(self).wf(),
            final(self)@ == apply_response_code(old(self)@, code, now),
            eff.notification == if is_notifiable(code) {
                Some(code)
            } else {
                None::<ResponseCode>
            },
            eff.version_mismatch == warns_version(code),
    {
        match code {
            ResponseCode::OK => {
                proof {
                    assert(final(self)@ =~= apply_response_code(old(self)@, code, now));
                }
                CodeEffect { notification: Option::None, version_mismatch: false }
            },
            ResponseCode::LoggedIn(cookie, server_version) => {
                let mismatch = self.check_for_upgrade(&server_version);
                self.cookie = Some(cookie.clone());
                proof {
                    assert(final(self)@ =~= apply_response_code(old(self)@, code, now));
                }
                CodeEffect {
                    notification: Some(ResponseCode::LoggedIn(cookie, server_version)),
                    version_mismatch: mismatch,
                }
            },
            ResponseCode::LeaveRoom => {
                self.room = Option::None;
                self.chat_msg_seq_num = 0;
                proof {
                    assert(final(self)@ =~= apply_response_code(old(self)@, code, now));
                }
                CodeEffect {
                    notification: Some(ResponseCode::LeaveRoom),
                    version_mismatch: false,
                }
            },
            ResponseCode::JoinedRoom(room_name) => {
                if self.cookie.is_some() {
                    self.room = Some(room_name.clone());
                }
                proof {
                    assert(final(self)@ =~= apply_response_code(old(self)@, code, now));
                }
                CodeEffect {
                    notification: Some(ResponseCode::JoinedRoom(room_name)),
                    version_mismatch: false,
                }
            },
            ResponseCode::PlayerList(player_names) => {
                proof {
                    assert(final(self)@ =~= apply_response_code(old(self)@, code, now));
                }
                CodeEffect {
                    notification: Some(ResponseCode::PlayerList(player_names)),
                    version_mismatch: false,
                }
            },
            ResponseCode::RoomList(rooms) => {
                proof {
                    assert(final(self)@ =~= apply_response_code(old(self)@, code, now));
                }
                CodeEffect {
                    notification: Some(ResponseCode::RoomList(rooms)),
                    version_mismatch: false,
                }
            },
            ResponseCode::KeepAlive => {
                self.heartbeat = Some(now);
                proof {
                    assert(final(self)@ =~= apply_response_code(old(self)@, code, now));
                }
                CodeEffect { notification: Option::None, version_mismatch: false }
            },
            ResponseCode::BadRequest(message) => {
                proof {
                    assert(final(self)@ =~= apply_response_code(old(self)@, code, now));
                }
                CodeEffect {
                    notification: Some(ResponseCode::BadRequest(message)),
                    version_mismatch: false,
                }
            },
            ResponseCode::Unauthorized(message) => {
                proof {
                    assert(final(self)@ =~= apply_response_code(old(self)@, code, now));
                }
                CodeEffect {
                    notification: Some(ResponseCode::Unauthorized(message)),
                    version_mismatch: false,
                }
            },
            ResponseCode::ServerError(message) => {
                proof {
                    assert(final(self)@ =~= apply_response_code(old(self)@, code, now));
                }
                CodeEffect {
                    notification: Some(ResponseCode::ServerError(message)),
                    version_mismatch: false,
                }
            },
        }
    }

    /// Deliver every buffered response that is processable right now: the
    /// contiguous run starting at the response watermark leaves the queue
    /// in order, the watermark advances by exactly one per delivered
    /// response — never past a gap — and each code is dispatched through
    /// [`Self::process_event_code`]. Out-of-order arrivals beyond the
    /// first gap stay buffered until the missing response arrives.
    pub fn process_queued_server_responses(&mut self, now: u64) -> (eff: DrainEffect)
        requires
            old(self).wf(),
        ensures
            final(self).wf(),
            final(self)@ == after_drain(old(self)@, now),
            eff.notifications@ == notifications_of(drained_codes(old(self)@)),
            eff.version_mismatch == any_version_warning(drained_codes(old(self)@)),
            drain_count(final(self)@) == 0,
    {
        let ghost s0 = old(self)@;
        let ghost codes = drained_codes(s0);
        let ghost w0 = s0.response_sequence;
        let k = self.network.rx_packets.get_contiguous_packets_count(self.response_sequence);
        proof {
            crate::queue::lemma_contiguous_le_len(s0.rx, w0 as int);
            crate::queue::lemma_contiguous_keys(s0.rx, w0 as int);
            assert(s0.rx.skip(0) =~= s0.rx);
            assert(codes.take(0) =~= Seq::<ResponseCode>::empty());
            assert(self@ =~= (SessionV {
                rx: s0.rx.skip(0),
                response_sequence: (w0 + 0) as u64,
                ..apply_response_codes(s0, codes.take(0), now)
            }));
        }
        let mut notifications: Vec<ResponseCode> = Vec::new();
        let mut version_mismatch: bool = false;
        let mut i: usize = 0;
        while i < k
            invariant
                0 <= i <= k,
                k == drain_count(s0),
                k <= s0.rx.len(),
                old(self).wf(),
                s0 == old(self)@,
                codes == drained_codes(s0),
                w0 == s0.response_sequence,
                forall|j: int|
                    0 <= j < k ==> (#[trigger] s0.rx[j]).0.sequence_spec() == Some(
                        (w0 + j) as u64,
                    ) && 0 <= w0 + j <= u64::MAX,
                self.wf(),
                self@ == (SessionV {
                    rx: s0.rx.skip(i as int),
                    response_sequence: (w0 + i) as u64,
                    ..apply_response_codes(s0, codes.take(i as int), now)
                }),
                notifications@ == notifications_of(codes.take(i as int)),
                version_mismatch == any_version_warning(codes.take(i as int)),
            decreases k - i,
        {
            let ghost mid_base = apply_response_codes(s0, codes.take(i as int), now);
            proof {
                assert(s0.rx[i as int].0.sequence_spec() == Some((w0 + i) as u64));
                assert(s0.rx[i as int].0 is Response);
                assert(self@.rx =~= s0.rx.skip(i as int));
                assert(self@.rx.len() == s0.rx.len() - i);
                assert(self@.rx[0] == s0.rx[i as int]);
                assert(key_of(s0.rx[i as int]) < u64::MAX);
            }
            let popped = self.network.rx_packets.pop_front();
            let code = match popped {
                Some(packet) => match packet {
                    Packet::Response { code, .. } => code,
                    _ => unreached(),
                },
                Option::None => unreached(),
            };
            proof {
                assert(code == response_code_of(s0.rx[i as int].0));
                assert(codes[i as int] == code);
            }
            self.response_sequence = self.response_sequence + 1;
            proof {
                assert(self@.rx =~= s0.rx.skip(i as int + 1)) by {
                    assert(s0.rx.skip(i as int).drop_first() =~= s0.rx.skip(i as int + 1));
                }
                assert(self@ =~= (SessionV {
                    rx: s0.rx.skip(i as int + 1),
                    response_sequence: (w0 + i + 1) as u64,
                    ..mid_base
                }));
                // the remaining buffered responses are still processable
                let mid = self@;
                assert forall|j: int| 0 <= j < mid.rx.len() implies (#[trigger] mid.rx[j]).0
                    is Response && (w0 + i + 1) as u64 <= key_of(mid.rx[j]) && key_of(mid.rx[j])
                    < u64::MAX by {
                    assert(mid.rx[j] == s0.rx[i + 1 + j]);
                    assert(s0.rx[i + 1 + j].0 is Response);
                    assert(key_of(s0.rx[i as int]) < key_of(s0.rx[i + 1 + j]));
                    assert(w0 <= key_of(s0.rx[i + 1 + j]) && key_of(s0.rx[i + 1 + j]) < u64::MAX);
                }
                assert(session_inv(mid));
            }
            let eff = self.process_event_code(now, code);
            match eff.notification {
                Some(note) => notifications.push(note),
                Option::None => (),
            }
            version_mismatch = version_mismatch || eff.version_mismatch;
            i = i + 1;
            proof {
                lemma_apply_code_frame(
                    mid_base,
                    s0.rx.skip(i as int),
                    (w0 + i) as u64,
                    code,
                    now,
                );
                assert(codes.take(i as int) =~= codes.take(i as int - 1).push(
                    codes[i as int - 1],
                ));
                lemma_apply_codes_snoc(s0, codes.take(i as int - 1), codes[i as int - 1], now);
                assert(self@ =~= (SessionV {
                    rx: s0.rx.skip(i as int),
                    response_sequence: (w0 + i) as u64,
                    ..apply_response_codes(s0, codes.take(i as int), now)
                }));
                assert(codes.take(i as int).drop_last() =~= codes.take(i as int - 1));
                assert(codes.take(i as int).last() == codes[i as int - 1]);
                assert(notifications@ =~= notifications_of(codes.take(i as int)));
                assert(version_mismatch == any_version_warning(codes.take(i as int)));
            }
        }
        proof {
            assert(codes.take(k as int) =~= codes);
            lemma_apply_codes_frame(s0, s0.rx.skip(k as int), (w0 + k) as u64, codes, now);
            assert(self@ =~= after_drain(s0, now));
            crate::queue::lemma_contiguous_maximal(s0.rx, w0 as int);
            assert(self@.response_sequence as int == w0 + k) by {
                if k > 0 {
                    assert(s0.rx[k - 1].0.sequence_spec() == Some((w0 + k - 1) as u64));
                    assert(key_of(s0.rx[k - 1]) < u64::MAX);
                }
            }
            assert(drain_count(self@) == 0);
        }
        DrainEffect { notifications, version_mismatch }
    }

    /// Merge the chat list of one update into the session: lines at or
    /// below the chat watermark are dropped (replay protection), each
    /// survivor raises the watermark to its sequence number and joins the
    /// bounded history, and the ones other players sent are returned for
    /// display, in arrival order.
    fn handle_incoming_chats(
        &mut self,
        now: u64,
        chats: Option<Vec<BroadcastChatMessage>>,
    ) -> (shown: Vec<BroadcastChatMessage>)
        requires
            old(self).wf(),
            old(self)@.name is Some,
            (chats matches Some(list) ==> forall|i: int|
                0 <= i < list@.len() ==> (#[trigger] list@[i]).chat_seq is Some),
        ensures
            final(self).wf(),
            final(self)@ == (match chats {
                Some(list) => apply_chats(
                    old(self)@,
                    fresh_chats(list@, old(self)@.chat_msg_seq_num),
                    now,
                ),
                None => old(self)@,
            }),
            shown@ == (match chats {
                Some(list) => surfaced_of(
                    fresh_chats(list@, old(self)@.chat_msg_seq_num),
                    old(self)@.name->Some_0@,
                ),
                None => Seq::<BroadcastChatMessage>::empty(),
            }),
    {
        let ghost s0 = self@;
        let list = match chats {
            Some(list) => list,
            Option::None => {
                return Vec::new();
            },
        };
        let w0 = self.chat_msg_seq_num;
        // First pass, as the update arrived: keep only lines newer than
        // the watermark at arrival.
        let mut survivors: Vec<BroadcastChatMessage> = Vec::new();
        let n = list.len();
        let mut i: usize = 0;
        proof {
            assert(fresh_chats(list@.take(0), w0) =~= Seq::<BroadcastChatMessage>::empty());
        }
        while i < n
            invariant
                0 <= i <= n,
                n == list@.len(),
                forall|j: int| 0 <= j < list@.len() ==> (#[trigger] list@[j]).chat_seq is Some,
                survivors@ == fresh_chats(list@.take(i as int), w0),
            decreases n - i,
        {
            let c = &list[i];
            let fresh = match c.chat_seq {
                Some(q) => q > w0,
                Option::None => unreached(),
            };
            proof {
                assert(list@.take(i as int + 1).drop_last() =~= list@.take(i as int));
                assert(list@.take(i as int + 1).last() == list@[i as int]);
            }
            if fresh {
                survivors.push(c.clone());
            }
            proof {
                assert(survivors@ =~= fresh_chats(list@.take(i as int + 1), w0));
            }
            i += 1;
        }
        proof {
            assert(list@.take(n as int) =~= list@);
        }
        let ghost fresh_list = fresh_chats(list@, w0);
        proof {
            lemma_fresh_chats_elements(list@, w0);
        }
        // Second pass, still in arrival order: raise the watermark, file
        // each line into the history, and collect what other players said.
        let ghost name_chars = s0.name->Some_0@;
        let mut shown: Vec<BroadcastChatMessage> = Vec::new();
        let m = survivors.len();
        let mut j: usize = 0;
        proof {
            assert(fresh_list.take(0) =~= Seq::<BroadcastChatMessage>::empty());
            assert(surfaced_of(fresh_list.take(0), name_chars) =~= Seq::<
                BroadcastChatMessage,
            >::empty());
            assert(self@ == apply_chats(s0, fresh_list.take(0), now));
        }
        while j < m
            invariant
                0 <= j <= m,
                m == fresh_list.len(),
                survivors@ == fresh_list,
                s0.name is Some,
                name_chars == s0.name->Some_0@,
                forall|jj: int| 0 <= jj < fresh_list.len() ==> is_fresh(#[trigger] fresh_list[jj], w0),
                self.wf(),
                self@ == apply_chats(s0, fresh_list.take(j as int), now),
                shown@ == surfaced_of(fresh_list.take(j as int), name_chars),
            decreases m - j,
        {
            let ghost mid = self@;
            proof {
                lemma_apply_chats_fields(s0, fresh_list.take(j as int), now);
                assert(is_fresh(fresh_list[j as int], w0));
            }
            let c = &survivors[j];
            let q = match c.chat_seq {
                Some(q) => q,
                Option::None => unreached(),
            };
            if q > self.chat_msg_seq_num {
                self.chat_msg_seq_num = q;
            }
            let history_copy = c.clone();
            match &mut self.network.rx_chat_messages {
                Some(queue) => queue.buffer_item(history_copy, now),
                Option::None => unreached(),
            }
            proof {
                assert(self@ =~= apply_chat(mid, fresh_list[j as int], now));
                assert(fresh_list.take(j as int + 1).drop_last() =~= fresh_list.take(j as int));
                assert(fresh_list.take(j as int + 1).last() == fresh_list[j as int]);
                assert(fresh_list.take(j as int).push(fresh_list[j as int]) =~= fresh_list.take(
                    j as int + 1,
                ));
                lemma_apply_chats_snoc(s0, fresh_list.take(j as int), fresh_list[j as int], now);
            }
            let mine = match &self.name {
                Some(me) => *me == c.player_name,
                Option::None => unreached(),
            };
            if !mine {
                shown.push(c.clone());
            }
            proof {
                assert(shown@ =~= surfaced_of(fresh_list.take(j as int + 1), name_chars));
            }
            j += 1;
        }
        proof {
            assert(fresh_list.take(m as int) =~= fresh_list);
        }
        shown
    }

    /// React to one packet from the wire. Every packet — of any kind —
    /// refreshes the heartbeat. A response is accepted or dropped as
    /// [`response_accept`] says and the newly contiguous run is delivered.
    /// An update merges its chat list and is echoed at once with an
    /// `UpdateReply`. A request or update-reply arriving at a client is a
    /// protocol violation and is discarded.
    pub fn handle_incoming_event(&mut self, now: u64, packet: Packet) -> (out: StepOutput)
        requires
            old(self).wf(),
            packet is Update ==> old(self)@.cookie is Some && old(self)@.name is Some
                && update_chats_keyed(packet),
        ensures
            final(self).wf(),
            packet is Response ==> ({
                &&& final(self)@ == incoming_response_step(old(self)@, packet, now)
                &&& out.notifications@ == (if response_triggers_drain(old(self)@, packet) {
                    notifications_of(drained_codes(response_accept(old(self)@, packet, now)))
                } else {
                    Seq::<ResponseCode>::empty()
                })
                &&& out.version_mismatch == (response_triggers_drain(old(self)@, packet)
                    && any_version_warning(
                    drained_codes(response_accept(old(self)@, packet, now)),
                ))
                &&& out.to_send@ == Seq::<Packet>::empty()
                &&& out.chat_messages@ == Seq::<BroadcastChatMessage>::empty()
                &&& out.local_error is None
                &&& !out.exit
            }),
            packet is Update ==> ({
                &&& final(self)@ == update_step(old(self)@, packet, now)
                &&& out.to_send@ == seq![update_reply_packet(final(self)@)]
                &&& out.chat_messages@ == update_shown(old(self)@, packet)
                &&& out.notifications@ == Seq::<ResponseCode>::empty()
                &&& !out.version_mismatch
                &&& out.local_error is None
                &&& !out.exit
            }),
            (packet is Request || packet is UpdateReply) ==> ({
                &&& final(self)@ == (SessionV { heartbeat: Some(now), ..old(self)@ })
                &&& out.to_send@ == Seq::<Packet>::empty()
                &&& out.notifications@ == Seq::<ResponseCode>::empty()
                &&& out.chat_messages@ == Seq::<BroadcastChatMessage>::empty()
                &&& !out.version_mismatch
                &&& out.local_error is None
                &&& !out.exit
            }),
            drain_count(old(self)@) == 0 && !response_triggers_drain(old(self)@, packet)
                ==> drain_count(final(self)@) == drain_count(old(self)@),
            response_triggers_drain(old(self)@, packet) ==> drain_count(final(self)@) == 0,
    {
        self.heartbeat = Some(now);
        let ghost s1 = self@;
        proof {
            assert(s1 =~= (SessionV { heartbeat: Some(now), ..old(self)@ }));
        }
        match packet {
            Packet::Response { sequence, request_ack, code } => {
                let ka = matches!(code, ResponseCode::KeepAlive);
                if !ka && self.response_sequence <= sequence && sequence < u64::MAX {
                    let probe = Packet::Response { sequence, request_ack, code };
                    proof {
                        assert(probe == packet);
                    }
                    let ghost tx0 = self@.tx;
                    let removed = self.network.tx_packets.remove(&probe);
                    proof {
                        let txn = self@.tx;
                        assert forall|ii: int| 0 <= ii < txn.len() implies (#[trigger] txn[ii]).0
                            is Request by {
                            match probe.ack_spec() {
                                Some(a) => {
                                    if contains_sequence(tx0, a) {
                                        let ri = index_of_sequence(tx0, a);
                                        crate::queue::lemma_index_of_props(tx0, a);
                                        assert(txn == tx0.remove(ri));
                                        let pi: int = if ii < ri {
                                            ii
                                        } else {
                                            ii + 1
                                        };
                                        assert(txn[ii] == tx0[pi]);
                                    }
                                },
                                Option::None => {},
                            }
                        }
                    }
                    if removed.is_some() {
                        let ghost rx0 = self@.rx;
                        self.network.rx_packets.buffer_item(probe, now);
                        proof {
                            let rxn = self@.rx;
                            if !contains_sequence(rx0, sequence) {
                                crate::queue::lemma_insert_sorted_elements(rx0, packet, now);
                                assert(rxn == insert_sorted(rx0, packet, now));
                                assert forall|ii: int| 0 <= ii < rxn.len() implies (#[trigger]
                                rxn[ii]).0 is Response && old(self)@.response_sequence <= key_of(
                                    rxn[ii],
                                ) && key_of(rxn[ii]) < u64::MAX by {
                                    if rxn[ii] == (packet, now) {
                                    } else {
                                        assert(rx0.contains(rxn[ii]));
                                        let w = choose|w: int|
                                            0 <= w < rx0.len() && rx0[w] == rxn[ii];
                                        assert(rx0[w].0 is Response);
                                        assert(old(self)@.response_sequence <= key_of(rx0[w])
                                            && key_of(rx0[w]) < u64::MAX);
                                    }
                                }
                            }
                        }
                    }
                    proof {
                        assert(self@ =~= response_accept(old(self)@, packet, now));
                        assert(session_inv(self@));
                    }
                    let eff = self.process_queued_server_responses(now);
                    let out = StepOutput {
                        to_send: Vec::new(),
                        notifications: eff.notifications,
                        chat_messages: Vec::new(),
                        version_mismatch: eff.version_mismatch,
                        local_error: Option::None,
                        show_help: false,
                        show_stats: false,
                        exit: false,
                    };
                    out
                } else {
                    proof {
                        assert(self@ =~= response_accept(old(self)@, packet, now));
                    }
                    StepOutput::quiet()
                }
            },
            Packet::Update { chats, game_updates: _, universe_update: _ } => {
                let ghost chats0 = chats;
                proof {
                    assert(self@.name == old(self)@.name);
                    match chats0 {
                        Some(list) => {
                            assert(forall|i: int|
                                0 <= i < list@.len() ==> (#[trigger] list@[i]).chat_seq is Some);
                        },
                        Option::None => {},
                    }
                }
                let shown = self.handle_incoming_chats(now, chats);
                proof {
                    assert(self@ == update_step(old(self)@, packet, now)) by {
                        match chats0 {
                            Some(list) => {
                                assert(s1.chat_msg_seq_num == old(self)@.chat_msg_seq_num);
                            },
                            Option::None => {},
                        }
                    }
                    match chats0 {
                        Some(list) => {
                            lemma_apply_chats_fields(
                                s1,
                                fresh_chats(list@, s1.chat_msg_seq_num),
                                now,
                            );
                        },
                        Option::None => {},
                    }
                    assert(self@.cookie is Some);
                }
                let cookie = match &self.cookie {
                    Some(c) => c.clone(),
                    Option::None => unreached(),
                };
                let reply = Packet::UpdateReply {
                    cookie,
                    last_chat_seq: Some(self.chat_msg_seq_num),
                    last_game_update_seq: Option::None,
                    last_gen: Option::None,
                };
                proof {
                    assert(reply == update_reply_packet(self@));
                }
                let mut to_send: Vec<Packet> = Vec::new();
                to_send.push(reply);
                StepOutput {
                    to_send,
                    notifications: Vec::new(),
                    chat_messages: shown,
                    version_mismatch: false,
                    local_error: Option::None,
                    show_help: false,
                    show_stats: false,
                    exit: false,
                }
            },
            Packet::Request { .. } => StepOutput::quiet(),
            Packet::UpdateReply { .. } => StepOutput::quiet(),
        }
    }

    /// One periodic tick: send a keep-alive while the connection is live;
    /// tear the session down instead when it has timed out or the player
    /// asked to disconnect.
    pub fn handle_tick_event(&mut self, now: u64) -> (out: Option<Packet>)
        requires
            old(self).wf(),
        ensures
            final(self).wf(),
            final(self)@ == tick_step(old(self)@, now),
            out == tick_wire(old(self)@, now),
            drain_count(old(self)@) == 0 ==> drain_count(final(self)@) == 0,
    {
        let mut out: Option<Packet> = Option::None;
        if self.cookie.is_some() {
            let timed_out = has_connection_timed_out(self.heartbeat, now);
            if timed_out || self.disconnect_initiated {
                self.reset();
            } else {
                out = Some(
                    Packet::Request {
                        sequence: self.sequence,
                        response_ack: Option::None,
                        cookie: clone_opt_string(&self.cookie),
                        action: RequestAction::KeepAlive(self.response_sequence),
                    },
                );
            }
        }
        self.tick = if self.tick == usize::MAX {
            0
        } else {
            self.tick + 1
        };
        proof {
            assert(final(self)@ =~= tick_step(old(self)@, now));
        }
        out
    }

    /// One periodic retransmission check: deliver whatever became
    /// contiguous, then re-send every request past its retransmission
    /// deadline, restamped with the current watermark. Does nothing until
    /// the session is authenticated.
    pub fn handle_network_event(&mut self, now: u64) -> (out: StepOutput)
        requires
            old(self).wf(),
        ensures
            final(self).wf(),
            final(self)@ == network_step(old(self)@, now),
            old(self)@.cookie is Some ==> ({
                let s1 = after_drain(old(self)@, now);
                let ei = crate::queue::expired_indices(s1.tx, now);
                &&& out.to_send@.len() == ei.len()
                &&& (forall|j: int|
                    0 <= j < ei.len() ==> (#[trigger] out.to_send@[j]) == stamp_response_ack(
                        s1.tx[ei[j] as int].0,
                        Some(s1.response_sequence),
                    ))
                &&& out.notifications@ == notifications_of(drained_codes(old(self)@))
                &&& out.version_mismatch == any_version_warning(drained_codes(old(self)@))
                &&& drain_count(final(self)@) == 0
            }),
            old(self)@.cookie is None ==> ({
                &&& final(self)@ == old(self)@
                &&& out.to_send@ == Seq::<Packet>::empty()
                &&& out.notifications@ == Seq::<ResponseCode>::empty()
            }),
            out.chat_messages@ == Seq::<BroadcastChatMessage>::empty(),
            out.local_error is None,
            !out.exit,
    {
        if self.cookie.is_none() {
            return StepOutput::quiet();
        }
        let eff = self.process_queued_server_responses(now);
        let ghost s1 = self@;
        // reading the length pins the queue's size inside `usize` for the
        // index reasoning below
        let _tx_len = self.network.tx_packets.len();
        let indices = self.network.tx_packets.get_retransmit_indices(now);
        proof {
            crate::queue::lemma_expired_indices_props(s1.tx, now);
        }
        let ack = Some(self.response_sequence);
        proof {
            assert(ack == Some(s1.response_sequence));
        }
        let sent = self.network.retransmit_expired_tx_packets(ack, &indices, now);
        proof {
            let ei = crate::queue::expired_indices(s1.tx, now);
            let stamped = retransmit_stamped(s1.tx, Some(s1.response_sequence), now);
            assert forall|i: int| 0 <= i < s1.tx.len() implies self@.tx[i] == stamped[i] by {
                if crate::queue::stamp_expired(s1.tx[i].1, now) {
                    assert(ei.contains(i as usize));
                    let j = choose|j: int| 0 <= j < ei.len() && ei[j] == i as usize;
                    assert(sent@[j] == stamp_response_ack(s1.tx[ei[j] as int].0, ack));
                    assert(self@.tx[ei[j] as int] == (sent@[j], now));
                } else {
                    assert(!ei.contains(i as usize)) by {
                        if ei.contains(i as usize) {
                            let j = choose|j: int| 0 <= j < ei.len() && ei[j] == i as usize;
                            assert(crate::queue::stamp_expired(s1.tx[ei[j] as int].1, now));
                        }
                    }
                }
            }
            assert(self@.tx =~= stamped);
            assert(self@ =~= network_step(old(self)@, now));
            assert(session_inv(self@)) by {
                assert(rx_processable(self@.rx, self@.response_sequence)) by {
                    assert(self@.rx == s1.rx);
                    assert(self@.response_sequence == s1.response_sequence);
                }
            }
            assert(drain_count(self@) == drain_count(s1)) by {
                assert(self@.rx == s1.rx);
                assert(self@.response_sequence == s1.response_sequence);
            }
        }
        StepOutput {
            to_send: sent,
            notifications: eff.notifications,
            chat_messages: Vec::new(),
            version_mismatch: eff.version_mismatch,
            local_error: Option::None,
            show_help: false,
            show_stats: false,
            exit: false,
        }
    }

    /// Turn one slash command into a request action, following the
    /// command table of [`command_spec`]. A malformed or impossible
    /// command is reported locally and produces no action.
    pub fn build_command_request_action(&mut self, cmd: String, args: Vec<String>) -> (r:
        CommandResult)
        requires
            old(self).wf(),
        ensures
            final(self).wf(),
            command_spec(old(self)@, cmd@, args@, final(self)@, r),
    {
        if is_cmd(&cmd, "help") {
            CommandResult {
                action: RequestAction::NoAction,
                error: Option::None,
                show_help: true,
                show_stats: false,
            }
        } else if is_cmd(&cmd, "stats") {
            CommandResult {
                action: RequestAction::NoAction,
                error: Option::None,
                show_help: false,
                show_stats: true,
            }
        } else if is_cmd(&cmd, "connect") {
            if args.len() == 1 {
                self.name = Some(args[0].clone());
                let r = accepted(
                    RequestAction::Connect {
                        name: args[0].clone(),
                        client_version: client_version(),
                    },
                );
                proof {
                    assert(final(self)@ =~= (SessionV { name: Some(args@[0]), ..old(self)@ }));
                }
                r
            } else {
                rejected("expected the player name as the sole argument (no spaces allowed)")
            }
        } else if is_cmd(&cmd, "disconnect") {
            if args.len() == 0 {
                accepted(RequestAction::Disconnect)
            } else {
                rejected("expected no arguments to disconnect")
            }
        } else if is_cmd(&cmd, "list") {
            if args.len() == 0 {
                if self.in_game() {
                    accepted(RequestAction::ListPlayers)
                } else {
                    accepted(RequestAction::ListRooms)
                }
            } else {
                rejected("expected no arguments to list")
            }
        } else if is_cmd(&cmd, "new") {
            if args.len() == 1 {
                accepted(RequestAction::NewRoom(args[0].clone()))
            } else {
                rejected("expected the name of the room (no spaces allowed)")
            }
        } else if is_cmd(&cmd, "join") {
            if args.len() == 1 {
                if !self.in_game() {
                    accepted(RequestAction::JoinRoom(args[0].clone()))
                } else {
                    rejected("you are already in a game")
                }
            } else {
                rejected("expected the room name only (no spaces allowed)")
            }
        } else if is_cmd(&cmd, "part") || is_cmd(&cmd, "leave") {
            if args.len() == 0 {
                if self.in_game() {
                    accepted(RequestAction::LeaveRoom)
                } else {
                    rejected("you are already in the lobby")
                }
            } else {
                rejected("expected no arguments to leave")
            }
        } else if is_cmd(&cmd, "quit") {
            accepted(RequestAction::Disconnect)
        } else {
            rejected("command not recognized")
        }
    }

    /// One line the player typed: free text becomes a chat request, a
    /// slash command goes through the command table; whatever action comes
    /// out is sent through the shared send path.
    pub fn handle_user_input_event(&mut self, now: u64, input: UserInput) -> (out: StepOutput)
        requires
            old(self).wf(),
            old(self)@.cookie is Some ==> old(self)@.sequence < u64::MAX,
        ensures
            final(self).wf(),
            input matches UserInput::Chat(msg) ==> ({
                &&& final(self)@ == enqueue_step(
                    old(self)@,
                    RequestAction::ChatMessage(msg),
                    now,
                )
                &&& out.to_send@ == seq![
                    enqueue_request(old(self)@, RequestAction::ChatMessage(msg)),
                ]
                &&& out.local_error is None
                &&& !out.show_help
                &&& !out.show_stats
                &&& !out.exit
            }),
            input matches UserInput::Command { cmd, args } ==> (exists|
                mid: SessionV,
                r: CommandResult,
            |
                {
                    &&& #[trigger] command_spec(old(self)@, cmd@, args@, mid, r)
                    &&& final(self)@ == enqueue_step(mid, r.action, now)
                    &&& out.to_send@ == (match enqueue_wire(mid, r.action) {
                        Some(p) => seq![p],
                        None => Seq::<Packet>::empty(),
                    })
                    &&& out.local_error == r.error
                    &&& out.show_help == r.show_help
                    &&& out.show_stats == r.show_stats
                    &&& out.exit == (r.action is Disconnect)
                }),
            out.notifications@ == Seq::<ResponseCode>::empty(),
            out.chat_messages@ == Seq::<BroadcastChatMessage>::empty(),
            !out.version_mismatch,
    {
        match input {
            UserInput::Chat(text) => {
                let sent = self.enqueue(now, RequestAction::ChatMessage(text));
                let mut to_send: Vec<Packet> = Vec::new();
                match sent.packet {
                    Some(p) => to_send.push(p),
                    Option::None => (),
                }
                StepOutput {
                    to_send,
                    notifications: Vec::new(),
                    chat_messages: Vec::new(),
                    version_mismatch: false,
                    local_error: Option::None,
                    show_help: false,
                    show_stats: false,
                    exit: false,
                }
            },
            UserInput::Command { cmd, args } => {
                let ghost cmd_chars = cmd@;
                let ghost args_list = args@;
                let r = self.build_command_request_action(cmd, args);
                let ghost mid = self@;
                proof {
                    lemma_command_keeps_core(old(self)@, cmd_chars, args_list, mid, r);
                }
                let exit = matches!(r.action, RequestAction::Disconnect);
                let sent = self.enqueue(now, r.action);
                let mut to_send: Vec<Packet> = Vec::new();
                match sent.packet {
                    Some(p) => to_send.push(p),
                    Option::None => (),
                }
                StepOutput {
                    to_send,
                    notifications: Vec::new(),
                    chat_messages: Vec::new(),
                    version_mismatch: false,
                    local_error: r.error,
                    show_help: r.show_help,
                    show_stats: r.show_stats,
                    exit,
                }
            },
        }
    }

    /// One step of the session: the merged event stream is consumed one
    /// event at a time, and each event is dispatched to its handler. This
    /// is the whole per-event behaviour of the client; the surrounding
    /// loop only merges the five sources, performs the returned sends and
    /// displays, and stops on `exit`.
    pub fn handle_event(&mut self, now: u64, event: Event) -> (out: StepOutput)
        requires
            old(self).wf(),
            old(self)@.cookie is Some ==> old(self)@.sequence < u64::MAX,
            (event matches Event::Incoming(p) ==> (p is Update ==> old(self)@.cookie is Some
                && old(self)@.name is Some && update_chats_keyed(p))),
        ensures
            final(self).wf(),
            event is TickEvent ==> ({
                &&& final(self)@ == tick_step(old(self)@, now)
                &&& out.to_send@ == (match tick_wire(old(self)@, now) {
                    Some(p) => seq![p],
                    None => Seq::<Packet>::empty(),
                })
                &&& out.notifications@ == Seq::<ResponseCode>::empty()
                &&& !out.exit
            }),
            event matches Event::Incoming(p) ==> ({
                &&& (p is Response ==> final(self)@ == incoming_response_step(
                    old(self)@,
                    p,
                    now,
                ) && out.notifications@ == (if response_triggers_drain(old(self)@, p) {
                    notifications_of(drained_codes(response_accept(old(self)@, p, now)))
                } else {
                    Seq::<ResponseCode>::empty()
                }))
                &&& (p is Update ==> final(self)@ == update_step(old(self)@, p, now)
                    && out.to_send@ == seq![update_reply_packet(final(self)@)]
                    && out.chat_messages@ == update_shown(old(self)@, p))
                &&& ((p is Request || p is UpdateReply) ==> final(self)@ == (SessionV {
                    heartbeat: Some(now),
                    ..old(self)@
                }))
                &&& !out.exit
            }),
            event matches Event::UserInputEvent(input) ==> ({
                &&& (input matches UserInput::Chat(msg) ==> final(self)@ == enqueue_step(
                    old(self)@,
                    RequestAction::ChatMessage(msg),
                    now,
                ) && out.to_send@ == seq![
                    enqueue_request(old(self)@, RequestAction::ChatMessage(msg)),
                ])
                &&& (input matches UserInput::Command { cmd, args } ==> (exists|
                    mid: SessionV,
                    r: CommandResult,
                |
                    {
                        &&& #[trigger] command_spec(old(self)@, cmd@, args@, mid, r)
                        &&& final(self)@ == enqueue_step(mid, r.action, now)
                        &&& out.to_send@ == (match enqueue_wire(mid, r.action) {
                            Some(p) => seq![p],
                            None => Seq::<Packet>::empty(),
                        })
                        &&& out.local_error == r.error
                        &&& out.exit == (r.action is Disconnect)
                    }))
            }),
            event is NetworkEvent ==> ({
                &&& final(self)@ == network_step(old(self)@, now)
                &&& (old(self)@.cookie is Some ==> out.notifications@ == notifications_of(
                    drained_codes(old(self)@),
                ))
                &&& !out.exit
            }),
            event matches Event::ConwaysteEvent(action) ==> ({
                &&& final(self)@ == enqueue_step(old(self)@, action, now)
                &&& out.to_send@ == (match enqueue_wire(old(self)@, action) {
                    Some(p) => seq![p],
                    None => Seq::<Packet>::empty(),
                })
                &&& out.exit == (action is Disconnect)
            }),
    {
        match event {
            Event::TickEvent => {
                let sent = self.handle_tick_event(now);
                let mut to_send: Vec<Packet> = Vec::new();
                match sent {
                    Some(p) => to_send.push(p),
                    Option::None => (),
                }
                StepOutput {
                    to_send,
                    notifications: Vec::new(),
                    chat_messages: Vec::new(),
                    version_mismatch: false,
                    local_error: Option::None,
                    show_help: false,
                    show_stats: false,
                    exit: false,
                }
            },
            Event::Incoming(packet) => self.handle_incoming_event(now, packet),
            Event::UserInputEvent(input) => self.handle_user_input_event(now, input),
            Event::NetworkEvent => self.handle_network_event(now),
            Event::ConwaysteEvent(action) => {
                let sent = self.enqueue(now, action);
                let mut to_send: Vec<Packet> = Vec::new();
                match sent.packet {
                    Some(p) => to_send.push(p),
                    Option::None => (),
                }
                StepOutput {
                    to_send,
                    notifications: Vec::new(),
                    chat_messages: Vec::new(),
                    version_mismatch: false,
                    local_error: Option::None,
                    show_help: false,
                    show_stats: false,
                    exit: sent.exit,
                }
            },
        }
    }

    /// Tear the session down to [`reset_view`]: used on heartbeat timeout,
    /// on a completed disconnect, and on protocol reset. Every field is
    /// reassigned here so that the reset provably covers the whole state.
    pub fn reset(&mut self)
        requires
            old(self).wf(),
        ensures
            final(self).wf(),
            final(self)@ == reset_view(old(self)@),
    {
        self.sequence = 0;
        self.response_sequence = 0;
        self.room = Option::None;
        self.cookie = Option::None;
        self.chat_msg_seq_num = 0;
        self.tick = 0;
        self.heartbeat = Option::None;
        self.disconnect_initiated = false;
        self.network.reset();
        proof {
            assert(final(self)@ =~= reset_view(old(self)@));
        }
    }
}

} // verus!
