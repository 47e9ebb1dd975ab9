//! The delivery guarantees of the session layer, stated and proved over
//! the session model: responses are delivered in strictly increasing,
//! gap-free order and never twice; the watermark advances by exactly one
//! per delivered response and never past a gap; a request stays buffered
//! until a response acknowledges it, and retransmission never changes a
//! request's sequence number; stale chat lines are always dropped and the
//! chat watermark never goes down.

use vstd::prelude::*;

use crate::manager::stamp_response_ack;
use crate::packet::{BroadcastChatMessage, Packet, RequestAction};
use crate::queue::{
    contains_sequence, index_of_sequence, key_of, lemma_contiguous_keys, lemma_contiguous_le_len,
    lemma_contiguous_maximal, lemma_index_of_props, stamp_expired, Sequenced,
};
use crate::session::{
    after_drain, apply_chats, drain_count, drained_codes, fresh_chats, incoming_response_step,
    is_fresh, lemma_apply_chats_fields, lemma_apply_codes_fields, response_accept,
    response_triggers_drain, retransmit_stamped, session_inv, surfaced_of, SessionV,
};

verus! {

/// One drain delivers the buffered responses in strictly increasing,
/// gap-free sequence order: the i-th delivered response carries exactly
/// sequence number `watermark + i`, and the watermark afterwards has
/// advanced by exactly one per delivered response.
pub proof fn lemma_responses_delivered_in_order(s: SessionV, now: u64)
    requires
        session_inv(s),
    ensures
        forall|i: int|
            0 <= i < drained_codes(s).len() ==> (#[trigger] s.rx[i]).0.sequence_spec() == Some(
                (s.response_sequence + i) as u64,
            ),
        after_drain(s, now).response_sequence == s.response_sequence + drained_codes(s).len(),
        after_drain(s, now).rx == s.rx.skip(drained_codes(s).len() as int),
{
    let k = drain_count(s);
    lemma_contiguous_le_len(s.rx, s.response_sequence as int);
    lemma_contiguous_keys(s.rx, s.response_sequence as int);
    lemma_apply_codes_fields(
        SessionV {
            response_sequence: (s.response_sequence + k) as u64,
            rx: s.rx.skip(k as int),
            ..s
        },
        drained_codes(s),
        now,
    );
    if k > 0 {
        assert(s.rx[k - 1].0.sequence_spec() == Some((s.response_sequence + k - 1) as u64));
        assert(key_of(s.rx[k - 1]) < u64::MAX);
    }
}

/// The watermark never advances past a gap: when something is left
/// buffered after a drain, the next buffered response is not the next
/// expected one.
pub proof fn lemma_watermark_stops_at_gap(s: SessionV, now: u64)
    requires
        session_inv(s),
    ensures
        drain_count(s) < s.rx.len() ==> s.rx[drain_count(s) as int].0.sequence_spec() != Some(
            after_drain(s, now).response_sequence,
        ),
{
    let k = drain_count(s);
    let w = s.response_sequence as int;
    lemma_contiguous_le_len(s.rx, w);
    lemma_contiguous_keys(s.rx, w);
    lemma_contiguous_maximal(s.rx, w);
    lemma_responses_delivered_in_order(s, now);
    if k < s.rx.len() {
        assert(s.rx.skip(k as int)[0] == s.rx[k as int]);
        if k > 0 {
            assert(key_of(s.rx[k - 1]) < u64::MAX);
        }
        assert(0 <= w + k <= u64::MAX);
    }
}

/// A stale response — one whose sequence number the watermark has already
/// passed — changes nothing but the heartbeat: it is never delivered a
/// second time.
pub proof fn lemma_stale_response_ignored(s: SessionV, p: Packet, now: u64)
    requires
        session_inv(s),
        p matches Packet::Response { sequence, .. } && sequence < s.response_sequence,
    ensures
        incoming_response_step(s, p, now) == (SessionV { heartbeat: Some(now), ..s }),
{
    assert(!response_triggers_drain(s, p));
}

/// A duplicate of a response that is still buffered is dropped: in a
/// drained session it triggers no delivery and the receive queue and
/// watermark are unchanged.
pub proof fn lemma_duplicate_response_dropped(s: SessionV, p: Packet, now: u64)
    requires
        session_inv(s),
        drain_count(s) == 0,
        p matches Packet::Response { sequence, code, .. } && !(code is KeepAlive)
            && contains_sequence(s.rx, sequence),
    ensures
        drained_codes(response_accept(s, p, now)).len() == 0,
        incoming_response_step(s, p, now).rx == s.rx,
        incoming_response_step(s, p, now).response_sequence == s.response_sequence,
{
    let a = response_accept(s, p, now);
    assert(a.rx == s.rx);
    assert(a.response_sequence == s.response_sequence);
    assert(drain_count(a) == 0);
    if response_triggers_drain(s, p) {
        let stepped = after_drain(a, now);
        lemma_apply_codes_fields(
            SessionV { response_sequence: (a.response_sequence + 0) as u64, rx: a.rx.skip(0), ..a },
            drained_codes(a),
            now,
        );
        assert(a.rx.skip(0) =~= a.rx);
        assert(stepped.rx == s.rx);
        assert(stepped.response_sequence == s.response_sequence);
    }
}

/// A response that acknowledges no request still awaiting its answer is
/// treated as already acknowledged and dropped: in a drained session it
/// triggers no delivery and buffers nothing. Together with
/// [`lemma_stale_response_ignored`] and [`lemma_duplicate_response_dropped`]
/// this is why no response is ever delivered twice: its first delivery
/// removes the matching request, so every later copy arrives unmatched,
/// still buffered, or below the watermark.
pub proof fn lemma_unmatched_response_dropped(s: SessionV, p: Packet, now: u64)
    requires
        session_inv(s),
        drain_count(s) == 0,
        p matches Packet::Response { request_ack, .. } && (match request_ack {
            Some(a) => !contains_sequence(s.tx, a),
            None => true,
        }),
    ensures
        incoming_response_step(s, p, now).rx == s.rx,
        incoming_response_step(s, p, now).tx == s.tx,
        incoming_response_step(s, p, now).response_sequence == s.response_sequence,
{
    let a = response_accept(s, p, now);
    assert(a.rx == s.rx);
    assert(a.tx == s.tx);
    assert(a.response_sequence == s.response_sequence);
    if response_triggers_drain(s, p) {
        assert(drain_count(a) == 0);
        lemma_apply_codes_fields(
            SessionV { response_sequence: (a.response_sequence + 0) as u64, rx: a.rx.skip(0), ..a },
            drained_codes(a),
            now,
        );
        assert(a.rx.skip(0) =~= a.rx);
    }
}

/// The response watermark is monotone: no incoming response ever moves it
/// backwards.
pub proof fn lemma_watermark_monotone(s: SessionV, p: Packet, now: u64)
    requires
        session_inv(s),
        p is Response,
    ensures
        incoming_response_step(s, p, now).response_sequence >= s.response_sequence,
{
    let a = response_accept(s, p, now);
    assert(a.response_sequence == s.response_sequence);
    if response_triggers_drain(s, p) {
        let k = drain_count(a);
        lemma_apply_codes_fields(
            SessionV { response_sequence: (a.response_sequence + k) as u64, rx: a.rx.skip(k as int), ..a },
            drained_codes(a),
            now,
        );
        assert forall|i: int| 0 <= i < a.rx.len() implies key_of(#[trigger] a.rx[i])
            < u64::MAX by {
            if a.rx != s.rx {
                match p {
                    Packet::Response { sequence, .. } => {
                        crate::queue::lemma_insert_sorted_elements(s.rx, p, now);
                        if a.rx[i] == (p, now) {
                        } else {
                            assert(s.rx.contains(a.rx[i]));
                            let w = choose|w: int| 0 <= w < s.rx.len() && s.rx[w] == a.rx[i];
                            assert(key_of(s.rx[w]) < u64::MAX);
                        }
                    },
                    _ => {},
                }
            }
        }
        lemma_contiguous_le_len(a.rx, a.response_sequence as int);
        lemma_contiguous_keys(a.rx, a.response_sequence as int);
        if k > 0 {
            assert(a.rx[k - 1].0.sequence_spec() == Some((a.response_sequence + k - 1) as u64));
            assert(key_of(a.rx[k - 1]) < u64::MAX);
        }
    }
}

/// A buffered request outlives every response that does not acknowledge
/// it: it stays in the transmit queue until a response carrying its
/// sequence number as `request_ack` is observed.
pub proof fn lemma_request_retained_until_acked(s: SessionV, p: Packet, now: u64, q: u64)
    requires
        session_inv(s),
        contains_sequence(s.tx, q),
        p matches Packet::Response { request_ack, .. } && request_ack != Some(q),
    ensures
        contains_sequence(incoming_response_step(s, p, now).tx, q),
{
    let a = response_accept(s, p, now);
    assert(contains_sequence(a.tx, q)) by {
        if a.tx != s.tx {
            match p {
                Packet::Response { request_ack, .. } => {
                    let ack = request_ack->Some_0;
                    let ri = index_of_sequence(s.tx, ack);
                    lemma_index_of_props(s.tx, ack);
                    assert(a.tx == s.tx.remove(ri));
                    let j = choose|j: int|
                        0 <= j < s.tx.len() && (#[trigger] s.tx[j]).0.sequence_spec() == Some(q);
                    assert(s.tx[ri].0.sequence_spec() == Some(ack));
                    assert(j != ri);
                    let j2: int = if j < ri {
                        j
                    } else {
                        j - 1
                    };
                    assert(a.tx[j2] == s.tx[j]);
                },
                _ => {},
            }
        }
    }
    if response_triggers_drain(s, p) {
        let k = drain_count(a);
        lemma_apply_codes_fields(
            SessionV { response_sequence: (a.response_sequence + k) as u64, rx: a.rx.skip(k as int), ..a },
            drained_codes(a),
            now,
        );
    }
}

/// An acknowledged request leaves the transmit queue: once a response
/// carrying its sequence number as `request_ack` is accepted, no entry
/// under that number remains.
pub proof fn lemma_ack_removes_request(s: SessionV, p: Packet, now: u64, q: u64)
    requires
        session_inv(s),
        contains_sequence(s.tx, q),
        p matches Packet::Response { sequence, request_ack, code } && request_ack == Some(q) && !(
        code is KeepAlive) && s.response_sequence <= sequence && sequence < u64::MAX,
    ensures
        !contains_sequence(incoming_response_step(s, p, now).tx, q),
{
    let a = response_accept(s, p, now);
    let ri = index_of_sequence(s.tx, q);
    lemma_index_of_props(s.tx, q);
    assert(a.tx == s.tx.remove(ri));
    assert(!contains_sequence(a.tx, q)) by {
        if contains_sequence(a.tx, q) {
            let j = choose|j: int|
                0 <= j < a.tx.len() && (#[trigger] a.tx[j]).0.sequence_spec() == Some(q);
            let pj: int = if j < ri {
                j
            } else {
                j + 1
            };
            assert(a.tx[j] == s.tx[pj]);
            assert(pj != ri);
            assert(key_of(s.tx[pj]) == key_of(s.tx[ri]));
            if pj < ri {
                assert(key_of(s.tx[pj]) < key_of(s.tx[ri]));
            } else {
                assert(key_of(s.tx[ri]) < key_of(s.tx[pj]));
            }
        }
    }
    assert(response_triggers_drain(s, p));
    let k = drain_count(a);
    lemma_apply_codes_fields(
        SessionV { response_sequence: (a.response_sequence + k) as u64, rx: a.rx.skip(k as int), ..a },
        drained_codes(a),
        now,
    );
}

/// A retransmission pass re-sends exactly the entries past their deadline,
/// each with an unchanged request sequence number and restamped with the
/// given acknowledgment; entries not yet due are untouched.
pub proof fn lemma_retransmission_preserves_requests(
    tx: Seq<(Packet, u64)>,
    ack: Option<u64>,
    now: u64,
)
    ensures
        retransmit_stamped(tx, ack, now).len() == tx.len(),
        forall|i: int|
            0 <= i < tx.len() ==> (#[trigger] retransmit_stamped(tx, ack, now)[i]).0.sequence_spec()
                == tx[i].0.sequence_spec(),
        forall|i: int|
            0 <= i < tx.len() && stamp_expired(tx[i].1, now) ==> (#[trigger] retransmit_stamped(
                tx,
                ack,
                now,
            )[i]) == (stamp_response_ack(tx[i].0, ack), now),
        forall|i: int|
            0 <= i < tx.len() && !stamp_expired(tx[i].1, now) ==> (#[trigger] retransmit_stamped(
                tx,
                ack,
                now,
            )[i]) == tx[i],
        forall|i: int|
            0 <= i < tx.len() && (#[trigger] tx[i]).0 is Request && stamp_expired(tx[i].1, now)
                ==> (retransmit_stamped(tx, ack, now)[i].0 matches Packet::Request {
                response_ack,
                ..
            } && response_ack == ack),
{
    let r = retransmit_stamped(tx, ack, now);
    assert forall|i: int| 0 <= i < tx.len() implies (#[trigger] r[i]).0.sequence_spec()
        == tx[i].0.sequence_spec() by {
        if stamp_expired(tx[i].1, now) {
            assert(r[i] == (stamp_response_ack(tx[i].0, ack), now));
        }
    }
}

/// The request sequence counter never decreases on a send, and it
/// increments only while a cookie exists: before authentication every
/// request goes out under sequence number zero.
pub proof fn lemma_request_sequence_monotone(s: SessionV, action: RequestAction, now: u64)
    requires
        s.sequence < u64::MAX,
    ensures
        crate::session::enqueue_step(s, action, now).sequence >= s.sequence,
        s.cookie is None ==> crate::session::enqueue_step(s, action, now).sequence == s.sequence,
{
}

/// Receiving a response never touches the request sequence counter.
pub proof fn lemma_receive_keeps_request_sequence(s: SessionV, p: Packet, now: u64)
    requires
        p is Response,
    ensures
        incoming_response_step(s, p, now).sequence == s.sequence,
{
    let a = response_accept(s, p, now);
    assert(a.sequence == s.sequence);
    if response_triggers_drain(s, p) {
        let k = drain_count(a);
        lemma_apply_codes_fields(
            SessionV { response_sequence: (a.response_sequence + k) as u64, rx: a.rx.skip(k as int), ..a },
            drained_codes(a),
            now,
        );
    }
}

/// The chat watermark never goes down, and every line a merge shows or
/// keeps was strictly newer than the watermark the update arrived at:
/// replayed chat lines are always dropped.
pub proof fn lemma_chat_replay_protection(
    s: SessionV,
    chats: Seq<BroadcastChatMessage>,
    name: Seq<char>,
    now: u64,
)
    ensures
        apply_chats(s, fresh_chats(chats, s.chat_msg_seq_num), now).chat_msg_seq_num
            >= s.chat_msg_seq_num,
        forall|i: int|
            0 <= i < fresh_chats(chats, s.chat_msg_seq_num).len() ==> is_fresh(
                #[trigger] fresh_chats(chats, s.chat_msg_seq_num)[i],
                s.chat_msg_seq_num,
            ),
        forall|i: int|
            0 <= i < surfaced_of(fresh_chats(chats, s.chat_msg_seq_num), name).len() ==> is_fresh(
                #[trigger] surfaced_of(fresh_chats(chats, s.chat_msg_seq_num), name)[i],
                s.chat_msg_seq_num,
            ),
{
    let w = s.chat_msg_seq_num;
    let f = fresh_chats(chats, w);
    lemma_apply_chats_fields(s, f, now);
    crate::session::lemma_fresh_chats_elements(chats, w);
    lemma_surfaced_subset(f, name, w);
}

/// Every line shown to the player comes from the survivor list.
proof fn lemma_surfaced_subset(list: Seq<BroadcastChatMessage>, name: Seq<char>, w: u64)
    requires
        forall|i: int| 0 <= i < list.len() ==> is_fresh(#[trigger] list[i], w),
    ensures
        forall|i: int|
            0 <= i < surfaced_of(list, name).len() ==> is_fresh(
                #[trigger] surfaced_of(list, name)[i],
                w,
            ),
    decreases list.len(),
{
    if list.len() > 0 {
        let t = list.drop_last();
        assert forall|i: int| 0 <= i < t.len() implies is_fresh(#[trigger] t[i], w) by {
            assert(t[i] == list[i]);
        }
        lemma_surfaced_subset(t, name, w);
        let r = surfaced_of(list, name);
        let rt = surfaced_of(t, name);
        assert forall|i: int| 0 <= i < r.len() implies is_fresh(#[trigger] r[i], w) by {
            if i < rt.len() {
                assert(is_fresh(surfaced_of(t, name)[i], w));
                assert(r[i] == rt[i]);
            } else {
                assert(r[i] == list.last());
            }
        }
    }
}

} // verus!

