//! The owner of the three reliability queues: outbound requests awaiting
//! acknowledgment, inbound responses buffered for in-order processing, and
//! inbound chat broadcasts buffered for in-order delivery.

use vstd::prelude::*;

use crate::packet::{clone_opt_string, BroadcastChatMessage, Packet};
use crate::queue::{NetworkQueue, Sequenced};

verus! {

/// How many chat lines the history buffer retains; the oldest line is
/// evicted first once the limit is reached.
pub const CHAT_HISTORY_LIMIT: usize = 600;

/// `p` with its piggybacked response acknowledgment replaced: a request is
/// restamped this way before each retransmission; any other packet is left
/// alone.
pub open spec fn stamp_response_ack(p: Packet, ack: Option<u64>) -> Packet {
    match p {
        Packet::Request { sequence, response_ack: _, cookie, action } => Packet::Request {
            sequence,
            response_ack: ack,
            cookie,
            action,
        },
        _ => p,
    }
}

/// Every buffered entry is a request packet (the shape of the tx queue).
pub open spec fn all_requests(s: Seq<(Packet, u64)>) -> bool {
    forall|i: int| 0 <= i < s.len() ==> (#[trigger] s[i]).0 is Request
}

/// Every buffered entry is a response packet (the shape of the rx queue).
pub open spec fn all_responses(s: Seq<(Packet, u64)>) -> bool {
    forall|i: int| 0 <= i < s.len() ==> (#[trigger] s[i]).0 is Response
}

/// A request equal to `*p` except that its `response_ack` is `ack`.
fn restamped_request(p: &Packet, ack: Option<u64>) -> (r: Packet)
    requires
        *p is Request,
    ensures
        r == stamp_response_ack(*p, ack),
{
    match p {
        Packet::Request { sequence, response_ack: _, cookie, action } => Packet::Request {
            sequence: *sequence,
            response_ack: ack,
            cookie: clone_opt_string(cookie),
            action: action.clone(),
        },
        _ => unreached(),
    }
}

/// How full the three queues are, for diagnostics.
#[derive(Debug)]
pub struct NetworkStatistics {
    pub tx_packets_queued: usize,
    pub rx_packets_buffered: usize,
    pub chat_messages_buffered: usize,
}

/// The three reliability queues of one session.
pub struct NetworkManager {
    /// Outbound requests kept until the server acknowledges them.
    pub tx_packets: NetworkQueue<Packet>,
    /// Inbound responses held until they can be processed in order.
    pub rx_packets: NetworkQueue<Packet>,
    /// Inbound chat broadcasts, retained as a bounded history; present
    /// only on a manager built with message buffering.
    pub rx_chat_messages: Option<NetworkQueue<BroadcastChatMessage>>,
}

impl NetworkManager {
    pub open spec fn inv(&self) -> bool {
        &&& self.tx_packets.inv()
        &&& self.tx_packets.cap() is None
        &&& self.rx_packets.inv()
        &&& self.rx_packets.cap() is None
        &&& match self.rx_chat_messages {
            Some(q) => q.inv() && q.cap() == Some(CHAT_HISTORY_LIMIT),
            None => true,
        }
    }

    /// A manager with empty transmit and receive queues and no chat
    /// history.
    pub fn new() -> (m: Self)
        ensures
            m.inv(),
            m.tx_packets@ == Seq::<(Packet, u64)>::empty(),
            m.rx_packets@ == Seq::<(Packet, u64)>::empty(),
            m.rx_chat_messages is None,
    {
        NetworkManager {
            tx_packets: NetworkQueue::new(),
            rx_packets: NetworkQueue::new(),
            rx_chat_messages: Option::None,
        }
    }

    /// The same manager with a (bounded) chat history buffer attached.
    pub fn with_message_buffering(self) -> (m: Self)
        ensures
            m.tx_packets == self.tx_packets,
            m.rx_packets == self.rx_packets,
            m.rx_chat_messages matches Some(q) && q@ == Seq::<(BroadcastChatMessage, u64)>::empty()
                && q.inv() && q.cap() == Some(CHAT_HISTORY_LIMIT),
    {
        NetworkManager {
            tx_packets: self.tx_packets,
            rx_packets: self.rx_packets,
            rx_chat_messages: Some(NetworkQueue::with_capacity(CHAT_HISTORY_LIMIT)),
        }
    }

    /// Session teardown: drop everything buffered in all three queues.
    /// Whether a chat history is attached is kept.
    pub fn reset(&mut self)
        requires
            old(self).inv(),
        ensures
            final(self).inv(),
            final(self).tx_packets@ == Seq::<(Packet, u64)>::empty(),
            final(self).rx_packets@ == Seq::<(Packet, u64)>::empty(),
            final(self).rx_chat_messages is Some <==> old(self).rx_chat_messages is Some,
            final(self).rx_chat_messages matches Some(q) ==> q@ == Seq::<
                (BroadcastChatMessage, u64),
            >::empty() && q.cap() == Some(CHAT_HISTORY_LIMIT),
    {
        self.tx_packets.clear();
        self.rx_packets.clear();
        match &mut self.rx_chat_messages {
            Some(q) => q.clear(),
            Option::None => (),
        }
    }

    /// Re-send the transmit-queue entries at `indices` (which must be in
    /// increasing order), restamping each with the acknowledgment `ack`
    /// and the transmission time `now`. The request sequence numbers are
    /// unchanged; the returned packets are the copies to put on the wire.
    pub fn retransmit_expired_tx_packets(
        &mut self,
        ack: Option<u64>,
        indices: &Vec<usize>,
        now: u64,
    ) -> (sent: Vec<Packet>)
        requires
            old(self).inv(),
            all_requests(old(self).tx_packets@),
            forall|j: int| 0 <= j < indices@.len() ==> (#[trigger] indices@[j]) < old(
                self,
            ).tx_packets@.len(),
            forall|a: int, b: int| 0 <= a < b < indices@.len() ==> indices@[a] < indices@[b],
        ensures
            final(self).inv(),
            all_requests(final(self).tx_packets@),
            final(self).rx_packets == old(self).rx_packets,
            final(self).rx_chat_messages == old(self).rx_chat_messages,
            final(self).tx_packets.cap() == old(self).tx_packets.cap(),
            final(self).tx_packets@.len() == old(self).tx_packets@.len(),
            sent@.len() == indices@.len(),
            forall|j: int|
                0 <= j < indices@.len() ==> (#[trigger] sent@[j]) == stamp_response_ack(
                    old(self).tx_packets@[indices@[j] as int].0,
                    ack,
                ) && final(self).tx_packets@[indices@[j] as int] == (sent@[j], now),
            forall|i: int|
                0 <= i < old(self).tx_packets@.len() && !indices@.contains(i as usize)
                    ==> final(self).tx_packets@[i] == old(self).tx_packets@[i],
    {
        let ghost tx0 = self.tx_packets@;
        let n = self.tx_packets.len();
        let mut sent: Vec<Packet> = Vec::new();
        let mut j: usize = 0;
        while j < indices.len()
            invariant
                0 <= j <= indices@.len(),
                n == tx0.len(),
                self.tx_packets.inv(),
                self.tx_packets.cap() == old(self).tx_packets.cap(),
                self.rx_packets == old(self).rx_packets,
                self.rx_chat_messages == old(self).rx_chat_messages,
                old(self).inv(),
                tx0 == old(self).tx_packets@,
                all_requests(tx0),
                self.tx_packets@.len() == tx0.len(),
                forall|jj: int| 0 <= jj < indices@.len() ==> (#[trigger] indices@[jj]) < tx0.len(),
                forall|a: int, b: int| 0 <= a < b < indices@.len() ==> indices@[a] < indices@[b],
                sent@.len() == j,
                forall|jj: int|
                    0 <= jj < j ==> (#[trigger] sent@[jj]) == stamp_response_ack(
                        tx0[indices@[jj] as int].0,
                        ack,
                    ) && self.tx_packets@[indices@[jj] as int] == (sent@[jj], now),
                forall|i: int|
                    0 <= i < tx0.len() && !indices@.take(j as int).contains(i as usize)
                        ==> self.tx_packets@[i] == tx0[i],
                all_requests(self.tx_packets@),
            decreases indices@.len() - j,
        {
            let idx = indices[j];
            proof {
                assert(!indices@.take(j as int).contains(idx));
                assert(self.tx_packets@[idx as int] == tx0[idx as int]);
                assert(tx0[idx as int].0 is Request);
            }
            let wire_copy;
            let queue_copy;
            {
                let p = self.tx_packets.get(idx);
                wire_copy = restamped_request(p, ack);
                queue_copy = restamped_request(p, ack);
            }
            proof {
                match tx0[idx as int].0 {
                    Packet::Request { sequence, .. } => {
                        assert(queue_copy.sequence_spec() == Some(sequence));
                    },
                    _ => (),
                }
            }
            self.tx_packets.replace_at(idx, queue_copy, now);
            sent.push(wire_copy);
            j += 1;
            proof {
                assert forall|i: int|
                    0 <= i < tx0.len() && !indices@.take(j as int).contains(i as usize) implies self
                    .tx_packets@[i] == tx0[i] by {
                    assert(!indices@.take(j as int - 1).contains(i as usize));
                    assert(i != idx as int) by {
                        assert(indices@.take(j as int)[j as int - 1] == idx);
                    }
                }
                assert forall|jj: int|
                    0 <= jj < j implies (#[trigger] sent@[jj]) == stamp_response_ack(
                    tx0[indices@[jj] as int].0,
                    ack,
                ) && self.tx_packets@[indices@[jj] as int] == (sent@[jj], now) by {
                    if jj < j - 1 {
                        assert(indices@[jj] < indices@[j - 1]);
                    }
                }
                assert forall|i: int| 0 <= i < self.tx_packets@.len() implies (#[trigger] self
                    .tx_packets@[i]).0 is Request by {
                    if i == idx as int {
                    } else if !indices@.take(j as int).contains(i as usize) {
                        assert(self.tx_packets@[i] == tx0[i]);
                    } else {
                        let w = choose|w: int|
                            0 <= w < j && indices@.take(j as int)[w] == i as usize;
                        assert(indices@[w] == i as usize);
                        assert(sent@[w] == stamp_response_ack(tx0[i].0, ack));
                        assert(self.tx_packets@[i] == (sent@[w], now));
                        assert(tx0[i].0 is Request);
                    }
                }
            }
        }
        proof {
            assert(indices@.take(j as int) =~= indices@);
        }
        sent
    }

    /// How many packets and chat lines each queue is holding.
    pub fn statistics(&self) -> (st: NetworkStatistics)
        ensures
            st.tx_packets_queued == self.tx_packets@.len(),
            st.rx_packets_buffered == self.rx_packets@.len(),
            match self.rx_chat_messages {
                Some(q) => st.chat_messages_buffered == q@.len(),
                None => st.chat_messages_buffered == 0,
            },
    {
        NetworkStatistics {
            tx_packets_queued: self.tx_packets.len(),
            rx_packets_buffered: self.rx_packets.len(),
            chat_messages_buffered: match &self.rx_chat_messages {
                Some(q) => q.len(),
                Option::None => 0,
            },
        }
    }
}

} // verus!
