//! A sequence-indexed buffer: the ordered container behind the transmit,
//! receive and chat queues. Items are kept in strictly increasing order of
//! their sequence numbers; the queue supports contiguous-prefix counting
//! (for in-order delivery), removal by acknowledgment key, and detection of
//! entries that are due for retransmission.

use vstd::prelude::*;

verus! {

/// Milliseconds an entry may sit in a queue before it is due for
/// retransmission (fixed interval, no backoff).
pub const RETRANSMISSION_TIMEOUT_MS: u64 = 1000;

/// An item that carries the per-sender sequence number the queues are
/// ordered by, and the key it targets when used as an acknowledgment probe.
pub trait Sequenced: Sized {
    /// The sequence number this item is filed under, if it has one.
    spec fn sequence_spec(&self) -> Option<u64>;

    /// The sequence number of the buffered item that this item acknowledges.
    spec fn ack_spec(&self) -> Option<u64>;

    fn sequence_number(&self) -> (r: Option<u64>)
        ensures
            r == self.sequence_spec(),
    ;

    fn ack_target(&self) -> (r: Option<u64>)
        ensures
            r == self.ack_spec(),
    ;
}

/// The sequence number of a buffered entry (the entry pairs the item with
/// the time it was buffered or last retransmitted).
pub open spec fn key_of<T: Sequenced>(e: (T, u64)) -> u64
    recommends
        e.0.sequence_spec() is Some,
{
    e.0.sequence_spec()->Some_0
}

/// Every entry carries a sequence number.
pub open spec fn keyed<T: Sequenced>(s: Seq<(T, u64)>) -> bool {
    forall|i: int| 0 <= i < s.len() ==> (#[trigger] s[i]).0.sequence_spec() is Some
}

/// Entries appear in strictly increasing sequence order.
pub open spec fn sorted_by_sequence<T: Sequenced>(s: Seq<(T, u64)>) -> bool {
    forall|i: int, j: int|
        0 <= i < j < s.len() ==> key_of(#[trigger] s[i]) < key_of(#[trigger] s[j])
}

/// Some entry is filed under sequence number `k`.
pub open spec fn contains_sequence<T: Sequenced>(s: Seq<(T, u64)>, k: u64) -> bool {
    exists|i: int| 0 <= i < s.len() && (#[trigger] s[i]).0.sequence_spec() == Some(k)
}

/// Where an item with sequence number `k` sits, scanning from the front;
/// -1 if no entry is filed under `k`.
pub open spec fn index_of_sequence<T: Sequenced>(s: Seq<(T, u64)>, k: u64) -> int
    decreases s.len(),
{
    if s.len() == 0 {
        -1
    } else if s[0].0.sequence_spec() == Some(k) {
        0
    } else {
        let r = index_of_sequence(s.drop_first(), k);
        if r < 0 {
            -1
        } else {
            r + 1
        }
    }
}

/// The sequence with `item` (stamped `stamp`) inserted at its sorted
/// position.
pub open spec fn insert_sorted<T: Sequenced>(s: Seq<(T, u64)>, item: T, stamp: u64) -> Seq<
    (T, u64),
>
    recommends
        item.sequence_spec() is Some,
    decreases s.len(),
{
    if s.len() == 0 {
        seq![(item, stamp)]
    } else if key_of((item, stamp)) < key_of(s[0]) {
        seq![(item, stamp)] + s
    } else {
        seq![s[0]] + insert_sorted(s.drop_first(), item, stamp)
    }
}

/// How many entries from the front carry the unbroken run of sequence
/// numbers `watermark`, `watermark + 1`, ...; the count stops at the first
/// gap or at the end of the buffer.
pub open spec fn contiguous_len<T: Sequenced>(s: Seq<(T, u64)>, watermark: int) -> nat
    decreases s.len(),
{
    if s.len() == 0 {
        0
    } else if 0 <= watermark <= u64::MAX && s[0].0.sequence_spec() == Some(watermark as u64) {
        (1 + contiguous_len(s.drop_first(), watermark + 1)) as nat
    } else {
        0
    }
}

/// An entry stamped at `stamp` is due for retransmission at `now`.
pub open spec fn stamp_expired(stamp: u64, now: u64) -> bool {
    now >= stamp + RETRANSMISSION_TIMEOUT_MS
}

/// The positions of the entries due for retransmission, in increasing
/// order.
pub open spec fn expired_indices<T: Sequenced>(s: Seq<(T, u64)>, now: u64) -> Seq<usize>
    decreases s.len(),
{
    if s.len() == 0 {
        Seq::empty()
    } else {
        expired_indices(s.drop_last(), now) + if stamp_expired(s.last().1, now) {
            seq![(s.len() - 1) as usize]
        } else {
            Seq::empty()
        }
    }
}

/// `insert_sorted` places the item exactly at the position `idx` that its
/// sequence number orders it to.
pub proof fn lemma_insert_sorted_at<T: Sequenced>(s: Seq<(T, u64)>, item: T, stamp: u64, idx: int)
    requires
        keyed(s),
        sorted_by_sequence(s),
        item.sequence_spec() is Some,
        0 <= idx <= s.len(),
        forall|j: int| 0 <= j < idx ==> key_of(#[trigger] s[j]) < key_of((item, stamp)),
        idx < s.len() ==> key_of((item, stamp)) < key_of(s[idx]),
    ensures
        insert_sorted(s, item, stamp) == s.insert(idx, (item, stamp)),
    decreases idx,
{
    if idx == 0 {
        if s.len() == 0 {
            assert(insert_sorted(s, item, stamp) =~= s.insert(0, (item, stamp)));
        } else {
            assert(key_of((item, stamp)) < key_of(s[0]));
            assert(insert_sorted(s, item, stamp) =~= s.insert(0, (item, stamp)));
        }
    } else {
        let t = s.drop_first();
        assert(key_of(s[0]) < key_of((item, stamp)));
        assert forall|i: int, j: int| 0 <= i < j < t.len() implies key_of(#[trigger] t[i])
            < key_of(#[trigger] t[j]) by {
            assert(t[i] == s[i + 1]);
            assert(t[j] == s[j + 1]);
        }
        assert forall|j: int| 0 <= j < idx - 1 implies key_of(#[trigger] t[j]) < key_of(
            (item, stamp),
        ) by {
            assert(t[j] == s[j + 1]);
        }
        assert(idx - 1 < t.len() ==> key_of((item, stamp)) < key_of(t[idx - 1]));
        lemma_insert_sorted_at(t, item, stamp, idx - 1);
        assert(insert_sorted(s, item, stamp) =~= s.insert(idx, (item, stamp)));
    }
}

/// Inserting adds one entry; every entry of the result is the new one or
/// comes from the original buffer.
pub proof fn lemma_insert_sorted_elements<T: Sequenced>(s: Seq<(T, u64)>, item: T, stamp: u64)
    ensures
        insert_sorted(s, item, stamp).len() == s.len() + 1,
        forall|i: int|
            0 <= i < insert_sorted(s, item, stamp).len() ==> (#[trigger] insert_sorted(
                s,
                item,
                stamp,
            )[i] == (item, stamp) || s.contains(insert_sorted(s, item, stamp)[i])),
    decreases s.len(),
{
    let r = insert_sorted(s, item, stamp);
    if s.len() == 0 {
    } else if key_of((item, stamp)) < key_of(s[0]) {
        assert forall|i: int| 0 <= i < r.len() implies (#[trigger] r[i] == (item, stamp)
            || s.contains(r[i])) by {
            if i > 0 {
                assert(r[i] == s[i - 1]);
            }
        }
    } else {
        let t = s.drop_first();
        lemma_insert_sorted_elements(t, item, stamp);
        let rt = insert_sorted(t, item, stamp);
        assert forall|i: int| 0 <= i < r.len() implies (#[trigger] r[i] == (item, stamp)
            || s.contains(r[i])) by {
            if i == 0 {
                assert(r[0] == s[0]);
                assert(s.contains(s[0]));
            } else {
                assert(r[i] == rt[i - 1]);
                if rt[i - 1] == (item, stamp) {
                } else {
                    assert(t.contains(rt[i - 1]));
                    let w = choose|w: int| 0 <= w < t.len() && t[w] == rt[i - 1];
                    assert(s[w + 1] == t[w]);
                    assert(s.contains(rt[i - 1]));
                }
            }
        }
    }
}

/// The contiguous run never extends past the end of the buffer.
pub proof fn lemma_contiguous_le_len<T: Sequenced>(s: Seq<(T, u64)>, watermark: int)
    ensures
        contiguous_len(s, watermark) <= s.len(),
    decreases s.len(),
{
    if s.len() > 0 {
        lemma_contiguous_le_len(s.drop_first(), watermark + 1);
    }
}

/// Within the contiguous run the sequence numbers are exactly
/// `watermark`, `watermark + 1`, ... with no gap.
pub proof fn lemma_contiguous_keys<T: Sequenced>(s: Seq<(T, u64)>, watermark: int)
    ensures
        forall|i: int|
            0 <= i < contiguous_len(s, watermark) ==> (#[trigger] s[i]).0.sequence_spec() == Some(
                (watermark + i) as u64,
            ) && 0 <= watermark + i <= u64::MAX,
    decreases s.len(),
{
    lemma_contiguous_le_len(s, watermark);
    if s.len() > 0 && contiguous_len(s, watermark) > 0 {
        let t = s.drop_first();
        lemma_contiguous_keys(t, watermark + 1);
        assert forall|i: int| 0 <= i < contiguous_len(s, watermark) implies (#[trigger] s[i])
            .0.sequence_spec() == Some((watermark + i) as u64) && 0 <= watermark + i
            <= u64::MAX by {
            if i > 0 {
                assert(s[i] == t[i - 1]);
                assert(0 <= i - 1 < contiguous_len(t, watermark + 1));
            }
        }
    }
}

/// The contiguous run is maximal: right after it, the next expected
/// sequence number is missing.
pub proof fn lemma_contiguous_maximal<T: Sequenced>(s: Seq<(T, u64)>, watermark: int)
    ensures
        contiguous_len(
            s.skip(contiguous_len(s, watermark) as int),
            watermark + contiguous_len(s, watermark),
        ) == 0,
    decreases s.len(),
{
    let k = contiguous_len(s, watermark);
    lemma_contiguous_le_len(s, watermark);
    if k == 0 {
        assert(s.skip(0) =~= s);
    } else {
        let t = s.drop_first();
        lemma_contiguous_le_len(t, watermark + 1);
        lemma_contiguous_maximal(t, watermark + 1);
        assert(s.skip(k as int) =~= t.skip(k as int - 1));
    }
}

/// Unfolding step for walking the contiguous run one entry at a time.
pub proof fn lemma_contiguous_step<T: Sequenced>(s: Seq<(T, u64)>, watermark: int, i: int)
    requires
        0 <= i < s.len(),
        0 <= watermark + i <= u64::MAX,
        s[i].0.sequence_spec() == Some((watermark + i) as u64),
    ensures
        contiguous_len(s.skip(i), watermark + i) == 1 + contiguous_len(
            s.skip(i + 1),
            watermark + i + 1,
        ),
{
    assert(s.skip(i).drop_first() =~= s.skip(i + 1));
    assert(s.skip(i)[0] == s[i]);
}

/// `index_of_sequence` finds exactly the position whose entry is filed
/// under `k`, when the prefix before that position avoids `k`.
pub proof fn lemma_index_of_at<T: Sequenced>(s: Seq<(T, u64)>, k: u64, idx: int)
    requires
        0 <= idx < s.len(),
        forall|j: int| 0 <= j < idx ==> (#[trigger] s[j]).0.sequence_spec() != Some(k),
        s[idx].0.sequence_spec() == Some(k),
    ensures
        index_of_sequence(s, k) == idx,
    decreases idx,
{
    if idx > 0 {
        let t = s.drop_first();
        assert forall|j: int| 0 <= j < idx - 1 implies (#[trigger] t[j]).0.sequence_spec() != Some(
            k,
        ) by {
            assert(t[j] == s[j + 1]);
        }
        assert(t[idx - 1] == s[idx]);
        lemma_index_of_at(t, k, idx - 1);
    }
}

/// When no entry is filed under `k`, the scan reports -1.
pub proof fn lemma_index_of_none<T: Sequenced>(s: Seq<(T, u64)>, k: u64)
    requires
        forall|j: int| 0 <= j < s.len() ==> (#[trigger] s[j]).0.sequence_spec() != Some(k),
    ensures
        index_of_sequence(s, k) == -1,
    decreases s.len(),
{
    if s.len() > 0 {
        let t = s.drop_first();
        assert forall|j: int| 0 <= j < t.len() implies (#[trigger] t[j]).0.sequence_spec() != Some(
            k,
        ) by {
            assert(t[j] == s[j + 1]);
        }
        lemma_index_of_none(t, k);
    }
}

/// What `index_of_sequence` reports is a sound position for `k`.
pub proof fn lemma_index_of_props<T: Sequenced>(s: Seq<(T, u64)>, k: u64)
    ensures
        contains_sequence(s, k) ==> {
            let i = index_of_sequence(s, k);
            0 <= i < s.len() && s[i].0.sequence_spec() == Some(k)
        },
        !contains_sequence(s, k) ==> index_of_sequence(s, k) == -1,
    decreases s.len(),
{
    if s.len() > 0 {
        let t = s.drop_first();
        lemma_index_of_props(t, k);
        if s[0].0.sequence_spec() == Some(k) {
        } else {
            if contains_sequence(s, k) {
                let w = choose|i: int|
                    0 <= i < s.len() && (#[trigger] s[i]).0.sequence_spec() == Some(k);
                assert(t[w - 1] == s[w]);
                assert(contains_sequence(t, k));
            }
            if contains_sequence(t, k) {
                let w = choose|i: int|
                    0 <= i < t.len() && (#[trigger] t[i]).0.sequence_spec() == Some(k);
                assert(s[w + 1] == t[w]);
                assert(contains_sequence(s, k));
            }
        }
    }
}

/// Extending the scanned prefix by one entry extends the expired-index
/// list by that entry exactly when it is due.
pub proof fn lemma_expired_indices_step<T: Sequenced>(s: Seq<(T, u64)>, now: u64, i: int)
    requires
        0 <= i < s.len(),
        i + 1 <= usize::MAX,
    ensures
        expired_indices(s.take(i + 1), now) == expired_indices(s.take(i), now) + if stamp_expired(
            s[i].1,
            now,
        ) {
            seq![i as usize]
        } else {
            Seq::<usize>::empty()
        },
{
    let p = s.take(i + 1);
    assert(p.drop_last() =~= s.take(i));
    assert(p.last() == s[i]);
    if stamp_expired(s[i].1, now) {
        assert(expired_indices(p, now) =~= expired_indices(s.take(i), now) + seq![i as usize]);
    } else {
        assert(expired_indices(p, now) =~= expired_indices(s.take(i), now));
    }
}

/// The expired-index list points at exactly the entries that are due, in
/// strictly increasing order.
pub proof fn lemma_expired_indices_props<T: Sequenced>(s: Seq<(T, u64)>, now: u64)
    requires
        s.len() <= usize::MAX,
    ensures
        forall|j: int|
            0 <= j < expired_indices(s, now).len() ==> (#[trigger] expired_indices(s, now)[j])
                < s.len() && stamp_expired(s[expired_indices(s, now)[j] as int].1, now),
        forall|a: int, b: int|
            0 <= a < b < expired_indices(s, now).len() ==> expired_indices(s, now)[a]
                < expired_indices(s, now)[b],
        forall|i: int|
            0 <= i < s.len() && stamp_expired((#[trigger] s[i]).1, now) ==> expired_indices(
                s,
                now,
            ).contains(i as usize),
    decreases s.len(),
{
    if s.len() > 0 {
        let t = s.drop_last();
        lemma_expired_indices_props(t, now);
        let e = expired_indices(s, now);
        let et = expired_indices(t, now);
        let tail: Seq<usize> = if stamp_expired(s.last().1, now) {
            seq![(s.len() - 1) as usize]
        } else {
            Seq::empty()
        };
        assert(e == et + tail);
        assert forall|j: int| 0 <= j < e.len() implies (#[trigger] e[j]) < s.len()
            && stamp_expired(s[e[j] as int].1, now) by {
            if j < et.len() {
                assert(expired_indices(t, now)[j] < t.len() && stamp_expired(
                    t[expired_indices(t, now)[j] as int].1,
                    now,
                ));
                assert(e[j] == et[j]);
                assert(stamp_expired(t[et[j] as int].1, now));
                assert(t[et[j] as int] == s[et[j] as int]);
                assert(stamp_expired(s[e[j] as int].1, now));
            } else {
                assert(tail.len() > 0);
                assert(stamp_expired(s.last().1, now));
                assert(e[j] == (s.len() - 1) as usize);
                assert(s[e[j] as int] == s.last());
                assert(stamp_expired(s[e[j] as int].1, now));
            }
        }
        assert forall|a: int, b: int| 0 <= a < b < e.len() implies e[a] < e[b] by {
            if b < et.len() {
                assert(expired_indices(t, now)[a] < expired_indices(t, now)[b]);
                assert(e[a] == et[a] && e[b] == et[b]);
            } else {
                assert(e[b] == (s.len() - 1) as usize);
                assert(expired_indices(t, now)[a] < t.len() && stamp_expired(
                    t[expired_indices(t, now)[a] as int].1,
                    now,
                ));
                assert(e[a] == et[a]);
            }
        }
        assert forall|i: int|
            0 <= i < s.len() && stamp_expired((#[trigger] s[i]).1, now) implies e.contains(
            i as usize,
        ) by {
            if i < s.len() - 1 {
                assert(t[i] == s[i]);
                assert(et.contains(i as usize));
                let w = choose|j: int| 0 <= j < et.len() && et[j] == i as usize;
                assert(e[w] == i as usize);
            } else {
                assert(e[e.len() - 1] == i as usize);
            }
        }
    }
}

/// An ordered buffer of sequence-numbered items. Entries pair each item
/// with the time it was buffered or last retransmitted. A bounded queue
/// evicts its oldest (lowest-sequence) entry when a new item arrives while
/// it is full.
pub struct NetworkQueue<T: Sequenced> {
    entries: Vec<(T, u64)>,
    capacity: Option<usize>,
}

impl<T: Sequenced> View for NetworkQueue<T> {
    type V = Seq<(T, u64)>;

    closed spec fn view(&self) -> Seq<(T, u64)> {
        self.entries@
    }
}

/// The buffer an insertion works on: the queue itself, or the queue with
/// its oldest entry evicted when a bounded queue is full.
pub open spec fn evicted_base<T: Sequenced>(s: Seq<(T, u64)>, cap: Option<usize>) -> Seq<
    (T, u64),
> {
    match cap {
        Some(c) => if s.len() >= c {
            s.drop_first()
        } else {
            s
        },
        None => s,
    }
}

impl<T: Sequenced> NetworkQueue<T> {
    /// The bound on how many entries the queue retains, if any.
    pub closed spec fn cap(&self) -> Option<usize> {
        self.capacity
    }

    pub open spec fn inv(&self) -> bool {
        &&& keyed(self@)
        &&& sorted_by_sequence(self@)
        &&& match self.cap() {
            Some(c) => self@.len() <= c && 1 <= c,
            None => true,
        }
    }

    /// An unbounded queue.
    pub fn new() -> (q: Self)
        ensures
            q.inv(),
            q@ == Seq::<(T, u64)>::empty(),
            q.cap() is None,
    {
        NetworkQueue { entries: Vec::new(), capacity: None }
    }

    /// A queue that retains at most `capacity` entries, evicting the
    /// oldest first.
    pub fn with_capacity(capacity: usize) -> (q: Self)
        requires
            capacity >= 1,
        ensures
            q.inv(),
            q@ == Seq::<(T, u64)>::empty(),
            q.cap() == Some(capacity),
    {
        NetworkQueue { entries: Vec::new(), capacity: Some(capacity) }
    }

    pub fn len(&self) -> (n: usize)
        ensures
            n == self@.len(),
    {
        self.entries.len()
    }

    pub fn is_empty(&self) -> (b: bool)
        ensures
            b == (self@.len() == 0),
    {
        self.entries.len() == 0
    }

    /// Read the item at position `i` (front first).
    pub fn get(&self, i: usize) -> (r: &T)
        requires
            i < self@.len(),
        ensures
            *r == self@[i as int].0,
    {
        &self.entries[i].0
    }

    /// Insert `item` at its sorted position, stamped with `now`. An item
    /// whose sequence number is already buffered is dropped; a bounded
    /// queue that is full evicts its oldest entry first.
    #[verifier::rlimit(100)]
    pub fn buffer_item(&mut self, item: T, now: u64)
        requires
            old(self).inv(),
            item.sequence_spec() is Some,
        ensures
            final(self).inv(),
            final(self).cap() == old(self).cap(),
            contains_sequence(old(self)@, item.sequence_spec()->Some_0) ==> final(self)@ == old(
                self,
            )@,
            !contains_sequence(old(self)@, item.sequence_spec()->Some_0) ==> final(self)@
                == insert_sorted(
                evicted_base(old(self)@, old(self).cap()),
                item,
                now,
            ),
    {
        let k = match item.sequence_number() {
            Some(k) => k,
            Option::None => unreached(),
        };
        let ghost s0 = self@;
        let n = self.entries.len();
        let mut idx: usize = 0;
        loop
            invariant
                self == old(self),
                self@ == s0,
                n == s0.len(),
                0 <= idx <= n,
                keyed(s0),
                sorted_by_sequence(s0),
                item.sequence_spec() == Some(k),
                forall|j: int| 0 <= j < idx ==> key_of(#[trigger] s0[j]) < k,
            ensures
                self == old(self),
                0 <= idx <= n,
                forall|j: int| 0 <= j < idx ==> key_of(#[trigger] s0[j]) < k,
                idx < n ==> key_of(s0[idx as int]) >= k,
            decreases n - idx,
        {
            if idx >= n {
                break ;
            }
            let ek = match self.entries[idx].0.sequence_number() {
                Some(v) => v,
                Option::None => unreached(),
            };
            if ek >= k {
                break ;
            }
            idx += 1;
        }
        if idx < n {
            let hit = match self.entries[idx].0.sequence_number() {
                Some(ek) => ek == k,
                Option::None => unreached(),
            };
            if hit {
                proof {
                    assert(s0[idx as int].0.sequence_spec() == Some(k));
                    assert(contains_sequence(s0, k));
                }
                return ;
            }
        }
        proof {
            assert forall|j: int| 0 <= j < s0.len() implies (#[trigger] s0[j]).0.sequence_spec()
                != Some(k) by {
                if j == idx {
                    assert(key_of(s0[j]) >= k);
                } else if j > idx {
                    assert(key_of(s0[idx as int]) < key_of(s0[j]));
                }
            }
            assert(!contains_sequence(s0, k));
        }
        let full = match self.capacity {
            Some(c) => n >= c,
            Option::None => false,
        };
        let ghost base = evicted_base(s0, old(self).cap());
        let pos: usize = if full && idx > 0 {
            idx - 1
        } else {
            idx
        };
        if full {
            self.entries.remove(0);
        }
        proof {
            assert(self@ =~= base);
            assert forall|i: int, j: int| 0 <= i < j < base.len() implies key_of(#[trigger] base[i])
                < key_of(#[trigger] base[j]) by {
                if full {
                    assert(base[i] == s0[i + 1]);
                    assert(base[j] == s0[j + 1]);
                }
            }
            assert forall|i: int| 0 <= i < base.len() implies (#[trigger] base[i])
                .0.sequence_spec() is Some by {
                if full {
                    assert(base[i] == s0[i + 1]);
                }
            }
            assert forall|j: int| 0 <= j < pos implies key_of(#[trigger] base[j]) < k by {
                if full {
                    assert(base[j] == s0[j + 1]);
                }
            }
            if (pos as int) < base.len() {
                if full {
                    assert(base[pos as int] == s0[pos as int + 1]);
                    if idx == 0 {
                        assert(key_of(s0[0]) > k);
                        assert(key_of(s0[1]) > key_of(s0[0]));
                    } else {
                        assert(base[pos as int] == s0[idx as int]);
                        assert(key_of(s0[idx as int]) > k);
                    }
                } else {
                    assert(key_of(base[pos as int]) > k);
                }
                assert(key_of(base[pos as int]) > k);
            }
            lemma_insert_sorted_at(base, item, now, pos as int);
        }
        self.entries.insert(pos, (item, now));
        proof {
            assert(self@ == base.insert(pos as int, (item, now)));
            let r = self@;
            assert forall|i: int, j: int| 0 <= i < j < r.len() implies key_of(#[trigger] r[i])
                < key_of(#[trigger] r[j]) by {
                if i < pos && j < pos {
                    assert(r[i] == base[i] && r[j] == base[j]);
                } else if i < pos && j == pos {
                    assert(r[i] == base[i]);
                } else if i < pos && j > pos {
                    assert(r[i] == base[i] && r[j] == base[j - 1]);
                    assert(key_of(base[i]) < k);
                    assert(key_of(base[j - 1]) > k);
                } else if i == pos && j > pos {
                    assert(r[j] == base[j - 1]);
                    assert(key_of(base[j - 1]) > k);
                } else {
                    assert(r[i] == base[i - 1] && r[j] == base[j - 1]);
                }
            }
            assert forall|i: int| 0 <= i < r.len() implies (#[trigger] r[i])
                .0.sequence_spec() is Some by {
                if i < pos {
                    assert(r[i] == base[i]);
                } else if i > pos {
                    assert(r[i] == base[i - 1]);
                }
            }
        }
    }


    /// How many buffered items form the unbroken sequence run
    /// `watermark`, `watermark + 1`, ... — the prefix that may be
    /// delivered in order right now.
    pub fn get_contiguous_packets_count(&self, watermark: u64) -> (n: usize)
        requires
            self.inv(),
        ensures
            n == contiguous_len(self@, watermark as int),
    {
        let len = self.entries.len();
        let mut i: usize = 0;
        let mut expected: u64 = watermark;
        proof {
            lemma_contiguous_le_len(self@, watermark as int);
            assert(self@.skip(0) =~= self@);
        }
        loop
            invariant
                self.inv(),
                0 <= i <= len,
                len == self@.len(),
                expected == watermark + i,
                contiguous_len(self@, watermark as int) == i + contiguous_len(
                    self@.skip(i as int),
                    watermark + i,
                ),
            decreases len - i,
        {
            if i >= len {
                proof {
                    assert(self@.skip(i as int) =~= Seq::<(T, u64)>::empty());
                }
                return i;
            }
            let hit = match self.entries[i].0.sequence_number() {
                Some(ek) => ek == expected,
                Option::None => unreached(),
            };
            proof {
                assert(self@.skip(i as int)[0] == self@[i as int]);
            }
            if !hit {
                proof {
                    assert(contiguous_len(self@.skip(i as int), watermark + i) == 0);
                }
                return i;
            }
            proof {
                lemma_contiguous_step(self@, watermark as int, i as int);
            }
            i += 1;
            if expected == u64::MAX {
                // A run that reaches the final sequence number cannot
                // continue past it.
                proof {
                    assert(contiguous_len(self@.skip(i as int), watermark + i) == 0);
                }
                return i;
            }
            expected += 1;
        }
    }

    /// Remove and return the oldest (lowest-sequence) entry.
    pub fn pop_front(&mut self) -> (r: Option<T>)
        requires
            old(self).inv(),
        ensures
            final(self).inv(),
            final(self).cap() == old(self).cap(),
            old(self)@.len() == 0 ==> r is None && final(self)@ == old(self)@,
            old(self)@.len() > 0 ==> r == Some(old(self)@[0].0) && final(self)@ == old(
                self,
            )@.drop_first(),
    {
        if self.entries.len() == 0 {
            return Option::None;
        }
        let (item, _stamp) = self.entries.remove(0);
        proof {
            assert(self@ =~= old(self)@.drop_first());
            let r = self@;
            assert forall|i: int, j: int| 0 <= i < j < r.len() implies key_of(#[trigger] r[i])
                < key_of(#[trigger] r[j]) by {
                assert(r[i] == old(self)@[i + 1] && r[j] == old(self)@[j + 1]);
            }
            assert forall|i: int| 0 <= i < r.len() implies (#[trigger] r[i])
                .0.sequence_spec() is Some by {
                assert(r[i] == old(self)@[i + 1]);
            }
        }
        Some(item)
    }

    /// Remove and return the entry that `probe` acknowledges: the one
    /// filed under `probe`'s acknowledgment key, if any.
    pub fn remove(&mut self, probe: &T) -> (r: Option<T>)
        requires
            old(self).inv(),
        ensures
            final(self).inv(),
            final(self).cap() == old(self).cap(),
            match probe.ack_spec() {
                Some(k) => {
                    let i = index_of_sequence(old(self)@, k);
                    if contains_sequence(old(self)@, k) {
                        r == Some(old(self)@[i].0) && final(self)@ == old(self)@.remove(i)
                    } else {
                        r is None && final(self)@ == old(self)@
                    }
                },
                Option::None => r is None && final(self)@ == old(self)@,
            },
    {
        let k = match probe.ack_target() {
            Some(k) => k,
            Option::None => {
                return Option::None;
            },
        };
        let ghost s0 = self@;
        let n = self.entries.len();
        let mut idx: usize = 0;
        loop
            invariant
                self == old(self),
                self@ == s0,
                n == s0.len(),
                0 <= idx <= n,
                keyed(s0),
                sorted_by_sequence(s0),
                forall|j: int| 0 <= j < idx ==> (#[trigger] s0[j]).0.sequence_spec() != Some(k),
            ensures
                self == old(self),
                0 <= idx <= n,
                forall|j: int| 0 <= j < idx ==> (#[trigger] s0[j]).0.sequence_spec() != Some(k),
                idx < n ==> s0[idx as int].0.sequence_spec() == Some(k),
            decreases n - idx,
        {
            if idx >= n {
                break ;
            }
            let hit = match self.entries[idx].0.sequence_number() {
                Some(v) => v == k,
                Option::None => unreached(),
            };
            if hit {
                break ;
            }
            idx += 1;
        }
        if idx == n {
            proof {
                lemma_index_of_none(s0, k);
                if contains_sequence(s0, k) {
                    let w = choose|i: int|
                        0 <= i < s0.len() && (#[trigger] s0[i]).0.sequence_spec() == Some(k);
                    assert(s0[w].0.sequence_spec() != Some(k));
                }
            }
            return Option::None;
        }
        proof {
            assert(s0[idx as int].0.sequence_spec() == Some(k));
            assert(contains_sequence(s0, k));
            lemma_index_of_at(s0, k, idx as int);
        }
        let (item, _stamp) = self.entries.remove(idx);
        proof {
            let r = self@;
            assert forall|i: int, j: int| 0 <= i < j < r.len() implies key_of(#[trigger] r[i])
                < key_of(#[trigger] r[j]) by {
                let pi: int = if i < idx { i } else { i + 1 };
                let pj: int = if j < idx { j } else { j + 1 };
                assert(r[i] == s0[pi] && r[j] == s0[pj]);
            }
            assert forall|i: int| 0 <= i < r.len() implies (#[trigger] r[i])
                .0.sequence_spec() is Some by {
                let pi: int = if i < idx { i } else { i + 1 };
                assert(r[i] == s0[pi]);
            }
        }
        Some(item)
    }

    /// The positions of the entries whose last transmission is at least
    /// the retransmission timeout in the past, in increasing order.
    pub fn get_retransmit_indices(&self, now: u64) -> (r: Vec<usize>)
        ensures
            r@ == expired_indices(self@, now),
    {
        let len = self.entries.len();
        let mut r: Vec<usize> = Vec::new();
        let mut i: usize = 0;
        proof {
            assert(self@.take(0) =~= Seq::<(T, u64)>::empty());
        }
        while i < len
            invariant
                0 <= i <= len,
                len == self@.len(),
                r@ == expired_indices(self@.take(i as int), now),
            decreases len - i,
        {
            let stamp = self.entries[i].1;
            // `stamp + RETRANSMISSION_TIMEOUT_MS <= now`, tested without
            // overflowing.
            let due = now >= RETRANSMISSION_TIMEOUT_MS && stamp <= now - RETRANSMISSION_TIMEOUT_MS;
            proof {
                lemma_expired_indices_step(self@, now, i as int);
            }
            if due {
                r.push(i);
            }
            i += 1;
        }
        proof {
            assert(self@.take(len as int) =~= self@);
        }
        r
    }

    /// Replace the item at position `i` with one filed under the same
    /// sequence number, restamping it at `now`.
    pub fn replace_at(&mut self, i: usize, item: T, now: u64)
        requires
            old(self).inv(),
            i < old(self)@.len(),
            item.sequence_spec() == old(self)@[i as int].0.sequence_spec(),
        ensures
            final(self).inv(),
            final(self).cap() == old(self).cap(),
            final(self)@ == old(self)@.update(i as int, (item, now)),
    {
        let ghost s0 = self@;
        self.entries.set(i, (item, now));
        proof {
            let r = self@;
            assert forall|a: int, b: int| 0 <= a < b < r.len() implies key_of(#[trigger] r[a])
                < key_of(#[trigger] r[b]) by {
                assert(key_of(s0[a]) < key_of(s0[b]));
                assert(a != i ==> r[a] == s0[a]);
                assert(b != i ==> r[b] == s0[b]);
            }
            assert forall|a: int| 0 <= a < r.len() implies (#[trigger] r[a])
                .0.sequence_spec() is Some by {
                assert(a != i ==> r[a] == s0[a]);
            }
        }
    }

    /// Drop every entry; the capacity policy is kept.
    pub fn clear(&mut self)
        requires
            old(self).inv(),
        ensures
            final(self).inv(),
            final(self)@ == Seq::<(T, u64)>::empty(),
            final(self).cap() == old(self).cap(),
    {
        self.entries.clear();
    }
}

} // verus!
