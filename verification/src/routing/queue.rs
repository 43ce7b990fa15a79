//! Queues for store and forward: three queues, one for each priority,
//! with a bound on their length and a back-off between attempts.
//!
//! Time is given by the caller: the monotonic clock in milliseconds for
//! the back-off, the wall clock for the life of a packet.

use crate::packet::{forwardable, Packet, PacketView, Priority};
use crate::time::Timestamp;
use std::collections::VecDeque;
use vstd::prelude::*;

verus! {

/// Most packets that one queue holds.
pub const MAX_QUEUE_SIZE_PER_PRIORITY: usize = 100;

/// Most attempts to send one packet.
pub const MAX_RETRY_ATTEMPTS: u8 = 3;

/// Milliseconds to wait after the first attempt; the wait doubles with
/// every attempt.
pub const RETRY_BASE_DELAY_MS: u64 = 5000;

/// Milliseconds to wait before the next attempt, after `retry_count`
/// attempts: the base delay times two to the power of `retry_count`.
pub open spec fn backoff_ms(retry_count: u8) -> int
    decreases retry_count,
{
    if retry_count == 0 {
        RETRY_BASE_DELAY_MS as int
    } else {
        2 * backoff_ms((retry_count - 1) as u8)
    }
}

/// A packet that waits to be sent.
#[derive(Debug)]
pub struct QueuedPacket {
    /// The packet.
    pub packet: Packet,
    /// Attempts made so far.
    pub retry_count: u8,
    /// Monotonic time of the last attempt, in milliseconds.
    pub last_attempt: Option<u64>,
    /// The peer to send to, where one is known.
    pub target_peer: Option<String>,
}

/// A waiting packet as a mathematical value.
pub struct QueuedPacketView {
    pub packet: PacketView,
    pub retry_count: u8,
    pub last_attempt: Option<u64>,
    pub target_peer: Option<Seq<char>>,
}

/// The text behind an optional string.
pub open spec fn opt_text_view(t: Option<String>) -> Option<Seq<char>> {
    match t {
        Some(s) => Some(s@),
        None => None,
    }
}

impl View for QueuedPacket {
    type V = QueuedPacketView;

    open spec fn view(&self) -> QueuedPacketView {
        QueuedPacketView {
            packet: self.packet@,
            retry_count: self.retry_count,
            last_attempt: self.last_attempt,
            target_peer: opt_text_view(self.target_peer),
        }
    }
}

impl Clone for QueuedPacket {
    fn clone(&self) -> (r: Self)
        ensures
            r@ == self@,
    {
        QueuedPacket {
            packet: self.packet.clone(),
            retry_count: self.retry_count,
            last_attempt: self.last_attempt,
            target_peer: match &self.target_peer {
                Some(t) => Some(t.clone()),
                None => None,
            },
        }
    }
}

/// Whether a waiting packet may be tried at the monotonic time `now`:
/// fewer than three attempts were made, and the back-off since the last
/// one has passed.
pub open spec fn retry_ready(q: QueuedPacketView, now: u64) -> bool {
    q.retry_count < MAX_RETRY_ATTEMPTS && match q.last_attempt {
        None => true,
        Some(last) => now >= last && now - last >= backoff_ms(q.retry_count),
    }
}

/// A waiting packet after an attempt at the monotonic time `now`.
pub open spec fn after_attempt(q: QueuedPacketView, now: u64) -> QueuedPacketView {
    QueuedPacketView {
        retry_count: if q.retry_count == u8::MAX {
            u8::MAX
        } else {
            (q.retry_count + 1) as u8
        },
        last_attempt: Some(now),
        ..q
    }
}

/// What becomes of a waiting packet that was tried once at the monotonic
/// time `now`: nothing waits where it was sent or where that was its third
/// attempt; else it waits again with the attempt recorded.
pub open spec fn settled(q: QueuedPacketView, sent: bool, now: u64) -> Option<QueuedPacketView> {
    if sent || after_attempt(q, now).retry_count >= MAX_RETRY_ATTEMPTS {
        None
    } else {
        Some(after_attempt(q, now))
    }
}

/// Whether a waiting packet is due: it may be tried and may still go on.
pub open spec fn due(q: QueuedPacketView, mono: u64, wall: Timestamp) -> bool {
    retry_ready(q, mono) && forwardable(q.packet, wall)
}

/// After an attempt a packet may not be tried again before the back-off
/// for its new count of attempts has passed; from then on it may, as long
/// as fewer than three attempts were made.
pub proof fn lemma_backoff_after_attempt(q: QueuedPacketView, at: u64, now: u64)
    ensures
        now < at + backoff_ms(after_attempt(q, at).retry_count) ==> !retry_ready(
            after_attempt(q, at),
            now,
        ),
        now >= at + backoff_ms(after_attempt(q, at).retry_count) ==> (retry_ready(
            after_attempt(q, at),
            now,
        ) <==> after_attempt(q, at).retry_count < MAX_RETRY_ATTEMPTS),
        backoff_ms(after_attempt(q, at).retry_count) > 0,
{
    lemma_backoff_positive(after_attempt(q, at).retry_count);
}

/// The back-off is never zero.
pub proof fn lemma_backoff_positive(n: u8)
    ensures
        backoff_ms(n) >= RETRY_BASE_DELAY_MS,
    decreases n,
{
    if n > 0 {
        lemma_backoff_positive((n - 1) as u8);
    }
}

impl QueuedPacket {
    /// A packet that waits for its first attempt.
    pub fn new(packet: Packet, target_peer: Option<String>) -> (q: QueuedPacket)
        ensures
            q@ == (QueuedPacketView {
                packet: packet@,
                retry_count: 0,
                last_attempt: None,
                target_peer: opt_text_view(target_peer),
            }),
    {
        QueuedPacket { packet, retry_count: 0, last_attempt: None, target_peer }
    }

    /// Whether the packet may be tried at the monotonic time `now`.
    pub fn can_retry(&self, now: u64) -> (r: bool)
        ensures
            r == retry_ready(self@, now),
    {
        if self.retry_count >= MAX_RETRY_ATTEMPTS {
            return false;
        }
        match self.last_attempt {
            None => true,
            Some(last) => {
                if now < last {
                    return false;
                }
                let mut wait: u64 = RETRY_BASE_DELAY_MS;
                let mut i: u8 = 0;
                while i < self.retry_count
                    invariant
                        i <= self.retry_count < MAX_RETRY_ATTEMPTS,
                        wait == backoff_ms(i),
                        wait <= RETRY_BASE_DELAY_MS * 4,
                    decreases self.retry_count - i,
                {
                    proof {
                        reveal_with_fuel(backoff_ms, 4);
                    }
                    wait = wait * 2;
                    i = i + 1;
                }
                now - last >= wait
            },
        }
    }

    /// Records an attempt at the monotonic time `now`.
    pub fn mark_attempt(&mut self, now: u64)
        ensures
            final(self)@ == after_attempt(old(self)@, now),
    {
        if self.retry_count < u8::MAX {
            self.retry_count = self.retry_count + 1;
        }
        self.last_attempt = Some(now);
    }

    /// Whether the packet may no longer go on at `now`.
    pub fn is_expired(&self, now: &Timestamp) -> (r: bool)
        ensures
            r == !forwardable(self@.packet, *now),
    {
        !self.packet.can_be_forwarded(now)
    }

    /// Whether the packet is due.
    pub fn is_due(&self, mono: u64, wall: &Timestamp) -> (r: bool)
        ensures
            r == due(self@, mono, *wall),
    {
        self.can_retry(mono) && !self.is_expired(wall)
    }
}

/// The waiting packets of a queue as mathematical values.
pub open spec fn queue_view(v: Seq<QueuedPacket>) -> Seq<QueuedPacketView> {
    Seq::new(v.len(), |i: int| v[i]@)
}

/// The packets of `s` that may still go on at `wall`, in their order.
pub open spec fn alive(s: Seq<QueuedPacketView>, wall: Timestamp) -> Seq<QueuedPacketView>
    decreases s.len(),
{
    if s.len() == 0 {
        s
    } else if forwardable(s.last().packet, wall) {
        alive(s.drop_last(), wall).push(s.last())
    } else {
        alive(s.drop_last(), wall)
    }
}

/// The place of the first packet of `s` that is due, where one is.
pub open spec fn first_due(s: Seq<QueuedPacketView>, mono: u64, wall: Timestamp) -> Option<int>
    decreases s.len(),
{
    if s.len() == 0 {
        None
    } else {
        match first_due(s.drop_last(), mono, wall) {
            Some(i) => Some(i),
            None => if due(s.last(), mono, wall) {
                Some(s.len() - 1)
            } else {
                None
            },
        }
    }
}

/// The first due packet is due, stands in the queue, and no packet
/// before it is due; where there is none, no packet is due.
pub proof fn lemma_first_due(s: Seq<QueuedPacketView>, mono: u64, wall: Timestamp)
    ensures
        match first_due(s, mono, wall) {
            Some(i) => 0 <= i < s.len() && due(s[i], mono, wall) && forall|j: int|
                0 <= j < i ==> !due(#[trigger] s[j], mono, wall),
            None => forall|j: int| 0 <= j < s.len() ==> !due(#[trigger] s[j], mono, wall),
        },
    decreases s.len(),
{
    if s.len() > 0 {
        lemma_first_due(s.drop_last(), mono, wall);
        assert forall|j: int| 0 <= j < s.len() - 1 implies s.drop_last()[j] == s[j] by {}
    }
}

/// What is kept is alive, was in the queue, and is no longer than it.
pub proof fn lemma_alive(s: Seq<QueuedPacketView>, wall: Timestamp)
    ensures
        alive(s, wall).len() <= s.len(),
        forall|i: int|
            0 <= i < alive(s, wall).len() ==> forwardable(
                (#[trigger] alive(s, wall)[i]).packet,
                wall,
            ) && s.contains(alive(s, wall)[i]),
        (forall|i: int| 0 <= i < s.len() ==> forwardable((#[trigger] s[i]).packet, wall))
            ==> alive(s, wall) == s,
    decreases s.len(),
{
    if s.len() > 0 {
        let t = s.drop_last();
        lemma_alive(t, wall);
        assert forall|i: int| 0 <= i < alive(s, wall).len() implies forwardable(
            (#[trigger] alive(s, wall)[i]).packet,
            wall,
        ) && s.contains(alive(s, wall)[i]) by {
            if i < alive(t, wall).len() {
                let x = alive(t, wall)[i];
                assert(t.contains(x));
                let k = choose|k: int| 0 <= k < t.len() && t[k] == x;
                assert(s[k] == x);
            } else {
                assert(s[s.len() - 1] == s.last());
            }
        }
        if forall|i: int| 0 <= i < s.len() ==> forwardable((#[trigger] s[i]).packet, wall) {
            assert forall|i: int| 0 <= i < t.len() implies forwardable(
                (#[trigger] t[i]).packet,
                wall,
            ) by {
                assert(t[i] == s[i]);
            }
            assert(alive(s, wall) =~= s);
        }
    }
}

/// Removing the expired twice removes nothing the second time.
pub proof fn lemma_alive_idempotent(s: Seq<QueuedPacketView>, wall: Timestamp)
    ensures
        alive(alive(s, wall), wall) == alive(s, wall),
{
    lemma_alive(s, wall);
    lemma_alive(alive(s, wall), wall);
}

/// The counts of the three queues.
#[derive(Clone, Copy, Debug, Default, PartialEq, Eq, Structural)]
pub struct QueueStats {
    pub high_priority_count: usize,
    pub medium_priority_count: usize,
    pub low_priority_count: usize,
}

/// Why a queue refuses.
#[derive(Clone, Copy, Debug, PartialEq, Eq, Structural)]
pub enum QueueError {
    /// There is no queue for the priority.
    InvalidPriority,
    /// The queue is full.
    QueueFull,
}

impl QueueError {
    /// The error in words.
    pub open spec fn words(self) -> Seq<char> {
        match self {
            QueueError::InvalidPriority => "Invalid priority"@,
            QueueError::QueueFull => "Queue full"@,
        }
    }

    /// The error in words, as a text.
    pub fn to_string(&self) -> (r: String)
        ensures
            r@ == self.words(),
    {
        match self {
            QueueError::InvalidPriority => "Invalid priority".to_string(),
            QueueError::QueueFull => "Queue full".to_string(),
        }
    }
}

/// The queues of the router.
pub struct DtnQueue {
    high: VecDeque<QueuedPacket>,
    medium: VecDeque<QueuedPacket>,
    low: VecDeque<QueuedPacket>,
}

/// Whether every packet of `s` has the priority `p`.
pub open spec fn all_of_priority(s: Seq<QueuedPacketView>, p: Priority) -> bool {
    forall|i: int| 0 <= i < s.len() ==> (#[trigger] s[i]).packet.priority == p
}

/// A queue after `q` was put at its end: the oldest packet leaves first
/// where the queue is full.
pub open spec fn pushed(s: Seq<QueuedPacketView>, q: QueuedPacketView) -> Seq<QueuedPacketView> {
    if s.len() >= MAX_QUEUE_SIZE_PER_PRIORITY {
        s.drop_first().push(q)
    } else {
        s.push(q)
    }
}

fn push_bounded(v: &mut VecDeque<QueuedPacket>, q: QueuedPacket)
    requires
        old(v)@.len() <= MAX_QUEUE_SIZE_PER_PRIORITY,
    ensures
        queue_view(final(v)@) == pushed(queue_view(old(v)@), q@),
        final(v)@.len() <= MAX_QUEUE_SIZE_PER_PRIORITY,
{
    if v.len() >= MAX_QUEUE_SIZE_PER_PRIORITY {
        let _ = v.pop_front();
        assert(v@ =~= old(v)@.drop_first());
    }
    v.push_back(q);
    assert(queue_view(v@) =~= pushed(queue_view(old(v)@), q@));
}

fn take_first_due(v: &mut VecDeque<QueuedPacket>, mono: u64, wall: &Timestamp) -> (r: Option<
    QueuedPacket,
>)
    ensures
        match first_due(queue_view(old(v)@), mono, *wall) {
            Some(i) => r matches Some(q) && q@ == queue_view(old(v)@)[i] && queue_view(final(v)@)
                == queue_view(old(v)@).remove(i),
            None => r is None && queue_view(final(v)@) == queue_view(old(v)@),
        },
        final(v)@.len() <= old(v)@.len(),
{
    let n = v.len();
    let ghost s = queue_view(v@);
    let mut i: usize = 0;
    while i < n
        invariant
            i <= n,
            n == v@.len(),
            v@ == old(v)@,
            s == queue_view(v@),
            first_due(s.take(i as int), mono, *wall) is None,
        decreases n - i,
    {
        assert(s.take(i + 1).drop_last() =~= s.take(i as int));
        assert(s.take(i + 1).last() == s[i as int]);
        if v[i].is_due(mono, wall) {
            assert(first_due(s.take(i + 1), mono, *wall) == Some(i as int));
            proof {
                lemma_first_due_prefix(s, i + 1, mono, *wall);
            }
            let q = v.remove(i);
            assert(queue_view(v@) =~= s.remove(i as int));
            return q;
        }
        i = i + 1;
    }
    assert(s.take(n as int) =~= s);
    None
}

/// A due packet that was found in a prefix of the queue is the first due
/// packet of the whole queue.
proof fn lemma_first_due_prefix(s: Seq<QueuedPacketView>, n: int, mono: u64, wall: Timestamp)
    requires
        0 <= n <= s.len(),
        first_due(s.take(n), mono, wall) is Some,
    ensures
        first_due(s, mono, wall) == first_due(s.take(n), mono, wall),
    decreases s.len() - n,
{
    if n < s.len() {
        assert(s.take(n + 1).drop_last() =~= s.take(n));
        lemma_first_due_prefix(s, n + 1, mono, wall);
    } else {
        assert(s.take(n) =~= s);
    }
}

fn keep_alive(v: &mut VecDeque<QueuedPacket>, wall: &Timestamp) -> (removed: usize)
    ensures
        queue_view(final(v)@) == alive(queue_view(old(v)@), *wall),
        removed == old(v)@.len() - final(v)@.len(),
        final(v)@.len() <= old(v)@.len(),
{
    let mut old_items: VecDeque<QueuedPacket> = VecDeque::new();
    std::mem::swap(v, &mut old_items);
    let ghost s = queue_view(old_items@);
    let n = old_items.len();
    let mut i: usize = 0;
    assert(queue_view(v@) =~= alive(s.take(0), *wall));
    while i < n
        invariant
            i <= n,
            n == old_items@.len(),
            s == queue_view(old_items@),
            queue_view(v@) == alive(s.take(i as int), *wall),
            v@.len() <= i,
        decreases n - i,
    {
        assert(s.take(i + 1).drop_last() =~= s.take(i as int));
        assert(s.take(i + 1).last() == s[i as int]);
        if !old_items[i].is_expired(wall) {
            let item = old_items[i].clone();
            v.push_back(item);
            assert(queue_view(v@) =~= alive(s.take(i as int), *wall).push(s[i as int]));
        }
        i = i + 1;
    }
    assert(s.take(n as int) =~= s);
    n - v.len()
}

impl DtnQueue {
    /// The queue of the high priority, oldest first.
    pub closed spec fn high(self) -> Seq<QueuedPacketView> {
        queue_view(self.high@)
    }

    /// The queue of the medium priority, oldest first.
    pub closed spec fn medium(self) -> Seq<QueuedPacketView> {
        queue_view(self.medium@)
    }

    /// The queue of the low priority, oldest first.
    pub closed spec fn low(self) -> Seq<QueuedPacketView> {
        queue_view(self.low@)
    }

    /// The queue of the priority `p`, oldest first.
    pub open spec fn of(self, p: Priority) -> Seq<QueuedPacketView> {
        match p {
            Priority::High => self.high(),
            Priority::Medium => self.medium(),
            Priority::Low => self.low(),
        }
    }

    /// Every queue holds at most 100 packets, all of its own priority.
    pub open spec fn wf(self) -> bool {
        &&& self.high().len() <= MAX_QUEUE_SIZE_PER_PRIORITY
        &&& self.medium().len() <= MAX_QUEUE_SIZE_PER_PRIORITY
        &&& self.low().len() <= MAX_QUEUE_SIZE_PER_PRIORITY
        &&& all_of_priority(self.high(), Priority::High)
        &&& all_of_priority(self.medium(), Priority::Medium)
        &&& all_of_priority(self.low(), Priority::Low)
    }

    /// The number of packets in all queues.
    pub open spec fn total(self) -> int {
        (self.high().len() + self.medium().len() + self.low().len()) as int
    }

    /// Three empty queues.
    pub fn new() -> (q: DtnQueue)
        ensures
            q.wf(),
            q.high().len() == 0,
            q.medium().len() == 0,
            q.low().len() == 0,
    {
        DtnQueue { high: VecDeque::new(), medium: VecDeque::new(), low: VecDeque::new() }
    }

    /// Puts a packet at the end of the queue of its priority. Where that
    /// queue holds 100 packets, its oldest packet is dropped to make room.
    pub fn enqueue(&mut self, queued_packet: QueuedPacket) -> (r: Result<(), QueueError>)
        requires
            old(self).wf(),
        ensures
            r is Ok,
            final(self).wf(),
            final(self).of(queued_packet@.packet.priority) == pushed(
                old(self).of(queued_packet@.packet.priority),
                queued_packet@,
            ),
            forall|p: Priority|
                p != queued_packet@.packet.priority ==> final(self).of(p) == old(self).of(p),
    {
        let ghost qv = queued_packet@;
        match queued_packet.packet.priority {
            Priority::High => {
                push_bounded(&mut self.high, queued_packet);
            },
            Priority::Medium => {
                push_bounded(&mut self.medium, queued_packet);
            },
            Priority::Low => {
                push_bounded(&mut self.low, queued_packet);
            },
        }
        Ok(())
    }

    /// Settles a packet that was taken from the queue and tried once at
    /// the monotonic time `mono`: a packet that was sent is done with; a
    /// packet that was not sent has the attempt recorded and waits again at
    /// the end of its queue, unless that was its third attempt.
    pub fn settle(&mut self, queued: QueuedPacket, sent: bool, mono: u64)
        requires
            old(self).wf(),
        ensures
            final(self).wf(),
            match settled(queued@, sent, mono) {
                Some(q) => {
                    &&& final(self).of(q.packet.priority) == pushed(
                        old(self).of(q.packet.priority),
                        q,
                    )
                    &&& forall|p: Priority|
                        p != q.packet.priority ==> final(self).of(p) == old(self).of(p)
                },
                None => forall|p: Priority| final(self).of(p) == old(self).of(p),
            },
    {
        if sent {
            return ;
        }
        let mut queued = queued;
        queued.mark_attempt(mono);
        if queued.retry_count < MAX_RETRY_ATTEMPTS {
            let _ = self.enqueue(queued);
        }
    }

    /// What `dequeue_ready` takes: the priority and the place of the
    /// first due packet of the highest priority that has one.
    pub open spec fn next_due(self, mono: u64, wall: Timestamp) -> Option<(Priority, int)> {
        match first_due(self.high(), mono, wall) {
            Some(i) => Some((Priority::High, i)),
            None => match first_due(self.medium(), mono, wall) {
                Some(i) => Some((Priority::Medium, i)),
                None => match first_due(self.low(), mono, wall) {
                    Some(i) => Some((Priority::Low, i)),
                    None => None,
                },
            },
        }
    }

    /// Takes out the next packet to send: the queues are searched from
    /// high to low, each from its oldest packet, for the first packet that
    /// may be tried now and may still go on.
    pub fn dequeue_ready(&mut self, mono: u64, wall: &Timestamp) -> (r: Option<QueuedPacket>)
        requires
            old(self).wf(),
        ensures
            final(self).wf(),
            match old(self).next_due(mono, *wall) {
                Some((p, i)) => {
                    &&& r matches Some(q)
                    &&& q@ == old(self).of(p)[i]
                    &&& q@.packet.priority == p
                    &&& due(q@, mono, *wall)
                    &&& final(self).of(p) == old(self).of(p).remove(i)
                    &&& forall|o: Priority| o != p ==> final(self).of(o) == old(self).of(o)
                    &&& final(self).total() == old(self).total() - 1
                },
                None => {
                    &&& r is None
                    &&& forall|o: Priority| final(self).of(o) == old(self).of(o)
                },
            },
    {
        proof {
            lemma_first_due(self.high(), mono, *wall);
            lemma_first_due(self.medium(), mono, *wall);
            lemma_first_due(self.low(), mono, *wall);
        }
        match take_first_due(&mut self.high, mono, wall) {
            Some(q) => {
                return Some(q);
            },
            None => {},
        }
        match take_first_due(&mut self.medium, mono, wall) {
            Some(q) => {
                return Some(q);
            },
            None => {},
        }
        take_first_due(&mut self.low, mono, wall)
    }

    /// Removes the packets that may no longer go on at `wall`, and says
    /// how many they were. What stays keeps its order.
    pub fn cleanup_expired(&mut self, wall: &Timestamp) -> (removed: usize)
        requires
            old(self).wf(),
        ensures
            final(self).wf(),
            forall|p: Priority| final(self).of(p) == alive(old(self).of(p), *wall),
            removed == old(self).total() - final(self).total(),
    {
        proof {
            lemma_alive(self.high(), *wall);
            lemma_alive(self.medium(), *wall);
            lemma_alive(self.low(), *wall);
        }
        let a = keep_alive(&mut self.high, wall);
        let b = keep_alive(&mut self.medium, wall);
        let c = keep_alive(&mut self.low, wall);
        proof {
            assert forall|i: int| 0 <= i < self.high().len() implies (
            #[trigger] self.high()[i]).packet.priority == Priority::High by {
                let x = self.high()[i];
                assert(old(self).high().contains(x));
            }
            assert forall|i: int| 0 <= i < self.medium().len() implies (
            #[trigger] self.medium()[i]).packet.priority == Priority::Medium by {
                let x = self.medium()[i];
                assert(old(self).medium().contains(x));
            }
            assert forall|i: int| 0 <= i < self.low().len() implies (
            #[trigger] self.low()[i]).packet.priority == Priority::Low by {
                let x = self.low()[i];
                assert(old(self).low().contains(x));
            }
        }
        a + b + c
    }

    /// How many packets wait in each queue.
    pub fn stats(&self) -> (s: QueueStats)
        ensures
            s.high_priority_count == self.high().len(),
            s.medium_priority_count == self.medium().len(),
            s.low_priority_count == self.low().len(),
    {
        QueueStats {
            high_priority_count: self.high.len(),
            medium_priority_count: self.medium.len(),
            low_priority_count: self.low.len(),
        }
    }

    /// How many packets wait in all.
    pub fn total_count(&self) -> (n: usize)
        requires
            self.wf(),
        ensures
            n == self.total(),
    {
        self.high.len() + self.medium.len() + self.low.len()
    }
}

/// What `dequeue_ready` takes outranks whatever is due: no packet of a
/// higher priority is due, and none that is due stands before it in its
/// own queue.
pub proof fn lemma_next_due_is_first(q: DtnQueue, mono: u64, wall: Timestamp)
    requires
        q.wf(),
    ensures
        match q.next_due(mono, wall) {
            Some((p, i)) => {
                &&& 0 <= i < q.of(p).len()
                &&& due(q.of(p)[i], mono, wall)
                &&& forall|j: int| 0 <= j < i ==> !due(#[trigger] q.of(p)[j], mono, wall)
                &&& p != Priority::High ==> forall|j: int|
                    0 <= j < q.high().len() ==> !due(#[trigger] q.high()[j], mono, wall)
                &&& p == Priority::Low ==> forall|j: int|
                    0 <= j < q.medium().len() ==> !due(#[trigger] q.medium()[j], mono, wall)
            },
            None => forall|o: Priority, j: int|
                0 <= j < q.of(o).len() ==> !due(#[trigger] q.of(o)[j], mono, wall),
        },
{
    lemma_first_due(q.high(), mono, wall);
    lemma_first_due(q.medium(), mono, wall);
    lemma_first_due(q.low(), mono, wall);
}

/// The number of packets of `s` that are due.
pub open spec fn due_count(s: Seq<QueuedPacketView>, mono: u64, wall: Timestamp) -> nat
    decreases s.len(),
{
    if s.len() == 0 {
        0
    } else if due(s.last(), mono, wall) {
        due_count(s.drop_last(), mono, wall) + 1
    } else {
        due_count(s.drop_last(), mono, wall)
    }
}

/// Taking a packet out leaves no more due packets than there were, and
/// one fewer where the packet was due.
pub proof fn lemma_due_count_remove(s: Seq<QueuedPacketView>, i: int, mono: u64, wall: Timestamp)
    requires
        0 <= i < s.len(),
    ensures
        due_count(s.remove(i), mono, wall) + (if due(s[i], mono, wall) {
            1nat
        } else {
            0nat
        }) == due_count(s, mono, wall),
    decreases s.len(),
{
    if i == s.len() - 1 {
        assert(s.remove(i) =~= s.drop_last());
    } else {
        assert(s.remove(i).drop_last() =~= s.drop_last().remove(i));
        assert(s.remove(i).last() == s.last());
        lemma_due_count_remove(s.drop_last(), i, mono, wall);
    }
}

/// Putting a packet that is not due into a queue adds no due packet.
pub proof fn lemma_due_count_pushed(
    s: Seq<QueuedPacketView>,
    q: QueuedPacketView,
    mono: u64,
    wall: Timestamp,
)
    requires
        !due(q, mono, wall),
    ensures
        due_count(pushed(s, q), mono, wall) <= due_count(s, mono, wall),
{
    if s.len() >= MAX_QUEUE_SIZE_PER_PRIORITY {
        assert(s.drop_first() =~= s.remove(0));
        lemma_due_count_remove(s, 0, mono, wall);
        assert(s.drop_first().push(q).drop_last() =~= s.drop_first());
    } else {
        assert(s.push(q).drop_last() =~= s);
    }
}

/// Where no packet is due, none is counted, and the other way round.
pub proof fn lemma_due_count_zero(s: Seq<QueuedPacketView>, mono: u64, wall: Timestamp)
    ensures
        due_count(s, mono, wall) == 0 <==> first_due(s, mono, wall) is None,
    decreases s.len(),
{
    if s.len() > 0 {
        lemma_due_count_zero(s.drop_last(), mono, wall);
    }
}

impl DtnQueue {
    /// The number of packets in all queues that are due.
    pub open spec fn due_total(self, mono: u64, wall: Timestamp) -> nat {
        due_count(self.high(), mono, wall) + due_count(self.medium(), mono, wall) + due_count(
            self.low(),
            mono,
            wall,
        )
    }
}

/// No more packets are due than there are.
pub proof fn lemma_due_count_le_len(s: Seq<QueuedPacketView>, mono: u64, wall: Timestamp)
    ensures
        due_count(s, mono, wall) <= s.len(),
    decreases s.len(),
{
    if s.len() > 0 {
        lemma_due_count_le_len(s.drop_last(), mono, wall);
    }
}

/// Where no packet is due, none is due among those that are kept.
pub proof fn lemma_alive_keeps_none_due(s: Seq<QueuedPacketView>, mono: u64, wall: Timestamp)
    requires
        first_due(s, mono, wall) is None,
    ensures
        first_due(alive(s, wall), mono, wall) is None,
{
    lemma_first_due(s, mono, wall);
    lemma_alive(s, wall);
    lemma_first_due(alive(s, wall), mono, wall);
    let a = alive(s, wall);
    if first_due(a, mono, wall) is Some {
        let i = first_due(a, mono, wall)->0;
        assert(s.contains(a[i]));
        let k = choose|k: int| 0 <= k < s.len() && s[k] == a[i];
        assert(!due(s[k], mono, wall));
    }
}

/// The packets of `s` that are not due, in their order.
pub open spec fn staying(s: Seq<QueuedPacketView>, mono: u64, wall: Timestamp) -> Seq<
    QueuedPacketView,
>
    decreases s.len(),
{
    if s.len() == 0 {
        s
    } else if due(s.last(), mono, wall) {
        staying(s.drop_last(), mono, wall)
    } else {
        staying(s.drop_last(), mono, wall).push(s.last())
    }
}

/// What waits again of the due packets of `s` after each was tried once
/// at `mono`, in their order, for the outcomes of the attempts in their
/// order.
pub open spec fn returning(s: Seq<QueuedPacketView>, outs: Seq<bool>, mono: u64, wall: Timestamp)
    -> Seq<QueuedPacketView>
    decreases s.len(),
{
    if s.len() == 0 {
        Seq::<QueuedPacketView>::empty()
    } else if due(s.last(), mono, wall) && outs.len() > 0 {
        let before = returning(s.drop_last(), outs.drop_last(), mono, wall);
        match settled(s.last(), outs.last(), mono) {
            Some(q) => before.push(q),
            None => before,
        }
    } else {
        returning(s.drop_last(), outs, mono, wall)
    }
}

/// How many of the attempts were sent.
pub open spec fn sent_among(outs: Seq<bool>) -> nat
    decreases outs.len(),
{
    if outs.len() == 0 {
        0
    } else if outs.last() {
        sent_among(outs.drop_last()) + 1
    } else {
        sent_among(outs.drop_last())
    }
}

/// A queue after its due packets were tried once at `mono`, with the
/// outcomes `outs` in the order of the packets, and those that have
/// outlived their time at `wall` were removed: the packets that were not
/// due stay in their order, and behind them wait those that were not sent
/// and may be tried again, in their order.
pub open spec fn worked(s: Seq<QueuedPacketView>, outs: Seq<bool>, mono: u64, wall: Timestamp)
    -> Seq<QueuedPacketView> {
    alive(staying(s, mono, wall) + returning(s, outs, mono, wall), wall)
}

/// Whether `cur` is the queue `s` on the way: the due packets among the
/// first `c` were tried with the outcomes `outs`, the rest is untouched.
pub open spec fn midway(
    s: Seq<QueuedPacketView>,
    cur: Seq<QueuedPacketView>,
    c: int,
    outs: Seq<bool>,
    mono: u64,
    wall: Timestamp,
) -> bool {
    &&& 0 <= c <= s.len()
    &&& cur == staying(s.take(c), mono, wall) + s.skip(c) + returning(
        s.take(c),
        outs,
        mono,
        wall,
    )
    &&& outs.len() == due_count(s.take(c), mono, wall)
}

/// A queue with one more packet at its end, where one is given.
pub open spec fn with_back(s: Seq<QueuedPacketView>, q: Option<QueuedPacketView>) -> Seq<
    QueuedPacketView,
> {
    match q {
        Some(x) => s.push(x),
        None => s,
    }
}

proof fn lemma_quiet_stretch(
    s: Seq<QueuedPacketView>,
    c: int,
    d: int,
    outs: Seq<bool>,
    mono: u64,
    wall: Timestamp,
)
    requires
        0 <= c <= d <= s.len(),
        forall|j: int| c <= j < d ==> !due(#[trigger] s[j], mono, wall),
    ensures
        staying(s.take(d), mono, wall) == staying(s.take(c), mono, wall) + s.subrange(c, d),
        returning(s.take(d), outs, mono, wall) == returning(s.take(c), outs, mono, wall),
        due_count(s.take(d), mono, wall) == due_count(s.take(c), mono, wall),
    decreases d - c,
{
    if d > c {
        lemma_quiet_stretch(s, c, d - 1, outs, mono, wall);
        assert(s.take(d).drop_last() =~= s.take(d - 1));
        assert(s.take(d).last() == s[d - 1]);
        assert(s.subrange(c, d) =~= s.subrange(c, d - 1).push(s[d - 1]));
        assert(staying(s.take(d), mono, wall) =~= staying(s.take(c), mono, wall) + s.subrange(
            c,
            d,
        ));
    } else {
        assert(s.subrange(c, d) =~= Seq::<QueuedPacketView>::empty());
        assert(staying(s.take(c), mono, wall) + s.subrange(c, d) =~= staying(
            s.take(c),
            mono,
            wall,
        ));
    }
}

proof fn lemma_none_due(s: Seq<QueuedPacketView>, outs: Seq<bool>, mono: u64, wall: Timestamp)
    ensures
        forall|k: int|
            0 <= k < staying(s, mono, wall).len() ==> !due(
                #[trigger] staying(s, mono, wall)[k],
                mono,
                wall,
            ),
        forall|k: int|
            0 <= k < returning(s, outs, mono, wall).len() ==> !due(
                #[trigger] returning(s, outs, mono, wall)[k],
                mono,
                wall,
            ),
    decreases s.len(),
{
    if s.len() > 0 {
        let t = s.drop_last();
        lemma_none_due(t, outs, mono, wall);
        let kept = staying(s, mono, wall);
        assert forall|k: int| 0 <= k < kept.len() implies !due(#[trigger] kept[k], mono, wall) by {
            let before = staying(t, mono, wall);
            if k < before.len() {
                assert(kept[k] == before[k]);
            }
        }
        let back = returning(s, outs, mono, wall);
        if due(s.last(), mono, wall) && outs.len() > 0 {
            lemma_none_due(t, outs.drop_last(), mono, wall);
            let before = returning(t, outs.drop_last(), mono, wall);
            match settled(s.last(), outs.last(), mono) {
                Some(q) => {
                    lemma_backoff_positive(q.retry_count);
                    assert(!due(q, mono, wall));
                    assert(back == before.push(q));
                },
                None => {
                    assert(back == before);
                },
            }
            assert forall|k: int| 0 <= k < back.len() implies !due(
                #[trigger] back[k],
                mono,
                wall,
            ) by {
                if k < before.len() {
                    assert(back[k] == before[k]);
                }
            }
        } else {
            assert(back == returning(t, outs, mono, wall));
        }
    }
}

/// One step of the work: the first due packet of a queue on the way is
/// the next due packet of the queue; when it is taken out and what is left
/// of it after its attempt is put at the end, the queue is on the way one
/// packet further.
pub proof fn lemma_step(
    s: Seq<QueuedPacketView>,
    cur: Seq<QueuedPacketView>,
    c: int,
    outs: Seq<bool>,
    i: int,
    sent: bool,
    mono: u64,
    wall: Timestamp,
)
    requires
        midway(s, cur, c, outs, mono, wall),
        0 <= i < cur.len(),
        due(cur[i], mono, wall),
        forall|j: int| 0 <= j < i ==> !due(#[trigger] cur[j], mono, wall),
    ensures
        staying(s.take(c), mono, wall).len() <= i,
        midway(
            s,
            with_back(cur.remove(i), settled(cur[i], sent, mono)),
            c + (i - staying(s.take(c), mono, wall).len()) + 1,
            outs.push(sent),
            mono,
            wall,
        ),
{
    let a = staying(s.take(c), mono, wall);
    let b = s.skip(c);
    let t = returning(s.take(c), outs, mono, wall);
    lemma_none_due(s.take(c), outs, mono, wall);
    if i < a.len() {
        assert(cur[i] == a[i]);
    }
    if i >= a.len() + b.len() {
        assert(cur[i] == t[i - a.len() - b.len()]);
    }
    let j = i - a.len();
    assert(cur[i] == s[c + j]);
    assert forall|k: int| c <= k < c + j implies !due(#[trigger] s[k], mono, wall) by {
        assert(cur[a.len() + (k - c)] == s[k]);
    }
    lemma_quiet_stretch(s, c, c + j, outs.push(sent), mono, wall);
    lemma_quiet_stretch(s, c, c + j, outs, mono, wall);
    let c2 = c + j + 1;
    assert(s.take(c2).drop_last() =~= s.take(c + j));
    assert(s.take(c2).last() == s[c + j]);
    assert(outs.push(sent).drop_last() =~= outs);
    assert(outs.push(sent).last() == sent);
    let next = with_back(cur.remove(i), settled(cur[i], sent, mono));
    let a2 = staying(s.take(c2), mono, wall);
    let t2 = returning(s.take(c2), outs.push(sent), mono, wall);
    assert(a2 == a + s.subrange(c, c + j));
    assert(t2 == with_back(t, settled(s[c + j], sent, mono)));
    assert(cur.remove(i) =~= a + s.subrange(c, c + j) + s.skip(c2) + t);
    assert(next =~= a2 + s.skip(c2) + t2);
}

/// The end of the work: where no packet of a queue on the way is due, the
/// due packets of the queue were all tried.
pub proof fn lemma_done(
    s: Seq<QueuedPacketView>,
    cur: Seq<QueuedPacketView>,
    c: int,
    outs: Seq<bool>,
    mono: u64,
    wall: Timestamp,
)
    requires
        midway(s, cur, c, outs, mono, wall),
        forall|j: int| 0 <= j < cur.len() ==> !due(#[trigger] cur[j], mono, wall),
    ensures
        cur == staying(s, mono, wall) + returning(s, outs, mono, wall),
        outs.len() == due_count(s, mono, wall),
{
    let a = staying(s.take(c), mono, wall);
    assert forall|k: int| c <= k < s.len() implies !due(#[trigger] s[k], mono, wall) by {
        assert(cur[a.len() + (k - c)] == s[k]);
    }
    lemma_quiet_stretch(s, c, s.len() as int, outs, mono, wall);
    assert(s.take(s.len() as int) =~= s);
    assert(s.subrange(c, s.len() as int) =~= s.skip(c));
}

/// A queue is on the way before the work begins.
pub proof fn lemma_start(s: Seq<QueuedPacketView>, mono: u64, wall: Timestamp)
    ensures
        midway(s, s, 0, Seq::<bool>::empty(), mono, wall),
{
    assert(s.take(0) =~= Seq::<QueuedPacketView>::empty());
    assert(s.skip(0) =~= s);
    assert(staying(s.take(0), mono, wall) + s.skip(0) + returning(
        s.take(0),
        Seq::<bool>::empty(),
        mono,
        wall,
    ) =~= s);
}

} // verus!
