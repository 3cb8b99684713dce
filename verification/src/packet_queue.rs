//! A bounded first-in first-out queue of received payloads, kept in a
//! ring of entries, and a pool that recycles such queues.

use vstd::prelude::*;
use crate::encrypted::copy_range;
use crate::netcode::MAX_PAYLOAD_BYTES;

verus! {

/// How many packets a queue holds at most.
pub const DEFAULT_PACKET_QUEUE_SIZE: usize = 256;

/// The number of slots in a queue's ring: one more than it holds.
pub const RING: usize = 257;

/// One stored packet: its sequence and its bytes.
pub struct Entry {
    sequence: u64,
    data: Vec<u8>,
}

/// What an entry holds: its sequence and its bytes.
pub open spec fn truncated(src: Seq<u8>) -> Seq<u8> {
    if src.len() <= MAX_PAYLOAD_BYTES {
        src
    } else {
        src.subrange(0, MAX_PAYLOAD_BYTES as int)
    }
}

impl View for Entry {
    type V = (u64, Seq<u8>);

    closed spec fn view(&self) -> (u64, Seq<u8>) {
        (self.sequence, self.data@)
    }
}

impl Entry {
    /// An empty entry with sequence zero.
    pub fn new() -> (r: Self)
        ensures
            r@ == (0u64, Seq::<u8>::empty()),
    {
        Entry { sequence: 0, data: Vec::new() }
    }

    /// Stores `sequence` and as much of `src` as fits in a payload.
    pub fn store_data(&mut self, sequence: u64, src: &[u8])
        ensures
            final(self)@ == (sequence, truncated(src@)),
    {
        let len = if src.len() < MAX_PAYLOAD_BYTES { src.len() } else { MAX_PAYLOAD_BYTES };
        self.sequence = sequence;
        self.data = copy_range(src, 0, len);
        assert(self.data@ =~= truncated(src@));
    }

    /// The stored sequence and bytes.
    pub fn load_data(&self) -> (r: (u64, Vec<u8>))
        ensures
            (r.0, r.1@) == self@,
    {
        (self.sequence, copy_range(self.data.as_slice(), 0, self.data.len()))
    }
}

/// The number of packets between `tail` and `head` in the ring.
pub open spec fn ring_count(head: int, tail: int) -> int {
    if head >= tail {
        head - tail
    } else {
        head + RING - tail
    }
}

/// The ring slot of the `i`-th packet counted from `tail`.
pub open spec fn ring_slot(tail: int, i: int) -> int {
    if tail + i < RING {
        tail + i
    } else {
        tail + i - RING
    }
}

/// A queue of packets, oldest first.
pub struct PacketQueue {
    buf: Vec<Entry>,
    head: usize,
    tail: usize,
}

impl View for PacketQueue {
    type V = Seq<(u64, Seq<u8>)>;

    closed spec fn view(&self) -> Seq<(u64, Seq<u8>)> {
        Seq::new(
            ring_count(self.head as int, self.tail as int) as nat,
            |i: int| self.buf@[ring_slot(self.tail as int, i)]@,
        )
    }
}

impl PacketQueue {
    /// The ring has its size and both ends lie in it.
    pub closed spec fn wf(&self) -> bool {
        &&& self.buf@.len() == RING
        &&& self.head < RING
        &&& self.tail < RING
    }

    /// The ring slot that the next pushed packet takes.
    pub closed spec fn head_index(&self) -> int {
        self.head as int
    }

    /// The ring slot of the oldest queued packet.
    pub closed spec fn tail_index(&self) -> int {
        self.tail as int
    }

    /// The queued packets wrap around the end of the ring.
    pub open spec fn wrapped(&self) -> bool {
        self.head_index() < self.tail_index()
    }

    proof fn lemma_len(&self)
        requires
            self.wf(),
        ensures
            self@.len() <= DEFAULT_PACKET_QUEUE_SIZE,
            self@.len() == 0 <==> self.head == self.tail,
            self@.len() == DEFAULT_PACKET_QUEUE_SIZE <==> (if self.head + 1 == RING { 0 } else { self.head + 1 })
                == self.tail,
    {
    }

    /// An empty queue.
    pub fn new() -> (r: Self)
        ensures
            r.wf(),
            r@ == Seq::<(u64, Seq<u8>)>::empty(),
            r.head_index() == 0 && r.tail_index() == 0,
    {
        let mut buf: Vec<Entry> = Vec::new();
        let mut i: usize = 0;
        while i < RING
            invariant
                i <= RING,
                buf@.len() == i,
            decreases RING - i,
        {
            buf.push(Entry::new());
            i = i + 1;
        }
        let q = PacketQueue { buf, head: 0, tail: 0 };
        assert(q@ =~= Seq::<(u64, Seq<u8>)>::empty());
        q
    }

    /// Drops every queued packet.
    pub fn clear(&mut self)
        requires
            old(self).wf(),
        ensures
            final(self).wf(),
            final(self)@ == Seq::<(u64, Seq<u8>)>::empty(),
            final(self).head_index() == 0 && final(self).tail_index() == 0,
    {
        self.head = 0;
        self.tail = 0;
        assert(self@ =~= Seq::<(u64, Seq<u8>)>::empty());
    }

    /// Whether no packet is queued.
    pub fn is_empty(&self) -> (r: bool)
        requires
            self.wf(),
        ensures
            r == (self@.len() == 0),
    {
        proof { self.lemma_len(); }
        self.head == self.tail
    }

    /// Whether the queue holds as many packets as it can.
    pub fn is_full(&self) -> (r: bool)
        requires
            self.wf(),
        ensures
            r == (self@.len() == DEFAULT_PACKET_QUEUE_SIZE),
    {
        proof { self.lemma_len(); }
        let next = (self.head + 1) % self.buf.len();
        next == self.tail
    }

    /// The number of queued packets while they do not wrap around the end
    /// of the ring; once they do, `DEFAULT_PACKET_QUEUE_SIZE` less that
    /// number.
    pub fn len(&self) -> (r: usize)
        requires
            self.wf(),
        ensures
            !self.wrapped() ==> r == self@.len(),
            self.wrapped() ==> r == DEFAULT_PACKET_QUEUE_SIZE - self@.len(),
    {
        if self.head > self.tail {
            self.head - self.tail
        } else {
            (self.tail - self.head).saturating_sub(1)
        }
    }

    /// Appends a packet of at most a payload's size; fails, changing
    /// nothing, when the queue is full.
    pub fn push(&mut self, sequence: u64, data: &[u8]) -> (r: bool)
        requires
            old(self).wf(),
            data@.len() <= MAX_PAYLOAD_BYTES,
        ensures
            final(self).wf(),
            r == (old(self)@.len() < DEFAULT_PACKET_QUEUE_SIZE),
            r ==> final(self)@ == old(self)@.push((sequence, data@)),
            !r ==> final(self)@ == old(self)@,
            final(self).tail_index() == old(self).tail_index(),
            final(self).head_index() == if r { (old(self).head_index() + 1) % RING as int } else { old(self).head_index() },
    {
        self.push_truncated(sequence, data)
    }

    /// Appends a packet, cut to a payload's size; fails, changing nothing,
    /// when the queue is full.
    pub fn push_truncated(&mut self, sequence: u64, data: &[u8]) -> (r: bool)
        requires
            old(self).wf(),
        ensures
            final(self).wf(),
            r == (old(self)@.len() < DEFAULT_PACKET_QUEUE_SIZE),
            r ==> final(self)@ == old(self)@.push((sequence, truncated(data@))),
            !r ==> final(self)@ == old(self)@,
            final(self).tail_index() == old(self).tail_index(),
            final(self).head_index() == if r { (old(self).head_index() + 1) % RING as int } else { old(self).head_index() },
    {
        proof { self.lemma_len(); }
        let next = (self.head + 1) % self.buf.len();
        if next == self.tail {
            false
        } else {
            let ghost before = self@;
            let idx = self.head;
            let mut e = Entry::new();
            e.store_data(sequence, data);
            self.buf.set(idx, e);
            self.head = next;
            assert(self@ =~= before.push((sequence, truncated(data@)))) by {
                assert forall|i: int| 0 <= i < before.len() implies #[trigger] self@[i] == before[i] by {
                    assert(ring_slot(self.tail as int, i) != idx as int);
                }
                assert(ring_slot(self.tail as int, before.len() as int) == idx as int);
            }
            true
        }
    }

    /// Takes the oldest packet off the queue: its sequence and bytes, or
    /// `None` when the queue is empty.
    pub fn pop(&mut self) -> (r: Option<(u64, Vec<u8>)>)
        requires
            old(self).wf(),
        ensures
            final(self).wf(),
            old(self)@.len() == 0 ==> r is None && final(self)@ == old(self)@,
            old(self)@.len() > 0 ==> r is Some && (r.unwrap().0, r.unwrap().1@) == old(self)@[0] && final(self)@
                == old(self)@.drop_first(),
            final(self).head_index() == old(self).head_index(),
            final(self).tail_index() == if old(self)@.len() > 0 { (old(self).tail_index() + 1) % RING as int } else {
                old(self).tail_index()
            },
    {
        proof { self.lemma_len(); }
        if self.head == self.tail {
            None
        } else {
            let ghost before = self@;
            let next = (self.tail + 1) % self.buf.len();
            let idx = self.tail;
            self.tail = next;
            assert(ring_slot(idx as int, 0) == idx as int);
            let r = self.buf[idx].load_data();
            assert(self@ =~= before.drop_first()) by {
                assert forall|i: int| 0 <= i < self@.len() implies #[trigger] self@[i] == before[i + 1] by {
                    assert(ring_slot(self.tail as int, i) == ring_slot(idx as int, i + 1));
                }
            }
            Some(r)
        }
    }
}

/// Spare queues, handed out again before new ones are made.
pub struct PacketQueuePool(Vec<PacketQueue>);

impl PacketQueuePool {
    /// Every spare queue is well formed.
    pub closed spec fn wf(&self) -> bool {
        forall|i: int| 0 <= i < self.0@.len() ==> #[trigger] self.0@[i].wf()
    }

    /// The spare queues, the most recently stored last.
    pub closed spec fn spares(&self) -> Seq<PacketQueue> {
        self.0@
    }

    /// A pool with no spare queue.
    pub fn new() -> (r: Self)
        ensures
            r.wf(),
            r.spares().len() == 0,
    {
        PacketQueuePool(Vec::new())
    }

    /// The most recently stored spare queue, or a new empty one when there
    /// is none.
    pub fn spawn(&mut self) -> (r: PacketQueue)
        requires
            old(self).wf(),
        ensures
            final(self).wf(),
            r.wf(),
            old(self).spares().len() == 0 ==> final(self).spares().len() == 0 && r@ == Seq::<(u64, Seq<u8>)>::empty(),
            old(self).spares().len() > 0 ==> final(self).spares() == old(self).spares().drop_last() && r
                == old(self).spares().last(),
    {
        match self.0.pop() {
            Some(q) => q,
            None => PacketQueue::new(),
        }
    }

    /// Keeps a queue for later.
    pub fn store(&mut self, q: PacketQueue)
        requires
            old(self).wf(),
            q.wf(),
        ensures
            final(self).wf(),
            final(self).spares() == old(self).spares().push(q),
    {
        self.0.push(q);
    }
}

} // verus!
