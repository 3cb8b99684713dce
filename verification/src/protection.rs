//! Packet filters and replay protection.

use vstd::prelude::*;
use crate::packet::{Kind, MIN_PACKET, CHALLENGE_PACKET_BYTES};

verus! {

/// A filter that packet readers consult: whether a sequence was already
/// received, and whether a packet of a kind and length is allowed.
pub trait Protection: Sized {
    /// Whether the filter, as it stands, counts `seq` as a replay.
    spec fn replayed(&self, seq: u64) -> bool;

    /// `next` is the filter once it has been asked about `seq`.
    spec fn records(&self, seq: u64, next: Self) -> bool;

    /// Whether `seq` counts as a replay: the filter's answer for the state
    /// it was in; the filter then records `seq`.
    fn packet_already_received(&mut self, seq: u64) -> (r: bool)
        ensures
            r == old(self).replayed(seq),
            old(self).records(seq, *final(self)),
    ;

    /// Whether a packet of `kind`, `len` bytes and sequence `seq` may be
    /// read; unless a filter says otherwise, every one may.
    fn is_allowed(&mut self, kind: Kind, len: usize, seq: u64) -> (r: bool)
        default_ensures
            r,
    {
        true
    }
}

/// Lets every packet through.
pub struct NoFilter;

impl Protection for NoFilter {
    open spec fn replayed(&self, seq: u64) -> bool {
        false
    }

    open spec fn records(&self, seq: u64, next: Self) -> bool {
        next == *self
    }

    fn packet_already_received(&mut self, _seq: u64) -> (r: bool) {
        false
    }
}

/// Lets only challenge packets of the right length through.
pub struct ChallengeFilter;

impl Protection for ChallengeFilter {
    open spec fn replayed(&self, seq: u64) -> bool {
        false
    }

    open spec fn records(&self, seq: u64, next: Self) -> bool {
        next == *self
    }

    fn packet_already_received(&mut self, _seq: u64) -> (r: bool) {
        false
    }

    fn is_allowed(&mut self, kind: Kind, len: usize, seq: u64) -> (r: bool)
        ensures
            r == (kind == Kind::Challenge && len == CHALLENGE_PACKET_BYTES),
    {
        if kind == Kind::Challenge && len == CHALLENGE_PACKET_BYTES {
            return true;
        }
        false
    }
}

/// Lets only challenge packets and empty disconnect packets through.
pub struct ChallengeOrDisconnectFilter;

impl Protection for ChallengeOrDisconnectFilter {
    open spec fn replayed(&self, seq: u64) -> bool {
        false
    }

    open spec fn records(&self, seq: u64, next: Self) -> bool {
        next == *self
    }

    fn packet_already_received(&mut self, _seq: u64) -> (r: bool) {
        false
    }

    fn is_allowed(&mut self, kind: Kind, len: usize, seq: u64) -> (r: bool)
        ensures
            r == ((kind == Kind::Challenge && len == CHALLENGE_PACKET_BYTES) || (kind
                == Kind::Disconnect && len == MIN_PACKET)),
    {
        if kind == Kind::Challenge && len == CHALLENGE_PACKET_BYTES {
            return true;
        }
        if kind == Kind::Disconnect && len == MIN_PACKET {
            return true;
        }
        false
    }
}

/// Treats no packet as a replay.
pub struct NoProtection;

impl Protection for NoProtection {
    open spec fn replayed(&self, seq: u64) -> bool {
        false
    }

    open spec fn records(&self, seq: u64, next: Self) -> bool {
        next == *self
    }

    fn packet_already_received(&mut self, _seq: u64) -> (r: bool) {
        false
    }
}

/// Number of sequences the replay window remembers.
pub const WINDOW: u64 = 256;

/// Bit `j` of a byte buffer.
pub open spec fn byte_bit(bytes: Seq<u8>, j: int) -> bool {
    (bytes[j / 8] >> ((j % 8) as u8)) & 1 == 1
}

/// The window bits of a byte buffer.
pub open spec fn window_bits(bytes: Seq<u8>) -> Seq<bool> {
    Seq::new(WINDOW as nat, |j: int| byte_bit(bytes, j))
}

/// The window slots that moving the most recent sequence from `from` up
/// to `to` empties.
pub open spec fn skipped_slot(from: u64, to: u64, j: int) -> bool {
    to >= from + WINDOW || exists|q: int| from < q <= to && #[trigger] (q % (WINDOW as int)) == j
}

/// The replay state after receiving `s`: most recent sequence, window bits,
/// and whether `s` counts as already received.
pub open spec fn replay_step(seq: u64, bits: Seq<bool>, s: u64) -> (u64, Seq<bool>, bool) {
    if s + WINDOW <= seq {
        (seq, bits, true)
    } else {
        let (seq1, bits1) = if s > seq {
            (s, Seq::new(WINDOW as nat, |j: int| if skipped_slot(seq, s, j) { false } else { bits[j] }))
        } else {
            (seq, bits)
        };
        let i = (s % WINDOW) as int;
        if bits1[i] {
            (seq1, bits1, true)
        } else {
            (seq1, bits1.update(i, true), false)
        }
    }
}

proof fn lemma_set_byte_bit(b: u8, k: u8)
    requires
        k < 8,
    ensures
        forall|m: u8| m < 8 ==> (#[trigger] ((b | (1u8 << k)) >> m) & 1 == 1) == (m == k || (b >> m) & 1 == 1),
{
    assert(forall|m: u8| m < 8 ==> (#[trigger] ((b | (1u8 << k)) >> m) & 1 == 1) == (m == k || (b >> m) & 1 == 1))
        by (bit_vector)
        requires k < 8;
}

proof fn lemma_clear_byte_bit(b: u8, k: u8)
    requires
        k < 8,
    ensures
        forall|m: u8| m < 8 ==> (#[trigger] ((b & !(1u8 << k)) >> m) & 1 == 1) == (m != k && (b >> m) & 1 == 1),
{
    assert(forall|m: u8| m < 8 ==> (#[trigger] ((b & !(1u8 << k)) >> m) & 1 == 1) == (m != k && (b >> m) & 1 == 1))
        by (bit_vector)
        requires k < 8;
}

/// The window state `(seq, bits)` records exactly the sequences `got`:
/// none is newer than `seq`, and within the window a slot is set exactly
/// when its sequence was received.
pub open spec fn replay_records(seq: u64, bits: Seq<bool>, got: Set<u64>) -> bool {
    &&& bits.len() == WINDOW
    &&& forall|q: u64| #[trigger] got.contains(q) ==> q <= seq
    &&& forall|q: u64|
        q <= seq && q + WINDOW > seq ==> (#[trigger] bits[(q % WINDOW) as int] <==> got.contains(q))
}

/// A fresh window records nothing.
pub proof fn law_replay_fresh(bits: Seq<bool>)
    requires
        bits.len() == WINDOW,
        forall|j: int| 0 <= j < WINDOW ==> !#[trigger] bits[j],
    ensures
        replay_records(0, bits, Set::empty()),
{
}

/// Moving the most recent sequence up to `s` empties exactly the slots of
/// the sequences passed over, so the window still records `got`.
proof fn lemma_replay_advance(seq: u64, bits: Seq<bool>, got: Set<u64>, s: u64)
    requires
        replay_records(seq, bits, got),
        seq < s,
        s <= u64::MAX - WINDOW,
    ensures
        ({
            let bits1 = Seq::new(WINDOW as nat, |j: int| if skipped_slot(seq, s, j) { false } else { bits[j] });
            forall|q: u64| q <= s && q + WINDOW > s ==> (#[trigger] bits1[(q % WINDOW) as int] <==> got.contains(q))
        }),
{
    let bits1 = Seq::new(WINDOW as nat, |j: int| if skipped_slot(seq, s, j) { false } else { bits[j] });
    assert forall|q: u64| q <= s && q + WINDOW > s implies (#[trigger] bits1[(q % WINDOW) as int] <==> got.contains(q)) by {
        let j = (q % WINDOW) as int;
        if q > seq {
            assert(skipped_slot(seq, s, j));
            assert(!got.contains(q));
        } else {
            if skipped_slot(seq, s, j) {
                if s < seq + WINDOW {
                    let e = choose|e: int| seq < e <= s && #[trigger] (e % (WINDOW as int)) == j;
                    assert(false);
                }
            }
        }
    }
}

/// Replay protection answers "already received" exactly for sequences that
/// are too old for the window or were received before, and afterwards
/// records the new sequence as well.
pub proof fn law_replay_window(seq: u64, bits: Seq<bool>, got: Set<u64>, s: u64)
    requires
        replay_records(seq, bits, got),
        s <= u64::MAX - WINDOW,
        seq <= u64::MAX - WINDOW,
    ensures
        ({
            let (seq2, bits2, r) = replay_step(seq, bits, s);
            &&& r == (s + WINDOW <= seq || got.contains(s))
            &&& replay_records(seq2, bits2, if s + WINDOW <= seq { got } else { got.insert(s) })
        }),
{
    let (seq2, bits2, r) = replay_step(seq, bits, s);
    if s + WINDOW <= seq {
        assert(!got.contains(s) || s + WINDOW <= seq);
    } else {
        let i = (s % WINDOW) as int;
        let bits1 = if s > seq {
            Seq::new(WINDOW as nat, |j: int| if skipped_slot(seq, s, j) { false } else { bits[j] })
        } else {
            bits
        };
        let seq1 = if s > seq { s } else { seq };
        let got2 = got.insert(s);
        if s > seq {
            lemma_replay_advance(seq, bits, got, s);
        }
        assert(bits1[i] <==> got.contains(s));
        assert forall|q: u64| #[trigger] got2.contains(q) implies q <= seq2 by {}
        assert forall|q: u64| q <= seq2 && q + WINDOW > seq2 implies (#[trigger] bits2[(q % WINDOW) as int]
            <==> got2.contains(q)) by {
            if q % WINDOW == s % WINDOW {
                assert(q == s);
            }
        }
    }
}

/// Remembers which of the most recent `WINDOW` sequences were received.
pub struct ReplayProtection {
    received: Vec<u8>,
    seq: u64,
}

impl ReplayProtection {
    /// The most recent sequence received.
    pub closed spec fn recent(&self) -> u64 {
        self.seq
    }

    /// One flag per window slot: the slot's sequence was received.
    pub closed spec fn bits(&self) -> Seq<bool> {
        window_bits(self.received@)
    }

    /// The bit storage has its size, and the most recent sequence leaves
    /// room for a window above it.
    pub closed spec fn wf(&self) -> bool {
        &&& self.received@.len() == 256
        &&& self.seq <= u64::MAX - WINDOW
    }

    /// A well-formed window has one flag per slot and room above its most
    /// recent sequence.
    pub proof fn lemma_wf(&self)
        requires
            self.wf(),
        ensures
            self.bits().len() == WINDOW,
            self.recent() <= u64::MAX - WINDOW,
    {
    }

    pub fn new() -> (r: Self)
        ensures
            r.wf(),
            r.recent() == 0,
            forall|j: int| 0 <= j < WINDOW ==> !#[trigger] r.bits()[j],
    {
        let mut received: Vec<u8> = Vec::new();
        let mut i: usize = 0;
        while i < 256
            invariant
                i <= 256,
                received@.len() == i,
                forall|j: int| 0 <= j < i ==> received@[j] == 0,
            decreases 256 - i,
        {
            received.push(0);
            i = i + 1;
        }
        assert forall|j: int| 0 <= j < WINDOW implies !#[trigger] window_bits(received@)[j] by {
            let b = received@[j / 8];
            assert(b == 0);
            let k = (j % 8) as u8;
            assert((0u8 >> k) & 1 != 1) by (bit_vector);
        }
        Self { seq: 0, received }
    }

    /// The most recent sequence received.
    pub fn most_recent_sequence(&self) -> (r: u64)
        ensures
            r == self.recent(),
    {
        self.seq
    }

    /// Forgets everything.
    pub fn reset(&mut self)
        ensures
            final(self).wf(),
            final(self).recent() == 0,
            forall|j: int| 0 <= j < WINDOW ==> !#[trigger] final(self).bits()[j],
    {
        *self = Self::new();
    }

    fn get_bit(&self, bit: usize) -> (r: bool)
        requires
            self.wf(),
            bit < WINDOW,
        ensures
            r == self.bits()[bit as int],
    {
        assert(bit >> 3 == bit / 8 && (bit & 7) == bit % 8) by (bit_vector);
        let b = self.received[bit >> 3];
        let k = (bit & 7) as u8;
        (b >> k) & 1 == 1
    }

    fn set_bit(&mut self, bit: usize, value: bool)
        requires
            old(self).wf(),
            bit < WINDOW,
        ensures
            final(self).wf(),
            final(self).recent() == old(self).recent(),
            final(self).bits() == old(self).bits().update(bit as int, value),
    {
        assert(bit >> 3 == bit / 8 && (bit & 7) == bit % 8) by (bit_vector);
        let idx = bit >> 3;
        let k = (bit & 7) as u8;
        let b = self.received[idx];
        let nb = if value { b | (1u8 << k) } else { b & !(1u8 << k) };
        proof {
            lemma_set_byte_bit(b, k);
            lemma_clear_byte_bit(b, k);
        }
        let ghost old_bytes = self.received@;
        self.received.set(idx, nb);
        assert forall|j: int| 0 <= j < WINDOW implies #[trigger] window_bits(self.received@)[j]
            == old(self).bits().update(bit as int, value)[j] by {
            let m = (j % 8) as u8;
            if j / 8 == idx as int {
                assert(((nb >> m) & 1 == 1) == (if m == k { value } else { (b >> m) & 1 == 1 }));
                assert(m == k <==> j == bit);
            } else {
                assert(j != bit);
            }
        }
        assert(window_bits(self.received@) =~= old(self).bits().update(bit as int, value));
    }

    /// Records `seq` and says whether it counts as already received: it is
    /// too old for the window, or it was received before.
    pub fn packet_already_received(&mut self, seq: u64) -> (r: bool)
        requires
            old(self).wf(),
            seq <= u64::MAX - WINDOW,
        ensures
            final(self).wf(),
            (final(self).recent(), final(self).bits(), r) == replay_step(old(self).recent(), old(self).bits(), seq),
    {
        let len: u64 = WINDOW;
        if seq + len <= self.seq {
            return true;
        }
        if seq > self.seq {
            let ghost before = self.bits();
            assert(before.len() == WINDOW);
            let from = self.seq;
            if seq >= from + len {
                *self = Self::new();
                assert forall|j: int| 0 <= j < WINDOW implies #[trigger] self.bits()[j] == (if skipped_slot(
                    from, seq, j) { false } else { before[j] }) by {}
            } else {
                let mut q: u64 = from + 1;
                while q <= seq
                    invariant
                        self.wf(),
                        seq <= u64::MAX - WINDOW,
                        before.len() == WINDOW,
                        from < q <= seq + 1,
                        seq < from + len,
                        len == WINDOW,
                        forall|j: int| 0 <= j < WINDOW ==> #[trigger] self.bits()[j] == (if exists|e: int|
                            from < e < q && #[trigger] (e % (WINDOW as int)) == j { false } else { before[j] }),
                    decreases seq + 1 - q,
                {
                    let ghost prev = self.bits();
                    self.set_bit((q % len) as usize, false);
                    assert forall|j: int| 0 <= j < WINDOW implies #[trigger] self.bits()[j] == (if exists|e: int|
                        from < e < q + 1 && #[trigger] (e % (WINDOW as int)) == j { false } else { before[j] }) by {
                        if j == (q % len) as int {
                            assert(q as int % (WINDOW as int) == j);
                        } else if exists|e: int| from < e < q + 1 && #[trigger] (e % (WINDOW as int)) == j {
                            let e = choose|e: int| from < e < q + 1 && #[trigger] (e % (WINDOW as int)) == j;
                            assert(e != q);
                        }
                    }
                    q = q + 1;
                }
                assert forall|j: int| 0 <= j < WINDOW implies #[trigger] self.bits()[j] == (if skipped_slot(
                    from, seq, j) { false } else { before[j] }) by {
                    if exists|e: int| from < e < q && #[trigger] (e % (WINDOW as int)) == j {
                        let e = choose|e: int| from < e < q && #[trigger] (e % (WINDOW as int)) == j;
                        assert(skipped_slot(from, seq, j));
                    }
                }
            }
            let ghost target = Seq::new(WINDOW as nat, |j: int| if skipped_slot(from, seq, j) { false } else { before[j] });
            assert forall|j: int| 0 <= j < WINDOW implies #[trigger] self.bits()[j] == target[j] by {}
            assert(self.bits() =~= target);
            self.seq = seq;
        }
        let index = (seq % len) as usize;
        if self.get_bit(index) {
            true
        } else {
            self.set_bit(index, true);
            false
        }
    }
}

impl Default for ReplayProtection {
    fn default() -> (r: Self)
        ensures
            r.wf(),
            r.recent() == 0,
            forall|j: int| 0 <= j < WINDOW ==> !#[trigger] r.bits()[j],
    {
        Self::new()
    }
}

impl Protection for ReplayProtection {
    /// As the inherent method's answer; a sequence within `WINDOW` of
    /// `u64::MAX`, where the window arithmetic would overflow, counts as a
    /// replay.
    open spec fn replayed(&self, seq: u64) -> bool {
        if self.wf() && seq <= u64::MAX - WINDOW {
            replay_step(self.recent(), self.bits(), seq).2
        } else {
            true
        }
    }

    /// A sequence in range moves the window as `replay_step` says; any other
    /// leaves it.
    open spec fn records(&self, seq: u64, next: Self) -> bool {
        if self.wf() && seq <= u64::MAX - WINDOW {
            let (s2, b2, _) = replay_step(self.recent(), self.bits(), seq);
            next.wf() && next.recent() == s2 && next.bits() == b2
        } else {
            next == *self
        }
    }

    /// As the inherent method; a sequence within `WINDOW` of `u64::MAX`
    /// counts as already received and leaves the window.
    fn packet_already_received(&mut self, seq: u64) -> (r: bool)
        ensures
            ({
                let in_range = old(self).wf() && seq <= u64::MAX - WINDOW;
                &&& in_range ==> final(self).wf() && (final(self).recent(), final(self).bits(), r) == replay_step(
                    old(self).recent(),
                    old(self).bits(),
                    seq,
                )
                &&& !in_range ==> r && *final(self) == *old(self)
            }),
    {
        if self.received.len() == 256 && seq <= u64::MAX - WINDOW && self.seq <= u64::MAX - WINDOW {
            ReplayProtection::packet_already_received(self, seq)
        } else {
            true
        }
    }
}

/// A sequence that the window took is a replay the next time: asking
/// twice about one sequence answers "already received" the second time.
pub proof fn law_replay_twice(rp: ReplayProtection, next: ReplayProtection, seq: u64)
    requires
        rp.wf(),
        seq <= u64::MAX - WINDOW,
        !rp.replayed(seq),
        rp.records(seq, next),
    ensures
        next.replayed(seq),
{
    rp.lemma_wf();
    let (s2, b2, seen) = replay_step(rp.recent(), rp.bits(), seq);
    let i = (seq % WINDOW) as int;
    if seq > rp.recent() {
        assert(s2 == seq);
    } else {
        assert(s2 == rp.recent());
    }
    assert(b2[i]);
}

} // verus!
