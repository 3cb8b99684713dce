//! Wrapping 16-bit sequence numbers and a ring buffer indexed by them.

use vstd::prelude::*;
use std::cmp::Ordering;
use vstd::std_specs::cmp::PartialOrdSpecImpl;
use vstd::std_specs::convert::FromSpecImpl;

verus! {

/// Half of the sequence space: a difference up to this counts as "ahead".
pub const HALF: u16 = 32767;

/// A 16-bit sequence number that wraps around.
#[derive(Debug, Default, Hash, Eq, PartialEq, Structural, Clone, Copy)]
pub struct Sequence(pub u16);

/// `a` is more recent than `b` in the wrapping sequence space: ahead by at
/// most `HALF`, or behind by more than `HALF`.
pub open spec fn seq_greater(a: u16, b: u16) -> bool {
    (a > b && a - b <= HALF) || (a < b && b - a > HALF)
}

/// The ordering that `Sequence` comparisons produce.
pub open spec fn seq_order(a: u16, b: u16) -> Ordering {
    if a == b {
        Ordering::Equal
    } else if seq_greater(a, b) {
        Ordering::Greater
    } else {
        Ordering::Less
    }
}

impl Sequence {
    /// The following sequence number (wrapping).
    pub fn next(self) -> (r: Self)
        ensures
            r.0 == (self.0 + 1) % 0x10000,
    {
        Sequence(self.0.wrapping_add(1))
    }

    /// The preceding sequence number (wrapping).
    pub fn prev(self) -> (r: Self)
        ensures
            r.0 == (self.0 - 1) % 0x10000,
    {
        Sequence(self.0.wrapping_sub(1))
    }
}

impl From<u16> for Sequence {
    fn from(v: u16) -> (r: Self) {
        Sequence(v)
    }
}

impl FromSpecImpl<u16> for Sequence {
    open spec fn obeys_from_spec() -> bool {
        true
    }

    open spec fn from_spec(v: u16) -> Self {
        Sequence(v)
    }
}

impl PartialOrd for Sequence {
    fn partial_cmp(&self, other: &Self) -> (r: Option<Ordering>) {
        if self.0 == other.0 {
            Some(Ordering::Equal)
        } else if (self.0 > other.0 && self.0 - other.0 <= HALF) || (self.0 < other.0 && other.0 - self.0 > HALF) {
            Some(Ordering::Greater)
        } else {
            Some(Ordering::Less)
        }
    }
}

impl PartialOrdSpecImpl for Sequence {
    open spec fn obeys_partial_cmp_spec() -> bool {
        true
    }

    open spec fn partial_cmp_spec(&self, other: &Self) -> Option<Ordering> {
        Some(seq_order(self.0, other.0))
    }
}


/// The order of sequences is total and antisymmetric: of two different
/// sequences exactly one is the more recent.
pub proof fn law_sequence_order(a: u16, b: u16)
    ensures
        seq_order(a, b) == Ordering::Equal <==> a == b,
        a != b ==> (seq_greater(a, b) <==> !seq_greater(b, a)),
        seq_order(a, b) == Ordering::Greater <==> seq_order(b, a) == Ordering::Less,
{
}

/// Bit `i` of `bits` is set.
pub open spec fn bit_set(bits: u32, i: u32) -> bool {
    (bits >> i) & 1 == 1
}

proof fn lemma_set_bit(b: u32, i: u32)
    requires
        i < 32,
        b < (1u32 << i),
    ensures
        forall|j: u32| j < i ==> (bit_set(b | (1u32 << i), j) <==> #[trigger] bit_set(b, j)),
        bit_set(b | (1u32 << i), i),
        (b | (1u32 << i)) < (1u64 << (i + 1)),
{
    assert(forall|j: u32| j < i ==> (bit_set(b | (1u32 << i), j) <==> #[trigger] bit_set(b, j)))
        by (bit_vector)
        requires i < 32, b < (1u32 << i);
    assert(bit_set(b | (1u32 << i), i)) by (bit_vector)
        requires i < 32;
    assert((b | (1u32 << i)) < (1u64 << (i + 1))) by (bit_vector)
        requires i < 32, b < (1u32 << i);
}

proof fn lemma_bound_grows(b: u32, i: u32)
    requires
        i < 32,
        b < (1u32 << i),
    ensures
        (b as u64) < (1u64 << (i + 1)),
        forall|j: u32| j < 32 && j >= i ==> !#[trigger] bit_set(b, j),
{
    assert((b as u64) < (1u64 << (i + 1))) by (bit_vector)
        requires i < 32, b < (1u32 << i);
    assert(forall|j: u32| j < 32 && j >= i ==> !#[trigger] bit_set(b, j)) by (bit_vector)
        requires i < 32, b < (1u32 << i);
}

/// A ring buffer of entries keyed by 16-bit sequence numbers; the entry for
/// sequence `s` lives in slot `s % capacity`.
pub struct SequenceBuffer<T> {
    entries: Vec<Option<(Sequence, T)>>,
    seq: Sequence,
}

/// The slots that `remove_entries(start, finish)` empties.
pub open spec fn removed_slot(start: u16, finish: u16, cap: int, j: int) -> bool {
    let f: int = if finish < start { finish + 65535 } else { finish as int };
    if f - start < cap {
        exists|d: int| 0 <= d <= f - start && #[trigger] ((start + d) % cap) == j
    } else {
        true
    }
}

/// The slots after `remove_entries(start, finish)`.
pub open spec fn after_remove<T>(slots: Seq<Option<(Sequence, T)>>, start: u16, finish: u16) -> Seq<
    Option<(Sequence, T)>,
> {
    Seq::new(
        slots.len(),
        |j: int|
            if removed_slot(start, finish, slots.len() as int, j) {
                None
            } else {
                slots[j]
            },
    )
}

impl<T> SequenceBuffer<T> {
    /// The slots of the buffer.
    pub closed spec fn slots(&self) -> Seq<Option<(Sequence, T)>> {
        self.entries@
    }

    /// The next sequence number expected (one past the most recent insert).
    pub closed spec fn head(&self) -> u16 {
        self.seq.0
    }

    /// The slot index of sequence `s`.
    pub open spec fn slot_of(&self, s: u16) -> int {
        s as int % self.slots().len() as int
    }

    /// The entry for sequence `s` is present.
    pub open spec fn holds(&self, s: u16) -> bool {
        self.slots()[self.slot_of(s)] matches Some(e) && e.0.0 == s
    }

    /// The oldest sequence number that `insert` still accepts.
    pub open spec fn oldest(&self) -> u16 {
        ((self.head() - (self.slots().len() % 0x10000)) % 0x10000) as u16
    }

    /// `insert` accepts sequence `s`.
    pub open spec fn accepts(&self, s: u16) -> bool {
        seq_order(s, self.oldest()) != Ordering::Less
    }

    /// The sequence that acknowledgements are relative to: the head minus one.
    pub open spec fn ack(&self) -> u16 {
        ((self.head() - 1) % 0x10000) as u16
    }

    /// The acknowledgement bits for the first `n` sequences below and
    /// including `ack()`: bit `i` is set when the entry for `ack() - i` is
    /// present.
    pub open spec fn ack_field(&self, n: nat) -> int
        decreases n,
    {
        if n == 0 {
            0
        } else {
            self.ack_field((n - 1) as nat) + if self.holds(((self.ack() - (n - 1)) % 0x10000) as u16) {
                (1u32 << ((n - 1) as u32)) as int
            } else {
                0
            }
        }
    }

    /// The head after `insert` accepts `seq`.
    pub open spec fn head_after_insert(&self, seq: u16) -> u16 {
        let nxt = ((seq + 1) % 0x10000) as u16;
        if seq_greater(nxt, self.head()) {
            nxt
        } else {
            self.head()
        }
    }

    /// The slots after `insert` accepts `seq` with `value`.
    pub open spec fn slots_after_insert(&self, seq: Sequence, value: T) -> Seq<Option<(Sequence, T)>> {
        let nxt = ((seq.0 + 1) % 0x10000) as u16;
        let cleared = if seq_greater(nxt, self.head()) {
            after_remove(self.slots(), self.head(), seq.0)
        } else {
            self.slots()
        };
        cleared.update(self.slot_of(seq.0), Some((seq, value)))
    }

    /// A buffer of `size` empty slots whose next sequence is 0.
    pub fn new(size: usize) -> (r: Self)
        ensures
            r.slots().len() == size,
            r.head() == 0,
            forall|j: int| 0 <= j < size ==> r.slots()[j] is None,
    {
        let mut entries: Vec<Option<(Sequence, T)>> = Vec::new();
        let mut i: usize = 0;
        while i < size
            invariant
                i <= size,
                entries@.len() == i,
                forall|j: int| 0 <= j < i ==> entries@[j] is None,
            decreases size - i,
        {
            entries.push(None);
            i = i + 1;
        }
        SequenceBuffer { seq: Sequence(0), entries }
    }

    /// The next sequence number expected.
    pub fn seq(&self) -> (r: Sequence)
        ensures
            r.0 == self.head(),
    {
        self.seq
    }

    /// The number of slots.
    pub fn capacity(&self) -> (r: usize)
        ensures
            r == self.slots().len(),
    {
        self.entries.len()
    }

    /// Empties every slot and restarts the sequence at 0.
    pub fn reset(&mut self)
        ensures
            final(self).slots().len() == old(self).slots().len(),
            final(self).head() == 0,
            forall|j: int| 0 <= j < final(self).slots().len() ==> final(self).slots()[j] is None,
    {
        self.seq = Sequence(0);
        let n = self.entries.len();
        let mut i: usize = 0;
        while i < n
            invariant
                i <= n,
                self.entries@.len() == n,
                self.seq.0 == 0,
                forall|j: int| 0 <= j < i ==> self.entries@[j] is None,
            decreases n - i,
        {
            self.entries.set(i, None);
            i = i + 1;
        }
    }

    /// Empties the slots of the sequences from `start` to `finish` (wrapping).
    pub fn remove_entries(&mut self, start: Sequence, finish: Sequence)
        requires
            old(self).slots().len() > 0,
        ensures
            final(self).slots() == after_remove(old(self).slots(), start.0, finish.0),
            final(self).head() == old(self).head(),
    {
        let count = self.entries.len();
        let s: usize = start.0 as usize;
        let f: usize = if finish.0 < start.0 { finish.0 as usize + 65535 } else { finish.0 as usize };
        let ghost old_slots = self.entries@;
        if f - s < count {
            let mut d: usize = 0;
            while d <= f - s
                invariant
                    count == self.entries@.len(),
                    count == old_slots.len(),
                    count > 0,
                    s == start.0,
                    f == (if finish.0 < start.0 { finish.0 + 65535 } else { finish.0 as int }),
                    s <= f,
                    f - s < count,
                    d <= f - s + 1,
                    self.seq == old(self).seq,
                    forall|j: int|
                        0 <= j < count ==> #[trigger] self.entries@[j] == (if exists|e: int|
                            0 <= e < d && #[trigger] ((s + e) % (count as int)) == j {
                            None
                        } else {
                            old_slots[j]
                        }),
                decreases f - s + 1 - d,
            {
                let idx = (s + d) % count;
                self.entries.set(idx, None);
                assert forall|j: int| 0 <= j < count implies #[trigger] self.entries@[j] == (if exists|e: int|
                    0 <= e < d + 1 && #[trigger] ((s + e) % (count as int)) == j {
                    None
                } else {
                    old_slots[j]
                }) by {
                    if j == idx {
                        assert((s + d) % (count as int) == j);
                    } else {
                        if exists|e: int| 0 <= e < d + 1 && #[trigger] ((s + e) % (count as int)) == j {
                            let e = choose|e: int| 0 <= e < d + 1 && #[trigger] ((s + e) % (count as int)) == j;
                            assert(e != d);
                        }
                    }
                }
                d = d + 1;
            }
        } else {
            let mut i: usize = 0;
            while i < count
                invariant
                    count == self.entries@.len(),
                    count == old_slots.len(),
                    self.seq == old(self).seq,
                    i <= count,
                    forall|j: int| 0 <= j < i ==> self.entries@[j] is None,
                decreases count - i,
            {
                self.entries.set(i, None);
                i = i + 1;
            }
        }
        assert(self.entries@ =~= after_remove(old_slots, start.0, finish.0));
    }

    /// Empties the same slots as `remove_entries`, handing each entry that
    /// leaves to `callback`.
    pub fn remove_entries_with<F: Fn((Sequence, T))>(&mut self, start: Sequence, finish: Sequence, callback: F)
        requires
            old(self).slots().len() > 0,
            forall|e: (Sequence, T)| callback.requires((e,)),
        ensures
            final(self).slots() == after_remove(old(self).slots(), start.0, finish.0),
            final(self).head() == old(self).head(),
    {
        let count = self.entries.len();
        let s: usize = start.0 as usize;
        let f: usize = if finish.0 < start.0 { finish.0 as usize + 65535 } else { finish.0 as usize };
        let ghost old_slots = self.entries@;
        if f - s < count {
            let mut d: usize = 0;
            while d <= f - s
                invariant
                    forall|e: (Sequence, T)| callback.requires((e,)),
                    count == self.entries@.len(),
                    count == old_slots.len(),
                    count > 0,
                    s == start.0,
                    f == (if finish.0 < start.0 { finish.0 + 65535 } else { finish.0 as int }),
                    s <= f,
                    f - s < count,
                    d <= f - s + 1,
                    self.seq == old(self).seq,
                    forall|j: int|
                        0 <= j < count ==> #[trigger] self.entries@[j] == (if exists|e: int|
                            0 <= e < d && #[trigger] ((s + e) % (count as int)) == j {
                            None
                        } else {
                            old_slots[j]
                        }),
                decreases f - s + 1 - d,
            {
                let idx = (s + d) % count;
                if let Some(e) = self.entries[idx].take() {
                    callback(e);
                }
                assert forall|j: int| 0 <= j < count implies #[trigger] self.entries@[j] == (if exists|e: int|
                    0 <= e < d + 1 && #[trigger] ((s + e) % (count as int)) == j {
                    None
                } else {
                    old_slots[j]
                }) by {
                    if j == idx {
                        assert((s + d) % (count as int) == j);
                    } else {
                        if exists|e: int| 0 <= e < d + 1 && #[trigger] ((s + e) % (count as int)) == j {
                            let e = choose|e: int| 0 <= e < d + 1 && #[trigger] ((s + e) % (count as int)) == j;
                            assert(e != d);
                        }
                    }
                }
                d = d + 1;
            }
        } else {
            let mut i: usize = 0;
            while i < count
                invariant
                    forall|e: (Sequence, T)| callback.requires((e,)),
                    count == self.entries@.len(),
                    count == old_slots.len(),
                    self.seq == old(self).seq,
                    i <= count,
                    forall|j: int| 0 <= j < i ==> self.entries@[j] is None,
                decreases count - i,
            {
                if let Some(e) = self.entries[i].take() {
                    callback(e);
                }
                i = i + 1;
            }
        }
        assert(self.entries@ =~= after_remove(old_slots, start.0, finish.0));
    }

    /// `insert` would accept sequence `seq`: it is not older than the
    /// buffer's window.
    pub fn test_insert(&self, seq: Sequence) -> (r: bool)
        ensures
            r == self.accepts(seq.0),
    {
        let c = self.entries.len();
        let cap: u16 = c as u16;
        assert(cap == c % 0x10000) by (bit_vector)
            requires cap == c as u16;
        let oldest = Sequence(self.seq.0.wrapping_sub(cap));
        seq >= oldest
    }

    /// Stores `value` under `seq` if the buffer accepts it; a newer sequence
    /// first empties the slots it skips over and moves the head past it.
    pub fn insert(&mut self, seq: Sequence, value: T) -> (r: bool)
        requires
            old(self).slots().len() > 0,
        ensures
            r == old(self).accepts(seq.0),
            !r ==> *final(self) == *old(self),
            r ==> final(self).head() == old(self).head_after_insert(seq.0),
            r ==> final(self).slots() == old(self).slots_after_insert(seq, value),
    {
        if self.test_insert(seq) {
            if seq.next() > self.seq {
                let start = self.seq;
                self.remove_entries(start, seq);
                self.seq = seq.next();
            }
            let index = seq.0 as usize % self.entries.len();
            self.entries.set(index, Some((seq, value)));
            true
        } else {
            false
        }
    }

    /// Fills the slot of `seq` with `seq` and the value that `f` makes, when
    /// the slot is empty; a slot that holds an entry, of whatever sequence,
    /// is left.
    pub fn create_if<F: FnOnce() -> T>(&mut self, seq: Sequence, f: F)
        requires
            old(self).slots().len() > 0,
            f.requires(()),
        ensures
            final(self).head() == old(self).head(),
            old(self).slots()[old(self).slot_of(seq.0)] is Some ==> *final(self) == *old(self),
            old(self).slots()[old(self).slot_of(seq.0)] is None ==> exists|v: T| #[trigger] f.ensures((), v)
                && final(self).slots() == old(self).slots().update(old(self).slot_of(seq.0), Some((seq, v))),
    {
        let index = seq.0 as usize % self.entries.len();
        let empty = self.entries[index].is_none();
        if empty {
            let v = f();
            self.entries.set(index, Some((seq, v)));
        }
    }

    /// Takes the entry out of the slot of `seq`, whatever sequence it holds.
    pub fn remove(&mut self, seq: Sequence) -> (r: Option<(Sequence, T)>)
        requires
            old(self).slots().len() > 0,
        ensures
            r == old(self).slots()[old(self).slot_of(seq.0)],
            final(self).slots() == old(self).slots().update(old(self).slot_of(seq.0), None),
            final(self).head() == old(self).head(),
    {
        let index = seq.0 as usize % self.entries.len();
        self.entries[index].take()
    }

    /// The slot of `seq` is empty.
    pub fn available(&self, seq: Sequence) -> (r: bool)
        requires
            self.slots().len() > 0,
        ensures
            r == self.slots()[self.slot_of(seq.0)] is None,
    {
        let index = seq.0 as usize % self.entries.len();
        self.entries[index].is_none()
    }

    /// The entry for `seq` is present.
    pub fn exists_entry(&self, seq: Sequence) -> (r: bool)
        requires
            self.slots().len() > 0,
        ensures
            r == self.holds(seq.0),
    {
        self.find(seq).is_some()
    }

    /// The value stored for `seq`, if its slot holds that sequence.
    pub fn find(&self, seq: Sequence) -> (r: Option<&T>)
        requires
            self.slots().len() > 0,
        ensures
            r is Some <==> self.holds(seq.0),
            r is Some ==> *r.unwrap() == self.slots()[self.slot_of(seq.0)].unwrap().1,
    {
        let index = seq.0 as usize % self.entries.len();
        match &self.entries[index] {
            Some(e) => {
                if e.0.0 == seq.0 {
                    Some(&e.1)
                } else {
                    None
                }
            },
            None => None,
        }
    }

    /// The value stored for `seq`, mutably, if its slot holds that sequence.
    pub fn find_mut(&mut self, seq: Sequence) -> (r: Option<&mut T>)
        requires
            old(self).slots().len() > 0,
        ensures
            r is Some <==> old(self).holds(seq.0),
            r is Some ==> *r.unwrap() == old(self).slots()[old(self).slot_of(seq.0)].unwrap().1,
            r is Some ==> final(self).slots() == old(self).slots().update(
                old(self).slot_of(seq.0),
                Some((seq, *final(r.unwrap()))),
            ),
            final(self).head() == old(self).head(),
            r is None ==> final(self).slots() == old(self).slots(),
    {
        let index = seq.0 as usize % self.entries.len();
        match self.entries[index].as_mut() {
            Some(e) => {
                if e.0.0 == seq.0 {
                    Some(&mut e.1)
                } else {
                    None
                }
            },
            None => None,
        }
    }

    /// The value in slot `index`, if that slot is filled.
    pub fn at(&self, index: usize) -> (r: Option<&T>)
        ensures
            r is Some <==> index < self.slots().len() && self.slots()[index as int] is Some,
            r is Some ==> *r.unwrap() == self.slots()[index as int].unwrap().1,
    {
        match self.get(index) {
            Some(e) => Some(&e.1),
            None => None,
        }
    }

    /// The entry in slot `index`, if that slot is filled.
    pub fn get(&self, index: usize) -> (r: Option<&(Sequence, T)>)
        ensures
            r is Some <==> index < self.slots().len() && self.slots()[index as int] is Some,
            r is Some ==> *r.unwrap() == self.slots()[index as int].unwrap(),
    {
        if index < self.entries.len() {
            self.entries[index].as_ref()
        } else {
            None
        }
    }

    /// The entry in slot `index`, mutably, if that slot is filled.
    pub fn get_mut(&mut self, index: usize) -> (r: Option<&mut (Sequence, T)>)
        ensures
            r is Some <==> index < old(self).slots().len() && old(self).slots()[index as int] is Some,
            r is Some ==> *r.unwrap() == old(self).slots()[index as int].unwrap(),
            r is Some ==> final(self).slots() == old(self).slots().update(index as int, Some(*final(r.unwrap()))),
            r is None ==> final(self).slots() == old(self).slots(),
            final(self).head() == old(self).head(),
    {
        if index < self.entries.len() {
            self.entries[index].as_mut()
        } else {
            None
        }
    }

    /// The value in slot `index`, mutably, if that slot is filled.
    pub fn at_mut(&mut self, index: usize) -> (r: Option<&mut T>)
        ensures
            r is Some <==> index < old(self).slots().len() && old(self).slots()[index as int] is Some,
            r is Some ==> *r.unwrap() == old(self).slots()[index as int].unwrap().1,
            r is Some ==> final(self).slots() == old(self).slots().update(
                index as int,
                Some((old(self).slots()[index as int].unwrap().0, *final(r.unwrap()))),
            ),
            r is None ==> final(self).slots() == old(self).slots(),
            final(self).head() == old(self).head(),
    {
        match self.get_mut(index) {
            Some(e) => Some(&mut e.1),
            None => None,
        }
    }

    /// The most recent sequence (the head minus one) and a bit field whose
    /// bit `i` says whether the entry for that sequence minus `i` is present.
    pub fn generate_ack_bits(&mut self) -> (r: (u16, u32))
        requires
            old(self).slots().len() > 0,
        ensures
            *final(self) == *old(self),
            r.0 == old(self).ack(),
            r.1 == old(self).ack_field(32),
            forall|i: u32|
                i < 32 ==> (#[trigger] bit_set(r.1, i) <==> old(self).holds(
                    ((r.0 - i) % 0x10000) as u16,
                )),
    {
        let ack = self.seq.prev().0;
        let mut ack_bits: u32 = 0;
        let mut i: u32 = 0;
        assert((0u32 as u64) < (1u64 << 0u32)) by (bit_vector);
        assert(forall|j: u32| j < 32 ==> !#[trigger] bit_set(0u32, j)) by (bit_vector);
        while i < 32
            invariant
                i <= 32,
                self.slots().len() > 0,
                ack == (self.head() - 1) % 0x10000,
                ack == self.ack(),
                ack_bits as int == self.ack_field(i as nat),
                (ack_bits as u64) < (1u64 << i),
                forall|j: u32|
                    j < i ==> (#[trigger] bit_set(ack_bits, j) <==> self.holds(
                        ((ack - j) % 0x10000) as u16,
                    )),
                forall|j: u32| j < 32 && j >= i ==> !#[trigger] bit_set(ack_bits, j),
            decreases 32 - i,
        {
            let s = Sequence(ack.wrapping_sub(i as u16));
            assert(s.0 == (ack - i) % 0x10000);
            assert(ack_bits < (1u32 << i)) by (bit_vector)
                requires (ack_bits as u64) < (1u64 << i), i < 32;
            let ghost old_bits = ack_bits;
            if self.exists_entry(s) {
                proof { lemma_set_bit(ack_bits, i); }
                assert((ack_bits | (1u32 << i)) as int == ack_bits as int + (1u32 << i) as int) by (bit_vector)
                    requires ack_bits < (1u32 << i), i < 32;
                ack_bits = ack_bits | (1u32 << i);
                assert(bit_set(ack_bits, i));
                assert forall|j: u32| j < i + 1 implies (#[trigger] bit_set(ack_bits, j) <==> self.holds(
                    ((ack - j) % 0x10000) as u16,
                )) by {
                    if j < i {
                        assert(bit_set(ack_bits, j) <==> bit_set(old_bits, j));
                    }
                }
                assert forall|j: u32| j < 32 && j >= i + 1 implies !#[trigger] bit_set(ack_bits, j) by {
                    let b = ack_bits;
                    assert(!bit_set(b, j)) by (bit_vector)
                        requires (b as u64) < (1u64 << (i + 1)), j >= i + 1, j < 32, i < 32;
                }
            } else {
                proof { lemma_bound_grows(ack_bits, i); }
                assert(!bit_set(ack_bits, i));
            }
            i = i + 1;
        }
        (ack, ack_bits)
    }
}

} // verus!
