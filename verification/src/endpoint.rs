//! A reliable endpoint. Sending gives each packet the next sequence and a
//! regular header that acknowledges what was received; a packet above the
//! fragmentation limit goes out as fragments. Receiving records the packets
//! that the application accepts, marks the sent packets that their headers
//! acknowledge, and puts fragmented packets back together.

use vstd::prelude::*;
use crate::bytes::{IoError, push_all};
use crate::reliable_io::{
    Error, Regular, Fragment, regular_bytes, fragment_bytes, parse_regular, parse_fragment,
};
use crate::seq::{Sequence, SequenceBuffer, bit_set};
use crate::reliable::{distance_below, seq_below};

verus! {

/// The largest regular datagram.
pub const MAX_PACKET_SIZE: usize = 1024;
/// The size of one fragment's data.
pub const FRAGMENT_SIZE: usize = 1024;
/// The number of slots of the sent and received packet buffers.
pub const BUFFER_SIZE: usize = 256;

/// Limits of an endpoint.
#[derive(Clone, Copy, Debug)]
pub struct Config {
    pub max_packet_size: usize,
    pub fragment_above: usize,
    pub max_fragments: u8,
    pub fragment_reassembly_buffer_size: usize,
    pub ack_buffer_size: usize,
    /// Bytes that the lower layers add to each packet (IP and UDP).
    pub packet_header_size: usize,
}

impl Default for Config {
    fn default() -> (r: Self)
        ensures
            r.max_packet_size == 16 * 1024,
            r.fragment_above == 1024,
            r.max_fragments == 16,
            r.fragment_reassembly_buffer_size == 64,
            r.ack_buffer_size == 256,
            r.packet_header_size == 28,
    {
        Config {
            max_packet_size: 16 * 1024,
            fragment_above: 1024,
            max_fragments: 16,
            fragment_reassembly_buffer_size: 64,
            ack_buffer_size: 256,
            packet_header_size: 28,
        }
    }
}

/// What the endpoint keeps of a sent packet.
#[derive(Clone, Copy, Debug, PartialEq, Eq, Structural)]
pub struct Sent {
    pub acked: bool,
    pub packet_bytes: u16,
}

/// What the endpoint keeps of a received packet.
#[derive(Clone, Copy, Debug, PartialEq, Eq, Structural)]
pub struct Recv {
    pub packet_bytes: u16,
}

/// A packet being put back together: which fragments arrived, and the data
/// of each, by fragment id.
pub struct Frag {
    pub have: Vec<bool>,
    pub parts: Vec<Vec<u8>>,
}

/// The contents of the pieces.
pub open spec fn chunks(parts: Seq<Vec<u8>>) -> Seq<Seq<u8>> {
    parts.map_values(|v: Vec<u8>| v@)
}

/// Reassembly of a packet of `total + 1` fragments before any arrives.
pub open spec fn fresh_model(total: u8) -> (Seq<bool>, Seq<Seq<u8>>) {
    (Seq::new(total as nat + 1, |i: int| false), Seq::new(total as nat + 1, |i: int| Seq::<u8>::empty()))
}

/// Reassembly after fragment `id` arrived with `data`.
pub open spec fn stored(m: (Seq<bool>, Seq<Seq<u8>>), id: int, data: Seq<u8>) -> (Seq<bool>, Seq<Seq<u8>>) {
    (m.0.update(id, true), m.1.update(id, data))
}

/// Every fragment has arrived.
pub open spec fn complete(have: Seq<bool>) -> bool {
    forall|i: int| 0 <= i < have.len() ==> have[i]
}

/// Reassembly after the fragments with the ids of `order` arrive, in that
/// order, fragment `i` bringing `pieces[i]`; one that arrived already is
/// refused.
pub open spec fn deliver(m: (Seq<bool>, Seq<Seq<u8>>), order: Seq<int>, pieces: Seq<Seq<u8>>) -> (
    Seq<bool>,
    Seq<Seq<u8>>,
)
    decreases order.len(),
{
    if order.len() == 0 {
        m
    } else {
        let prev = deliver(m, order.drop_last(), pieces);
        let id = order.last();
        if prev.0[id] {
            prev
        } else {
            stored(prev, id, pieces[id])
        }
    }
}

impl Frag {
    /// The arrived flags and the pieces.
    pub open spec fn model(&self) -> (Seq<bool>, Seq<Seq<u8>>) {
        (self.have@, chunks(self.parts@))
    }

    /// Reassembly of a packet of `total + 1` fragments, none arrived yet.
    pub fn new(total: u8) -> (r: Self)
        ensures
            r.model() == fresh_model(total),
    {
        let mut have: Vec<bool> = Vec::new();
        let mut parts: Vec<Vec<u8>> = Vec::new();
        let n: usize = total as usize + 1;
        let mut i: usize = 0;
        while i < n
            invariant
                i <= n,
                n == total as nat + 1,
                have@.len() == i,
                parts@.len() == i,
                forall|j: int| 0 <= j < i ==> !have@[j],
                forall|j: int| 0 <= j < i ==> parts@[j]@ == Seq::<u8>::empty(),
            decreases n - i,
        {
            have.push(false);
            parts.push(Vec::new());
            i = i + 1;
        }
        let r = Frag { have, parts };
        assert(r.model().0 =~= fresh_model(total).0);
        assert(r.model().1 =~= fresh_model(total).1);
        r
    }
}

proof fn lemma_deliver(total: u8, order: Seq<int>, pieces: Seq<Seq<u8>>)
    requires
        pieces.len() == total + 1,
        forall|k: int| 0 <= k < order.len() ==> 0 <= #[trigger] order[k] <= total,
    ensures
        ({
            let m = deliver(fresh_model(total), order, pieces);
            &&& m.0.len() == total + 1
            &&& m.1.len() == total + 1
            &&& forall|i: int| 0 <= i <= total ==> (m.0[i] <==> order.contains(i))
            &&& forall|i: int| 0 <= i <= total ==> #[trigger] m.1[i] == if m.0[i] {
                pieces[i]
            } else {
                Seq::<u8>::empty()
            }
        }),
    decreases order.len(),
{
    if order.len() > 0 {
        let rest = order.drop_last();
        assert forall|k: int| 0 <= k < rest.len() implies 0 <= #[trigger] rest[k] <= total by {
            assert(rest[k] == order[k]);
        }
        lemma_deliver(total, rest, pieces);
        let prev = deliver(fresh_model(total), rest, pieces);
        let id = order.last();
        assert(0 <= order[order.len() - 1] <= total);
        assert forall|i: int| 0 <= i <= total implies (order.contains(i) <==> (rest.contains(i) || i == id)) by {
            if order.contains(i) {
                let k = choose|k: int| 0 <= k < order.len() && order[k] == i;
                if k < order.len() - 1 {
                    assert(rest[k] == i);
                }
            }
            if rest.contains(i) {
                let k = choose|k: int| 0 <= k < rest.len() && rest[k] == i;
                assert(order[k] == i);
            }
            if i == id {
                assert(order[order.len() - 1] == i);
            }
        }
    } else {
        let m = fresh_model(total);
        assert forall|i: int| 0 <= i <= total implies (m.0[i] <==> order.contains(i)) by {}
    }
}

/// The fragments of a packet, delivered in any order and any number of
/// times, each at least once, give back every piece in its place, so that
/// the pieces join into the packet.
pub proof fn law_fragments_any_order(total: u8, order: Seq<int>, pieces: Seq<Seq<u8>>)
    requires
        pieces.len() == total + 1,
        forall|k: int| 0 <= k < order.len() ==> 0 <= #[trigger] order[k] <= total,
        forall|i: int| 0 <= i <= total ==> order.contains(i),
    ensures
        complete(deliver(fresh_model(total), order, pieces).0),
        deliver(fresh_model(total), order, pieces).1 == pieces,
        deliver(fresh_model(total), order, pieces).1.flatten() == pieces.flatten(),
{
    lemma_deliver(total, order, pieces);
    let m = deliver(fresh_model(total), order, pieces);
    assert forall|i: int| 0 <= i < m.0.len() implies m.0[i] by {
        assert(order.contains(i));
    }
    assert forall|i: int| 0 <= i < m.1.len() implies m.1[i] == pieces[i] by {
        assert(order.contains(i));
        assert(m.0[i]);
    }
    assert(m.1 =~= pieces);
}

/// The bytes that the lower layers carry for a packet of `len` bytes, cut
/// to 16 bits.
pub open spec fn carried_bytes(header: usize, len: usize) -> u16 {
    (((header as u64) as int + (len as u64) as int) % 0x1_0000_0000_0000_0000) as u64 as u16
}

/// The number of fragments of a packet of `len` bytes.
pub open spec fn fragment_count(len: nat) -> nat {
    len / FRAGMENT_SIZE as nat + if len % FRAGMENT_SIZE as nat != 0 {
        1nat
    } else {
        0nat
    }
}

/// The data of fragment `k` of `packet`: its `k`-th run of `FRAGMENT_SIZE`
/// bytes, the last one shorter.
pub open spec fn piece(packet: Seq<u8>, k: int) -> Seq<u8> {
    let end = if (k + 1) * FRAGMENT_SIZE <= packet.len() {
        (k + 1) * FRAGMENT_SIZE
    } else {
        packet.len() as int
    };
    packet.subrange(k * FRAGMENT_SIZE, end)
}

/// What fragment `k` carries after its own header: the regular header `h`
/// first when `k` is zero, then its piece of `packet`.
pub open spec fn fragment_payload(h: Regular, packet: Seq<u8>, k: int) -> Seq<u8> {
    (if k == 0 {
        regular_bytes(h)
    } else {
        Seq::<u8>::empty()
    }) + piece(packet, k)
}

/// The datagrams that sending `packet` with sequence `seq` and header `h`
/// gives: one regular datagram, or, above the fragmentation limit, one
/// fragment per piece, each with its id and the last id.
pub open spec fn datagrams(h: Regular, packet: Seq<u8>, fragment_above: usize) -> Seq<Seq<u8>> {
    if packet.len() <= fragment_above {
        seq![regular_bytes(h) + packet]
    } else {
        let count = fragment_count(packet.len());
        Seq::new(
            count,
            |k: int|
                fragment_bytes(Fragment { seq: h.seq, id: k as u8, total: (count - 1) as u8 })
                    + fragment_payload(h, packet, k),
        )
    }
}

proof fn lemma_pieces_join(h: Regular, packet: Seq<u8>, m: nat)
    requires
        m <= fragment_count(packet.len()),
    ensures
        Seq::new(m, |k: int| fragment_payload(h, packet, k)).flatten() == if m == 0 {
            Seq::<u8>::empty()
        } else {
            regular_bytes(h) + packet.subrange(
                0,
                if m * FRAGMENT_SIZE <= packet.len() {
                    m * FRAGMENT_SIZE
                } else {
                    packet.len() as int
                },
            )
        },
    decreases m,
{
    let s = Seq::new(m, |k: int| fragment_payload(h, packet, k));
    if m == 0 {
        assert(s =~= Seq::<Seq<u8>>::empty());
    } else {
        let prev = Seq::new((m - 1) as nat, |k: int| fragment_payload(h, packet, k));
        lemma_pieces_join(h, packet, (m - 1) as nat);
        assert(s =~= prev.push(fragment_payload(h, packet, m - 1)));
        prev.lemma_flatten_push(fragment_payload(h, packet, m - 1));
        assert((m - 1) * FRAGMENT_SIZE < packet.len());
        if m == 1 {
            assert(prev =~= Seq::<Seq<u8>>::empty());
            assert(s.flatten() =~= regular_bytes(h) + piece(packet, 0));
        } else {
            let end0 = (m - 1) * FRAGMENT_SIZE;
            let end1 = if m * FRAGMENT_SIZE <= packet.len() {
                m * FRAGMENT_SIZE
            } else {
                packet.len() as int
            };
            assert(packet.subrange(0, end0) + packet.subrange(end0, end1) =~= packet.subrange(0, end1));
            assert(s.flatten() =~= regular_bytes(h) + packet.subrange(0, end1));
        }
    }
}

/// The payloads of the fragments of a sent packet, joined in id order, are
/// its regular header followed by the packet.
pub proof fn law_fragments_join(h: Regular, packet: Seq<u8>)
    requires
        packet.len() > 0,
    ensures
        Seq::new(fragment_count(packet.len()), |k: int| fragment_payload(h, packet, k)).flatten()
            == regular_bytes(h) + packet,
{
    let count = fragment_count(packet.len());
    lemma_pieces_join(h, packet, count);
    assert(count * FRAGMENT_SIZE >= packet.len());
    assert(packet.subrange(0, packet.len() as int) =~= packet);
}

/// The acks and sent slots after sequence `s` is acknowledged: a sent
/// packet of that sequence not yet acknowledged is marked and its sequence
/// added to the acks, while fewer than `limit` are pending.
pub open spec fn ack_one(acks: Seq<u16>, slots: Seq<Option<(Sequence, Sent)>>, s: u16, limit: nat) -> (
    Seq<u16>,
    Seq<Option<(Sequence, Sent)>>,
) {
    let j = s as int % slots.len() as int;
    let e = slots[j].unwrap();
    if slots[j] is Some && e.0.0 == s && !e.1.acked && acks.len() < limit {
        (acks.push(s), slots.update(j, Some((e.0, Sent { acked: true, packet_bytes: e.1.packet_bytes }))))
    } else {
        (acks, slots)
    }
}

/// The acks and sent slots after a header acknowledges `ack` and the
/// sequences below it whose bits are set, bit `i` standing for `ack - i`,
/// for the first `n` bits in order.
pub open spec fn ack_all(
    acks: Seq<u16>,
    slots: Seq<Option<(Sequence, Sent)>>,
    ack: u16,
    bits: u32,
    limit: nat,
    n: nat,
) -> (Seq<u16>, Seq<Option<(Sequence, Sent)>>)
    decreases n,
{
    if n == 0 {
        (acks, slots)
    } else {
        let prev = ack_all(acks, slots, ack, bits, limit, (n - 1) as nat);
        if bit_set(bits, (n - 1) as u32) {
            ack_one(prev.0, prev.1, ((ack - (n - 1)) % 0x10000) as u16, limit)
        } else {
            prev
        }
    }
}

/// Slot `s % len` of `slots` holds sequence `s`.
pub open spec fn holds_seq(slots: Seq<Option<(Sequence, Sent)>>, s: u16) -> bool {
    let j = s as int % slots.len() as int;
    slots[j] is Some && slots[j].unwrap().0.0 == s
}

/// What acknowledging does to the acks and the sent packets, after the
/// first `n` bits of a header with `ack` and `bits`: the acks keep what
/// they held and gain only sequences `ack - i` (round the wrap) of set bits
/// `i`, at most one per bit; the sent slots keep their packets and only turn
/// on acknowledged flags, and only for such sequences. With room for every
/// bit, each such sequence that the sent slots hold ends up acknowledged,
/// and each one that was not yet acknowledged joins the acks.
pub proof fn law_ack_all(
    acks: Seq<u16>,
    slots: Seq<Option<(Sequence, Sent)>>,
    ack: u16,
    bits: u32,
    limit: nat,
    n: nat,
)
    requires
        n <= 32,
        slots.len() > 0,
    ensures
        ({
            let a = ack_all(acks, slots, ack, bits, limit, n).0;
            let t = ack_all(acks, slots, ack, bits, limit, n).1;
            &&& acks.len() <= a.len() <= acks.len() + n
            &&& a.subrange(0, acks.len() as int) == acks
            &&& forall|k: int|
                acks.len() <= k < a.len() ==> {
                    let d = distance_below(ack, #[trigger] a[k]);
                    0 <= d < n && bit_set(bits, d as u32) && a[k] == seq_below(ack, d)
                }
            &&& t.len() == slots.len()
            &&& forall|j: int|
                0 <= j < slots.len() ==> ((#[trigger] t[j]) is Some <==> slots[j] is Some) && (slots[j] is Some ==> {
                    &&& t[j].unwrap().0 == slots[j].unwrap().0
                    &&& t[j].unwrap().1.packet_bytes == slots[j].unwrap().1.packet_bytes
                    &&& slots[j].unwrap().1.acked ==> t[j].unwrap().1.acked
                    &&& t[j].unwrap().1.acked && !slots[j].unwrap().1.acked ==> {
                        let d = distance_below(ack, t[j].unwrap().0.0);
                        0 <= d < n && bit_set(bits, d as u32) && t[j].unwrap().0.0 == seq_below(ack, d)
                    }
                })
            &&& acks.len() + n <= limit ==> forall|i: int|
                0 <= i < n && bit_set(bits, i as u32) && holds_seq(slots, #[trigger] seq_below(ack, i)) ==> {
                    &&& t[seq_below(ack, i) as int % slots.len() as int].unwrap().1.acked
                    &&& !slots[seq_below(ack, i) as int % slots.len() as int].unwrap().1.acked ==> a.contains(
                        seq_below(ack, i),
                    )
                }
        }),
    decreases n,
{
    if n > 0 {
        law_ack_all(acks, slots, ack, bits, limit, (n - 1) as nat);
        let prev = ack_all(acks, slots, ack, bits, limit, (n - 1) as nat);
        let a0 = prev.0;
        let t0 = prev.1;
        let a = ack_all(acks, slots, ack, bits, limit, n).0;
        let t = ack_all(acks, slots, ack, bits, limit, n).1;
        let i: int = n - 1;
        let s = seq_below(ack, i);
        assert(s == ((ack - (n - 1)) % 0x10000) as u16);
        assert(distance_below(ack, s) == i);
        let len = slots.len() as int;
        let js = s as int % len;
        if bit_set(bits, i as u32) && t0[js] is Some && t0[js].unwrap().0.0 == s && !t0[js].unwrap().1.acked
            && a0.len() < limit {
            let e = t0[js].unwrap();
            assert(a == a0.push(s));
            assert(t == t0.update(js, Some((e.0, Sent { acked: true, packet_bytes: e.1.packet_bytes }))));
            assert(a.subrange(0, acks.len() as int) =~= a0.subrange(0, acks.len() as int));
            assert forall|k: int| acks.len() <= k < a.len() implies {
                let d = distance_below(ack, #[trigger] a[k]);
                0 <= d < n && bit_set(bits, d as u32) && a[k] == seq_below(ack, d)
            } by {
                if k < a0.len() {
                    assert(a[k] == a0[k]);
                }
            }
            assert forall|x: int|
                0 <= x < n && bit_set(bits, x as u32) && holds_seq(slots, #[trigger] seq_below(ack, x))
                    && acks.len() + n <= limit implies {
                &&& t[seq_below(ack, x) as int % len].unwrap().1.acked
                &&& !slots[seq_below(ack, x) as int % len].unwrap().1.acked ==> a.contains(seq_below(ack, x))
            } by {
                if x < i {
                    let sx = seq_below(ack, x);
                    if !slots[sx as int % len].unwrap().1.acked {
                        let k = choose|k: int| 0 <= k < a0.len() && a0[k] == sx;
                        assert(a[k] == a0[k]);
                    }
                } else {
                    assert(a[a0.len() as int] == s);
                }
            }
        } else {
            assert(a == a0);
            assert(t == t0);
            assert forall|x: int|
                0 <= x < n && bit_set(bits, x as u32) && holds_seq(slots, #[trigger] seq_below(ack, x))
                    && acks.len() + n <= limit implies {
                &&& t[seq_below(ack, x) as int % len].unwrap().1.acked
                &&& !slots[seq_below(ack, x) as int % len].unwrap().1.acked ==> a.contains(seq_below(ack, x))
            } by {
                if x == i {
                    let j = js;
                    assert(t0[j] is Some && t0[j].unwrap().0 == slots[j].unwrap().0);
                    if !t0[j].unwrap().1.acked {
                        assert(false);
                    } else if !slots[j].unwrap().1.acked {
                        let d = distance_below(ack, t0[j].unwrap().0.0);
                        assert(d == i);
                    }
                }
            }
        }
    }
}

/// `e1` is `e0` with the regular packet of header `h` and `len` bytes
/// received: recorded in the received buffer, and the sent packets that its
/// header acknowledges marked, their sequences added to the acks.
pub open spec fn received(e0: Endpoint, e1: Endpoint, h: Regular, len: nat) -> bool {
    let cfg = e0.spec_config();
    let acked = ack_all(e0.spec_acks(), e0.spec_sent().slots(), h.ack, h.ack_bits, cfg.ack_buffer_size as nat, 32);
    &&& e1.spec_config() == cfg
    &&& e1.spec_sequence() == e0.spec_sequence()
    &&& e1.spec_reassembly() == e0.spec_reassembly()
    &&& e1.spec_recv().head() == e0.spec_recv().head_after_insert(h.seq)
    &&& e1.spec_recv().slots() == e0.spec_recv().slots_after_insert(
        Sequence(h.seq),
        Recv { packet_bytes: carried_bytes(cfg.packet_header_size, len as usize) },
    )
    &&& e1.spec_sent().head() == e0.spec_sent().head()
    &&& e1.spec_sent().slots() == acked.1
    &&& e1.spec_acks() == acked.0
}

/// After a regular packet with header `h` is received, the acks keep what
/// they held and gain only sequences `h.ack - i` (round the wrap) for set
/// bits `i` among the 32; the sent packets keep their places and only the
/// acknowledged flags of such sequences turn on. With room in the ack
/// buffer for all 32, every such sequence that was sent ends up
/// acknowledged, and each one not acknowledged before joins the acks.
pub proof fn law_received_acks(e0: Endpoint, e1: Endpoint, h: Regular, len: nat)
    requires
        e0.wf(),
        received(e0, e1, h, len),
    ensures
        ({
            let a0 = e0.spec_acks();
            let a = e1.spec_acks();
            let s0 = e0.spec_sent().slots();
            let t = e1.spec_sent().slots();
            &&& a0.len() <= a.len() <= a0.len() + 32
            &&& a.subrange(0, a0.len() as int) == a0
            &&& forall|k: int|
                a0.len() <= k < a.len() ==> {
                    let d = distance_below(h.ack, #[trigger] a[k]);
                    0 <= d < 32 && bit_set(h.ack_bits, d as u32) && a[k] == seq_below(h.ack, d)
                }
            &&& t.len() == s0.len()
            &&& forall|j: int|
                0 <= j < s0.len() ==> ((#[trigger] t[j]) is Some <==> s0[j] is Some) && (s0[j] is Some ==> {
                    &&& t[j].unwrap().0 == s0[j].unwrap().0
                    &&& t[j].unwrap().1.packet_bytes == s0[j].unwrap().1.packet_bytes
                    &&& s0[j].unwrap().1.acked ==> t[j].unwrap().1.acked
                    &&& t[j].unwrap().1.acked && !s0[j].unwrap().1.acked ==> {
                        let d = distance_below(h.ack, t[j].unwrap().0.0);
                        0 <= d < 32 && bit_set(h.ack_bits, d as u32) && t[j].unwrap().0.0 == seq_below(h.ack, d)
                    }
                })
            &&& a0.len() + 32 <= e0.spec_config().ack_buffer_size ==> forall|i: int|
                0 <= i < 32 && bit_set(h.ack_bits, i as u32) && holds_seq(s0, #[trigger] seq_below(h.ack, i)) ==> {
                    &&& t[seq_below(h.ack, i) as int % s0.len() as int].unwrap().1.acked
                    &&& !s0[seq_below(h.ack, i) as int % s0.len() as int].unwrap().1.acked ==> a.contains(
                        seq_below(h.ack, i),
                    )
                }
        }),
{
    law_ack_all(
        e0.spec_acks(),
        e0.spec_sent().slots(),
        h.ack,
        h.ack_bits,
        e0.spec_config().ack_buffer_size as nat,
        32,
    );
}

/// What receiving the regular packet `data` does: a header that cannot be
/// read is an error; a sequence older than the received window is stale;
/// otherwise the payload after the header goes to `process`, and the packet
/// is received when `process` accepts it. Only `received` changes the
/// endpoint.
pub open spec fn regular_outcome<F: Fn(Sequence, &[u8]) -> bool>(
    e0: Endpoint,
    e1: Endpoint,
    data: Seq<u8>,
    process: F,
    r: Result<(), Error>,
) -> bool {
    match parse_regular(data) {
        Err(e) => r == Err::<(), Error>(Error::Io(e)) && e1 == e0,
        Ok((h, n)) => if !e0.spec_recv().accepts(h.seq) {
            r == Err::<(), Error>(Error::PacketStale) && e1 == e0
        } else {
            &&& r == Ok::<(), Error>(())
            &&& exists|p: &[u8], b: bool|
                #[trigger] process.ensures((Sequence(h.seq), p), b) && p@ == data.subrange(n as int, data.len() as int)
                    && if b {
                    received(e0, e1, h, data.len())
                } else {
                    e1 == e0
                }
        },
    }
}

/// `e1` is `e0` but for the contents of the reassembly buffer.
pub open spec fn same_but_reassembly(e0: Endpoint, e1: Endpoint) -> bool {
    &&& e1.spec_config() == e0.spec_config()
    &&& e1.spec_sequence() == e0.spec_sequence()
    &&& e1.spec_sent() == e0.spec_sent()
    &&& e1.spec_recv() == e0.spec_recv()
    &&& e1.spec_acks() == e0.spec_acks()
    &&& e1.spec_reassembly().head() == e0.spec_reassembly().head()
}

/// `e1` is `e0` in every part.
pub open spec fn unchanged(e0: Endpoint, e1: Endpoint) -> bool {
    same_but_reassembly(e0, e1) && e1.spec_reassembly().slots() == e0.spec_reassembly().slots()
}

/// The fragment header of `data` passes the limits of `cfg`: a readable
/// header, no more than `max_fragments` fragments, an id among them.
pub open spec fn fragment_header_ok(cfg: Config, data: Seq<u8>) -> bool {
    parse_fragment(data) matches Ok((f, n)) && f.total < cfg.max_fragments && f.id <= f.total
}

/// The reassembly slot of the fragment in `data` is free or already
/// reassembles that fragment's sequence.
pub open spec fn fragment_slot_ok(e: Endpoint, data: Seq<u8>) -> bool {
    let f = parse_fragment(data).unwrap().0;
    let buf = e.spec_reassembly();
    buf.slots()[buf.slot_of(f.seq)] is None || buf.holds(f.seq)
}

/// What receiving the fragment `data` does. A header that fails the limits
/// is refused. The fragment joins the reassembly of its sequence (begun
/// empty when its slot is free); one that disagrees with the reassembly on
/// the number of fragments, or has arrived already, is refused. When the
/// last missing fragment arrives, the reassembly leaves the buffer and the
/// joined pieces are received as a regular packet.
pub open spec fn fragment_outcome<F: Fn(Sequence, &[u8]) -> bool>(
    e0: Endpoint,
    e1: Endpoint,
    data: Seq<u8>,
    process: F,
    r: Result<(), Error>,
) -> bool {
    let buf = e0.spec_reassembly();
    let f = parse_fragment(data).unwrap().0;
    let n = parse_fragment(data).unwrap().1;
    let j = buf.slot_of(f.seq);
    let m0 = if buf.slots()[j] is None {
        fresh_model(f.total)
    } else {
        buf.slots()[j].unwrap().1.model()
    };
    let m1 = stored(m0, f.id as int, data.subrange(n as int, data.len() as int));
    if !fragment_header_ok(e0.spec_config(), data) {
        r == Err::<(), Error>(Error::FragmentHeaderInvalid) && unchanged(e0, e1)
    } else if m0.0.len() != f.total + 1 {
        r == Err::<(), Error>(Error::FragmentInvalid) && unchanged(e0, e1)
    } else if m0.0[f.id as int] {
        r == Err::<(), Error>(Error::FragmentAlreadyReceived) && unchanged(e0, e1)
    } else if !complete(m1.0) {
        &&& r == Ok::<(), Error>(())
        &&& same_but_reassembly(e0, e1)
        &&& e1.spec_reassembly().slots() == buf.slots().update(j, e1.spec_reassembly().slots()[j])
        &&& e1.spec_reassembly().slots()[j] is Some
        &&& e1.spec_reassembly().slots()[j].unwrap().0 == Sequence(f.seq)
        &&& e1.spec_reassembly().slots()[j].unwrap().1.model() == m1
    } else {
        let joined = m1.1.flatten();
        exists|mid: Endpoint|
            #[trigger] same_but_reassembly(e0, mid) && mid.spec_reassembly().slots() == buf.slots().update(j, None)
                && if joined.len() == 0 || joined[0] & 0xc1 != 0 {
                r == Err::<(), Error>(Error::FragmentInvalid) && unchanged(mid, e1)
            } else {
                regular_outcome(mid, e1, joined, process, r)
            }
    }
}

/// Every flag is set.
fn all_set(v: &Vec<bool>) -> (r: bool)
    ensures
        r == complete(v@),
{
    let mut i: usize = 0;
    while i < v.len()
        invariant
            i <= v@.len(),
            forall|k: int| 0 <= k < i ==> v@[k],
        decreases v@.len() - i,
    {
        if !v[i] {
            return false;
        }
        i = i + 1;
    }
    true
}

/// The pieces, one after the other.
fn join_parts(parts: &Vec<Vec<u8>>) -> (r: Vec<u8>)
    ensures
        r@ == chunks(parts@).flatten(),
{
    let mut out: Vec<u8> = Vec::new();
    let mut i: usize = 0;
    while i < parts.len()
        invariant
            i <= parts@.len(),
            out@ == chunks(parts@).take(i as int).flatten(),
        decreases parts@.len() - i,
    {
        proof {
            let c = chunks(parts@);
            assert(c.take(i as int + 1) =~= c.take(i as int).push(c[i as int]));
            c.take(i as int).lemma_flatten_push(c[i as int]);
        }
        push_all(&mut out, parts[i].as_slice());
        i = i + 1;
    }
    assert(chunks(parts@).take(parts@.len() as int) =~= chunks(parts@));
    out
}

/// A reliable endpoint.
pub struct Endpoint {
    config: Config,
    sequence: Sequence,
    sent: SequenceBuffer<Sent>,
    recv: SequenceBuffer<Recv>,
    reassembly: SequenceBuffer<Frag>,
    acks: Vec<u16>,
}

impl Endpoint {
    /// The buffers have their slots.
    pub closed spec fn wf(&self) -> bool {
        &&& self.sent.slots().len() == BUFFER_SIZE
        &&& self.recv.slots().len() == BUFFER_SIZE
        &&& self.reassembly.slots().len() == self.config.fragment_reassembly_buffer_size
        &&& self.config.fragment_reassembly_buffer_size > 0
        &&& forall|j: int|
            0 <= j < self.reassembly.slots().len() && (#[trigger] self.reassembly.slots()[j]) is Some
                ==> self.reassembly.slots()[j].unwrap().1.have@.len() == self.reassembly.slots()[j].unwrap().1.parts@.len()
    }

    pub closed spec fn spec_config(&self) -> Config {
        self.config
    }

    /// The sequence of the next packet sent.
    pub closed spec fn spec_sequence(&self) -> Sequence {
        self.sequence
    }

    /// The packets sent.
    pub closed spec fn spec_sent(&self) -> SequenceBuffer<Sent> {
        self.sent
    }

    /// The packets received.
    pub closed spec fn spec_recv(&self) -> SequenceBuffer<Recv> {
        self.recv
    }

    /// The packets being reassembled.
    pub closed spec fn spec_reassembly(&self) -> SequenceBuffer<Frag> {
        self.reassembly
    }

    /// The acknowledged sequences not yet cleared.
    pub closed spec fn spec_acks(&self) -> Seq<u16> {
        self.acks@
    }

    /// An endpoint with empty buffers whose next sequence is zero.
    pub fn new(config: &Config) -> (r: Self)
        requires
            config.max_packet_size > 0,
            config.fragment_above > 0,
            config.fragment_reassembly_buffer_size > 0,
        ensures
            r.wf(),
            r.spec_config() == *config,
            r.spec_sequence() == Sequence(0),
            r.spec_sent().head() == 0,
            forall|j: int| 0 <= j < BUFFER_SIZE ==> r.spec_sent().slots()[j] is None,
            r.spec_recv().head() == 0,
            forall|j: int| 0 <= j < BUFFER_SIZE ==> r.spec_recv().slots()[j] is None,
            r.spec_reassembly().head() == 0,
            forall|j: int| 0 <= j < config.fragment_reassembly_buffer_size ==> r.spec_reassembly().slots()[j] is None,
            r.spec_acks() == Seq::<u16>::empty(),
    {
        Endpoint {
            config: *config,
            sequence: Sequence(0),
            sent: SequenceBuffer::new(BUFFER_SIZE),
            recv: SequenceBuffer::new(BUFFER_SIZE),
            reassembly: SequenceBuffer::new(config.fragment_reassembly_buffer_size),
            acks: Vec::new(),
        }
    }

    /// The acknowledged sequences not yet cleared.
    pub fn acks(&self) -> (r: &[u16])
        ensures
            r@ == self.spec_acks(),
    {
        self.acks.as_slice()
    }

    /// The sequence of the next packet sent.
    pub fn next_packet_sequence(&self) -> (r: Sequence)
        ensures
            r == self.spec_sequence(),
    {
        self.sequence
    }

    /// Forgets the acknowledged sequences.
    pub fn clear_acks(&mut self)
        ensures
            final(self).spec_acks() == Seq::<u16>::empty(),
            final(self).wf() == old(self).wf(),
            final(self).spec_config() == old(self).spec_config(),
            final(self).spec_sequence() == old(self).spec_sequence(),
            final(self).spec_sent() == old(self).spec_sent(),
            final(self).spec_recv() == old(self).spec_recv(),
            final(self).spec_reassembly() == old(self).spec_reassembly(),
    {
        self.acks.clear();
    }

    /// Marks the sent packets that a header with `ack` and `bits`
    /// acknowledges.
    fn ack_sent(&mut self, ack: u16, bits: u32)
        requires
            old(self).wf(),
        ensures
            final(self).wf(),
            final(self).config == old(self).config,
            final(self).sequence == old(self).sequence,
            final(self).recv == old(self).recv,
            final(self).reassembly == old(self).reassembly,
            final(self).sent.head() == old(self).sent.head(),
            (final(self).acks@, final(self).sent.slots()) == ack_all(
                old(self).acks@,
                old(self).sent.slots(),
                ack,
                bits,
                old(self).config.ack_buffer_size as nat,
                32,
            ),
    {
        let ghost e0 = *self;
        let limit = self.config.ack_buffer_size;
        let mut i: u32 = 0;
        while i < 32
            invariant
                i <= 32,
                self.wf(),
                self.config == e0.config,
                self.sequence == e0.sequence,
                self.recv == e0.recv,
                self.reassembly == e0.reassembly,
                self.sent.head() == e0.sent.head(),
                limit == e0.config.ack_buffer_size,
                (self.acks@, self.sent.slots()) == ack_all(e0.acks@, e0.sent.slots(), ack, bits, limit as nat, i as nat),
            decreases 32 - i,
        {
            let set = bits & (1u32 << i) != 0;
            assert(set == bit_set(bits, i)) by (bit_vector)
                requires
                    set == (bits & (1u32 << i) != 0),
                    i < 32,
            ;
            if set {
                let s = ack.wrapping_sub(i as u16);
                assert(s == ((ack - i) % 0x10000) as u16) by (bit_vector)
                    requires
                        s == ack.wrapping_sub(i as u16),
                        i < 32,
                ;
                let ghost acks0 = self.acks@;
                let ghost slots0 = self.sent.slots();
                match self.sent.find_mut(Sequence(s)) {
                    Some(p) => {
                        if !p.acked && self.acks.len() < limit {
                            self.acks.push(s);
                            p.acked = true;
                        }
                    },
                    None => {},
                }
                proof {
                    assert(self.sent.slots() =~= ack_one(acks0, slots0, s, limit as nat).1);
                    assert(self.acks@ =~= ack_one(acks0, slots0, s, limit as nat).0);
                }
            }
            i = i + 1;
        }
    }

    /// Receives the regular packet `data`; see `regular_outcome`.
    fn recv_regular<F: Fn(Sequence, &[u8]) -> bool>(&mut self, data: &[u8], process: F) -> (r: Result<(), Error>)
        requires
            old(self).wf(),
            data@.len() > 0,
            data@[0] & 0xc1 == 0,
            forall|s: Sequence, p: &[u8]| process.requires((s, p)),
        ensures
            final(self).wf(),
            regular_outcome(*old(self), *final(self), data@, process, r),
    {
        let (h, n) = match Regular::read(data) {
            Ok(x) => x,
            Err(e) => {
                return Err(Error::Io(e));
            },
        };
        if !self.recv.test_insert(Sequence(h.seq)) {
            return Err(Error::PacketStale);
        }
        let payload = vstd::slice::slice_subrange(data, n, data.len());
        let accepted = process(Sequence(h.seq), payload);
        if !accepted {
            return Ok(());
        }
        let ghost e0 = *self;
        let bytes = ((self.config.packet_header_size as u64).wrapping_add(data.len() as u64)) as u16;
        let _ = self.recv.insert(Sequence(h.seq), Recv { packet_bytes: bytes });
        self.ack_sent(h.ack, h.ack_bits);
        assert(received(e0, *self, h, data@.len()));
        Ok(())
    }

    /// Receives the fragment `data`; see `fragment_outcome`.
    #[verifier::rlimit(40)]
    fn recv_fragment<F: Fn(Sequence, &[u8]) -> bool>(&mut self, data: &[u8], process: F) -> (r: Result<(), Error>)
        requires
            old(self).wf(),
            data@.len() > 0,
            data@[0] & 1 == 1,
            forall|s: Sequence, p: &[u8]| process.requires((s, p)),
            fragment_header_ok(old(self).spec_config(), data@) ==> fragment_slot_ok(*old(self), data@),
        ensures
            final(self).wf(),
            fragment_outcome(*old(self), *final(self), data@, process, r),
    {
        let (f, n) = match Fragment::read(data) {
            Ok(x) => x,
            Err(_) => {
                return Err(Error::FragmentHeaderInvalid);
            },
        };
        if f.total >= self.config.max_fragments || f.id > f.total {
            return Err(Error::FragmentHeaderInvalid);
        }
        let ghost e0 = *self;
        let total = f.total;
        let id = f.id as usize;
        let seq = Sequence(f.seq);
        let ghost j = e0.reassembly.slot_of(f.seq);
        let ghost m0 = if e0.reassembly.slots()[j] is None {
            fresh_model(f.total)
        } else {
            e0.reassembly.slots()[j].unwrap().1.model()
        };
        let make = (move || -> (r: Frag)
            ensures
                r.model() == fresh_model(total),
            { Frag::new(total) });
        self.reassembly.create_if(seq, make);
        proof {
            if e0.reassembly.slots()[j] is None {
                let v = choose|v: Frag|
                    #[trigger] make.ensures((), v) && self.reassembly.slots() == e0.reassembly.slots().update(
                        j,
                        Some((seq, v)),
                    );
                assert(v.model() == fresh_model(total));
                assert(v.have@.len() == chunks(v.parts@).len());
                assert(self.reassembly.slots()[j] == Some((seq, v)));
            }
            assert(self.reassembly.slots()[j] is Some);
            assert(self.reassembly.slots()[j].unwrap().1.have@.len() == self.reassembly.slots()[j].unwrap().1.parts@.len());
            assert(self.reassembly.slots()[j].unwrap().0 == seq);
            assert(self.reassembly.slots()[j].unwrap().1.model() == m0);
            assert(self.wf());
        }
        let ghost fr0 = self.reassembly.slots()[j].unwrap().1;
        let (len_ok, already) = match self.reassembly.find(seq) {
            Some(fr) => {
                let len_ok = fr.have.len() == total as usize + 1;
                (len_ok, len_ok && fr.have[id])
            },
            None => {
                return Err(Error::FragmentInvalid);
            },
        };
        if !len_ok {
            return Err(Error::FragmentInvalid);
        }
        if already {
            return Err(Error::FragmentAlreadyReceived);
        }
        let payload = vstd::slice::slice_to_vec(vstd::slice::slice_subrange(data, n, data.len()));
        let ghost m1 = stored(m0, f.id as int, data@.subrange(n as int, data@.len() as int));
        assert(fr0.parts@.len() == total + 1);
        match self.reassembly.find_mut(seq) {
            Some(fr) => {
                assert(*fr == fr0);
                fr.have.set(id, true);
                fr.parts.set(id, payload);
            },
            None => {},
        }
        proof {
            let fr1 = self.reassembly.slots()[j].unwrap().1;
            assert(fr1.model().0 =~= m1.0);
            assert(fr1.model().1 =~= m1.1);
            assert(self.reassembly.slots() =~= e0.reassembly.slots().update(j, self.reassembly.slots()[j]));
            assert(self.wf());
        }
        let done = match self.reassembly.find(seq) {
            Some(fr) => all_set(&fr.have),
            None => false,
        };
        if !done {
            return Ok(());
        }
        let joined = match self.reassembly.remove(seq) {
            Some(e) => join_parts(&e.1.parts),
            None => Vec::new(),
        };
        let ghost mid = *self;
        proof {
            assert(joined@ == m1.1.flatten());
            assert(mid.reassembly.slots() =~= e0.reassembly.slots().update(j, None));
            assert(same_but_reassembly(e0, mid));
            assert(mid.wf());
        }
        if joined.len() == 0 || joined[0] & 0xc1 != 0 {
            return Err(Error::FragmentInvalid);
        }
        let r = self.recv_regular(joined.as_slice(), process);
        assert(regular_outcome(mid, *self, m1.1.flatten(), process, r));
        r
    }

    /// Receives the datagram `packet`: a regular packet or a fragment, as
    /// its first byte says (see `regular_outcome` and `fragment_outcome`).
    /// `process` is given the sequence and payload of each packet, and
    /// decides whether it is received. A datagram above the size limit is
    /// refused.
    pub fn recv_packet<F: Fn(Sequence, &[u8]) -> bool>(&mut self, packet: &[u8], process: F) -> (r: Result<(), Error>)
        requires
            old(self).wf(),
            packet@.len() > 0,
            packet@[0] & 1 == 1 || packet@[0] & 0xc1 == 0,
            forall|s: Sequence, p: &[u8]| process.requires((s, p)),
            packet@.len() <= old(self).spec_config().max_packet_size && packet@[0] & 1 == 1 && fragment_header_ok(
                old(self).spec_config(),
                packet@,
            ) ==> fragment_slot_ok(*old(self), packet@),
        ensures
            final(self).wf(),
            packet@.len() > old(self).spec_config().max_packet_size ==> r == Err::<(), Error>(
                Error::PacketTooLargeToRecv,
            ) && unchanged(*old(self), *final(self)),
            packet@.len() <= old(self).spec_config().max_packet_size && packet@[0] & 1 == 0 ==> regular_outcome(
                *old(self),
                *final(self),
                packet@,
                process,
                r,
            ),
            packet@.len() <= old(self).spec_config().max_packet_size && packet@[0] & 1 == 1 ==> fragment_outcome(
                *old(self),
                *final(self),
                packet@,
                process,
                r,
            ),
    {
        if packet.len() > self.config.max_packet_size {
            return Err(Error::PacketTooLargeToRecv);
        }
        let b = packet[0];
        assert(b & 1 != 0 ==> b & 1 == 1) by (bit_vector);
        if b & 1 == 0 {
            self.recv_regular(packet, process)
        } else {
            self.recv_fragment(packet, process)
        }
    }

    /// Sends `packet`: gives it the next sequence, records it as sent, and
    /// gives the datagrams to transmit. A packet above the size limit is
    /// refused and changes nothing. A regular datagram of more than
    /// `MAX_PACKET_SIZE` bytes fails to be written once the packet is
    /// recorded. A packet above the fragmentation limit must not need more
    /// than `max_fragments` fragments.
    pub fn send_packet(&mut self, packet: &[u8]) -> (r: Result<Vec<Vec<u8>>, Error>)
        requires
            old(self).wf(),
            packet@.len() <= old(self).spec_config().max_packet_size && packet@.len() > old(self).spec_config().fragment_above
                ==> fragment_count(packet@.len()) <= old(self).spec_config().max_fragments,
        ensures
            final(self).wf(),
            final(self).spec_config() == old(self).spec_config(),
            final(self).spec_recv() == old(self).spec_recv(),
            final(self).spec_reassembly() == old(self).spec_reassembly(),
            final(self).spec_acks() == old(self).spec_acks(),
            packet@.len() > old(self).spec_config().max_packet_size ==> r == Err::<Vec<Vec<u8>>, Error>(
                Error::PacketTooLargeToSend,
            ) && final(self).spec_sequence() == old(self).spec_sequence() && final(self).spec_sent() == old(
                self,
            ).spec_sent(),
            packet@.len() <= old(self).spec_config().max_packet_size ==> ({
                let seq = old(self).spec_sequence();
                let sent = old(self).spec_sent();
                let value = Sent {
                    acked: false,
                    packet_bytes: carried_bytes(old(self).spec_config().packet_header_size, packet@.len() as usize),
                };
                let h = Regular { seq: seq.0, ack: old(self).spec_recv().ack(), ack_bits: old(self).spec_recv().ack_field(32) as u32 };
                let out = datagrams(h, packet@, old(self).spec_config().fragment_above);
                &&& final(self).spec_sequence() == Sequence(((seq.0 + 1) % 0x10000) as u16)
                &&& sent.accepts(seq.0) ==> final(self).spec_sent().head() == sent.head_after_insert(seq.0)
                    && final(self).spec_sent().slots() == sent.slots_after_insert(seq, value)
                &&& !sent.accepts(seq.0) ==> final(self).spec_sent() == sent
                &&& packet@.len() <= old(self).spec_config().fragment_above && regular_bytes(h).len() + packet@.len()
                    > MAX_PACKET_SIZE ==> r == Err::<Vec<Vec<u8>>, Error>(Error::Io(IoError::WriteZero))
                &&& !(packet@.len() <= old(self).spec_config().fragment_above && regular_bytes(h).len() + packet@.len()
                    > MAX_PACKET_SIZE) ==> r is Ok && r.unwrap()@.map_values(|v: Vec<u8>| v@) == out
            }),
    {
        if packet.len() > self.config.max_packet_size {
            return Err(Error::PacketTooLargeToSend);
        }
        let seq = self.sequence;
        self.sequence = seq.next();
        let (ack, ack_bits) = self.recv.generate_ack_bits();
        let bytes = ((self.config.packet_header_size as u64).wrapping_add(packet.len() as u64)) as u16;
        let _ = self.sent.insert(seq, Sent { acked: false, packet_bytes: bytes });
        let h = Regular::new(seq.0, ack, ack_bits);
        let header = h.to_bytes();
        let mut datagrams_out: Vec<Vec<u8>> = Vec::new();
        if packet.len() <= self.config.fragment_above {
            if header.len() > MAX_PACKET_SIZE || packet.len() > MAX_PACKET_SIZE - header.len() {
                return Err(Error::Io(IoError::WriteZero));
            }
            let mut out: Vec<u8> = Vec::new();
            push_all(&mut out, header.as_slice());
            push_all(&mut out, packet);
            datagrams_out.push(out);
            proof {
                assert(datagrams_out@.map_values(|v: Vec<u8>| v@) =~= datagrams(h, packet@, self.config.fragment_above));
            }
        } else {
            let count: usize = packet.len() / FRAGMENT_SIZE + if packet.len() % FRAGMENT_SIZE != 0 {
                1usize
            } else {
                0usize
            };
            let ghost expected = datagrams(h, packet@, self.config.fragment_above);
            assert(count == fragment_count(packet@.len()));
            let mut k: usize = 0;
            while k < count
                invariant
                    k <= count,
                    count == fragment_count(packet@.len()),
                    count <= 255,
                    packet@.len() > 0,
                    header@ == regular_bytes(h),
                    h.seq == seq.0,
                    expected == datagrams(h, packet@, self.config.fragment_above),
                    packet@.len() > self.config.fragment_above,
                    datagrams_out@.len() == k,
                    forall|i: int| 0 <= i < k ==> (#[trigger] datagrams_out@[i])@ == expected[i],
                decreases count - k,
            {
                let f = Fragment::new(seq.0, k as u8, (count - 1) as u8);
                let mut fb = [0u8; 5];
                let _ = f.write(&mut fb);
                assert(fb@ =~= fragment_bytes(f));
                let mut out: Vec<u8> = Vec::new();
                push_all(&mut out, &fb);
                if k == 0 {
                    push_all(&mut out, header.as_slice());
                }
                assert(k * FRAGMENT_SIZE < packet@.len());
                let end = if packet.len() - k * FRAGMENT_SIZE >= FRAGMENT_SIZE {
                    (k + 1) * FRAGMENT_SIZE
                } else {
                    packet.len()
                };
                push_all(&mut out, vstd::slice::slice_subrange(packet, k * FRAGMENT_SIZE, end));
                proof {
                    assert(h.seq == seq.0);
                    assert(f == Fragment { seq: h.seq, id: k as u8, total: (count - 1) as u8 });
                    assert(piece(packet@, k as int) == packet@.subrange(k * FRAGMENT_SIZE, end as int));
                    assert(expected[k as int] == fragment_bytes(f) + fragment_payload(h, packet@, k as int));
                    if k == 0 {
                        assert(fragment_payload(h, packet@, k as int) =~= header@ + piece(packet@, 0));
                    } else {
                        assert(fragment_payload(h, packet@, k as int) =~= piece(packet@, k as int));
                    }
                }
                assert(out@ =~= expected[k as int]);
                datagrams_out.push(out);
                k = k + 1;
            }
            proof {
                assert(datagrams_out@.map_values(|v: Vec<u8>| v@) =~= expected);
            }
        }
        Ok(datagrams_out)
    }
}

} // verus!
