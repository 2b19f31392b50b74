//! Links: bounded single-producer single-consumer rings of packets.
//!
//! A link queues up to `LINK_MAX_PACKETS` packets in FIFO order. A
//! transmit onto a full link frees the packet and counts a drop; a
//! receive from an empty link is a programming error, excluded by
//! contract.
use vstd::prelude::*;

use crate::engine::EngineStats;
use crate::packet::{free, spec_bitlength, Freelist, Packet};
use crate::sat_add;

verus! {

/// Size of the ring buffer.
pub const LINK_RING_SIZE: usize = 1024;

/// Capacity of a link: one ring slot is reserved to tell empty from full.
pub const LINK_MAX_PACKETS: usize = 1023;

/// A bounded FIFO of packets with transmit and receive statistics.
pub struct Link {
    pub packets: Vec<Option<Packet>>,
    pub read: usize,
    pub count: usize,
    pub txpackets: u64,
    pub txbytes: u64,
    pub txdrop: u64,
    pub rxpackets: u64,
    pub rxbytes: u64,
}

impl Link {
    /// The queued packets, oldest first.
    pub open spec fn queue(&self) -> Seq<Packet> {
        Seq::new(
            self.count as nat,
            |i: int| self.packets@[(self.read + i) % (LINK_RING_SIZE as int)]->0,
        )
    }

    pub open spec fn wf(&self) -> bool {
        &&& self.packets.len() == LINK_RING_SIZE
        &&& self.read < LINK_RING_SIZE
        &&& self.count <= LINK_MAX_PACKETS
        &&& forall|i: int|
            0 <= i < self.count ==> (#[trigger] self.packets@[(self.read + i) % (
            LINK_RING_SIZE as int)]) is Some
        &&& forall|i: int|
            0 <= i < self.count ==> (#[trigger] self.packets@[(self.read + i) % (
            LINK_RING_SIZE as int)])->0.wf()
    }

    pub open spec fn len(&self) -> int {
        self.queue().len() as int
    }
}

/// Distinct queue positions occupy distinct ring slots.
proof fn lemma_slot_distinct(read: int, i: int, j: int)
    requires
        0 <= read,
        0 <= i < j < LINK_RING_SIZE,
    ensures
        (read + i) % (LINK_RING_SIZE as int) != (read + j) % (LINK_RING_SIZE as int),
{
    let m = LINK_RING_SIZE as int;
    if (read + i) % m == (read + j) % m {
        vstd::arithmetic::div_mod::lemma_fundamental_div_mod(read + i, m);
        vstd::arithmetic::div_mod::lemma_fundamental_div_mod(read + j, m);
        let qi = (read + i) / m;
        let qj = (read + j) / m;
        assert(j - i == m * (qj - qi));
        assert(0 < j - i < m);
        assert(qj - qi >= 1 || qj - qi <= 0) by (nonlinear_arith)
            requires
                j - i == m * (qj - qi),
                0 < j - i,
                m > 0,
        ;
        assert(m * (qj - qi) >= m || m * (qj - qi) <= 0) by (nonlinear_arith)
            requires
                qj - qi >= 1 || qj - qi <= 0,
                m > 0,
        ;
    }
}

/// Allocate a new empty link.
pub fn new() -> (r: Link)
    ensures
        r.wf(),
        r.queue() =~= Seq::<Packet>::empty(),
        r.txpackets == 0 && r.txbytes == 0 && r.txdrop == 0 && r.rxpackets == 0 && r.rxbytes == 0,
{
    let mut packets: Vec<Option<Packet>> = Vec::new();
    let mut k: usize = 0;
    while k < LINK_RING_SIZE
        invariant
            k <= LINK_RING_SIZE,
            packets.len() == k,
        decreases LINK_RING_SIZE - k,
    {
        packets.push(None);
        k = k + 1;
    }
    Link {
        packets,
        read: 0,
        count: 0,
        txpackets: 0,
        txbytes: 0,
        txdrop: 0,
        rxpackets: 0,
        rxbytes: 0,
    }
}

/// Whether the link holds no packets.
pub fn empty(r: &Link) -> (e: bool)
    requires
        r.wf(),
    ensures
        e == (r.len() == 0),
{
    r.count == 0
}

/// Whether the link is at capacity: a further transmit would drop.
pub fn full(r: &Link) -> (f: bool)
    requires
        r.wf(),
    ensures
        f == (r.len() == LINK_MAX_PACKETS),
{
    r.count == LINK_MAX_PACKETS
}

/// Dequeue the oldest packet and count it as received.
pub fn receive(r: &mut Link) -> (p: Packet)
    requires
        old(r).wf(),
        old(r).len() > 0,
    ensures
        final(r).wf(),
        p == old(r).queue()[0],
        p.wf(),
        final(r).queue() =~= old(r).queue().drop_first(),
        final(r).rxpackets == sat_add(old(r).rxpackets as int, 1),
        final(r).rxbytes == sat_add(old(r).rxbytes as int, p.length as int),
        final(r).txpackets == old(r).txpackets && final(r).txbytes == old(r).txbytes,
        final(r).txdrop == old(r).txdrop,
{
    proof {
        vstd::arithmetic::div_mod::lemma_small_mod(old(r).read as nat, LINK_RING_SIZE as nat);
        assert((old(r).read + 0) % (LINK_RING_SIZE as int) == old(r).read as int);
        assert(old(r).packets@[old(r).read as int] is Some);
    }
    let slot = r.read;
    let po = r.packets.remove(slot);
    r.packets.insert(slot, None);
    let p = po.unwrap();
    r.read = (r.read + 1) % LINK_RING_SIZE;
    r.count = r.count - 1;
    r.rxpackets = crate::sat_add64(r.rxpackets, 1);
    r.rxbytes = crate::sat_add64(r.rxbytes, p.length as u64);
    proof {
        let m = LINK_RING_SIZE as int;
        let oldq = old(r).queue();
        assert forall|i: int| 0 <= i < r.count implies {
            &&& (#[trigger] r.packets@[(r.read + i) % m]) is Some
            &&& r.packets@[(r.read + i) % m]->0.wf()
            &&& r.packets@[(r.read + i) % m]->0 == oldq[i + 1]
        } by {
            lemma_slot_distinct(old(r).read as int, 0, i + 1);
            assert((old(r).read + (i + 1)) % m == (r.read + i) % m);
            assert(r.packets@[(r.read + i) % m] == old(r).packets@[(old(r).read + (i + 1)) % m]);
        }
        assert(r.queue() =~= oldq.drop_first());
    }
    p
}

/// One transmit's effect on the queued sequence, as `transmit`'s contract
/// states it: the packet is appended when there is room and dropped when
/// the link is full.
pub open spec fn transmit_spec(q: Seq<Packet>, p: Packet) -> Seq<Packet> {
    if q.len() < LINK_MAX_PACKETS {
        q.push(p)
    } else {
        q
    }
}

/// The queued sequence after transmitting `ps` in order onto a link
/// holding `q`.
pub open spec fn queue_after_transmits(q: Seq<Packet>, ps: Seq<Packet>) -> Seq<Packet>
    decreases ps.len(),
{
    if ps.len() == 0 {
        q
    } else {
        queue_after_transmits(transmit_spec(q, ps[0]), ps.drop_first())
    }
}

/// The number of packets dropped while transmitting `ps` in order onto a
/// link holding `q`.
pub open spec fn drops_after_transmits(q: Seq<Packet>, ps: Seq<Packet>) -> int
    decreases ps.len(),
{
    if ps.len() == 0 {
        0int
    } else {
        (if q.len() < LINK_MAX_PACKETS {
            0int
        } else {
            1int
        }) + drops_after_transmits(transmit_spec(q, ps[0]), ps.drop_first())
    }
}

/// Transmitting one more packet after a sequence extends the fold by
/// one step.
pub proof fn lemma_queue_after_snoc(q: Seq<Packet>, ps: Seq<Packet>, p: Packet)
    ensures
        queue_after_transmits(q, ps.push(p)) == transmit_spec(queue_after_transmits(q, ps), p),
    decreases ps.len(),
{
    let pushed = ps.push(p);
    if ps.len() == 0 {
        assert(pushed[0] == p);
        assert(pushed.drop_first() =~= Seq::<Packet>::empty());
        assert(queue_after_transmits(q, pushed) == queue_after_transmits(
            transmit_spec(q, p),
            pushed.drop_first(),
        ));
        assert(queue_after_transmits(transmit_spec(q, p), Seq::<Packet>::empty())
            == transmit_spec(q, p));
    } else {
        assert(pushed[0] == ps[0]);
        assert(pushed.drop_first() =~= ps.drop_first().push(p));
        lemma_queue_after_snoc(transmit_spec(q, ps[0]), ps.drop_first(), p);
        assert(queue_after_transmits(q, pushed) == queue_after_transmits(
            transmit_spec(q, ps[0]),
            ps.drop_first().push(p),
        ));
        assert(queue_after_transmits(q, ps) == queue_after_transmits(
            transmit_spec(q, ps[0]),
            ps.drop_first(),
        ));
    }
}

/// After transmitting `ps` onto a link holding `q`, the queue holds the
/// oldest packets of `q ++ ps` up to capacity, and everything past
/// capacity was dropped.
pub proof fn lemma_link_transmits(q: Seq<Packet>, ps: Seq<Packet>)
    requires
        q.len() <= LINK_MAX_PACKETS,
    ensures
        queue_after_transmits(q, ps) =~= (q + ps).take(
            if q.len() + ps.len() < LINK_MAX_PACKETS {
                (q.len() + ps.len()) as int
            } else {
                LINK_MAX_PACKETS as int
            },
        ),
        drops_after_transmits(q, ps) == if q.len() + ps.len() > LINK_MAX_PACKETS {
            q.len() + ps.len() - LINK_MAX_PACKETS
        } else {
            0int
        },
    decreases ps.len(),
{
    if ps.len() > 0 {
        let q2 = transmit_spec(q, ps[0]);
        lemma_link_transmits(q2, ps.drop_first());
        if q.len() < LINK_MAX_PACKETS {
            assert(q2 + ps.drop_first() =~= q + ps);
        } else {
            assert((q2 + ps.drop_first()).take(LINK_MAX_PACKETS as int) =~= (q + ps).take(
                LINK_MAX_PACKETS as int,
            ));
        }
    }
}

/// Link FIFO: transmitting `ps` onto an empty link leaves exactly `ps`
/// queued whenever `ps` fits the capacity, so the following receives,
/// which by `receive`'s contract return the head of the queue one at a
/// time, yield `ps` in transmit order with nothing dropped.
pub proof fn lemma_link_fifo(ps: Seq<Packet>)
    requires
        ps.len() <= LINK_MAX_PACKETS,
    ensures
        queue_after_transmits(Seq::<Packet>::empty(), ps) =~= ps,
        drops_after_transmits(Seq::<Packet>::empty(), ps) == 0,
{
    lemma_link_transmits(Seq::<Packet>::empty(), ps);
    assert((Seq::<Packet>::empty() + ps).take(ps.len() as int) =~= ps);
}

/// Link bound: after more transmits than the capacity with no receives,
/// exactly the capacity's worth of oldest packets are queued and every
/// later packet was dropped.
pub proof fn lemma_link_bound(ps: Seq<Packet>)
    requires
        ps.len() > LINK_MAX_PACKETS,
    ensures
        queue_after_transmits(Seq::<Packet>::empty(), ps) =~= ps.take(LINK_MAX_PACKETS as int),
        drops_after_transmits(Seq::<Packet>::empty(), ps) == ps.len() - LINK_MAX_PACKETS,
{
    lemma_link_transmits(Seq::<Packet>::empty(), ps);
    assert((Seq::<Packet>::empty() + ps).take(LINK_MAX_PACKETS as int) =~= ps.take(
        LINK_MAX_PACKETS as int,
    ));
}

/// Enqueue a packet, or free it and count a drop if the link is full.
pub fn transmit(r: &mut Link, fl: &mut Freelist, stats: &mut EngineStats, p: Packet)
    requires
        old(r).wf(),
        old(fl).wf(),
        p.wf(),
        old(fl).outstanding() > 0,
    ensures
        final(r).wf(),
        final(fl).wf(),
        final(fl).grown() == old(fl).grown(),
        final(fl).step_size() == old(fl).step_size(),
        old(r).len() < LINK_MAX_PACKETS ==> {
            &&& final(r).queue() =~= old(r).queue().push(p)
            &&& final(r).txpackets == sat_add(old(r).txpackets as int, 1)
            &&& final(r).txbytes == sat_add(old(r).txbytes as int, p.length as int)
            &&& final(r).txdrop == old(r).txdrop
            &&& final(fl).nfree() == old(fl).nfree()
            &&& *final(stats) == *old(stats)
        },
        old(r).len() == LINK_MAX_PACKETS ==> {
            &&& final(r).queue() == old(r).queue()
            &&& final(r).txpackets == old(r).txpackets
            &&& final(r).txbytes == old(r).txbytes
            &&& final(r).txdrop == sat_add(old(r).txdrop as int, 1)
            &&& final(fl).nfree() == old(fl).nfree() + 1
            &&& final(stats).frees == sat_add(old(stats).frees as int, 1)
            &&& final(stats).freebytes == sat_add(old(stats).freebytes as int, p.length as int)
            &&& final(stats).freebits == sat_add(
                old(stats).freebits as int,
                spec_bitlength(p.length as int),
            )
            &&& final(stats).breaths == old(stats).breaths
        },
        final(r).rxpackets == old(r).rxpackets && final(r).rxbytes == old(r).rxbytes,
{
    if r.count == LINK_MAX_PACKETS {
        r.txdrop = crate::sat_add64(r.txdrop, 1);
        free(fl, stats, p);
        proof {
            assert(r.queue() =~= old(r).queue());
        }
    } else {
        r.txpackets = crate::sat_add64(r.txpackets, 1);
        r.txbytes = crate::sat_add64(r.txbytes, p.length as u64);
        let slot = (r.read + r.count) % LINK_RING_SIZE;
        let ghost plen = p.length;
        r.packets.remove(slot);
        r.packets.insert(slot, Some(p));
        r.count = r.count + 1;
        proof {
            let m = LINK_RING_SIZE as int;
            let oldq = old(r).queue();
            assert forall|i: int| 0 <= i < r.count implies {
                &&& (#[trigger] r.packets@[(r.read + i) % m]) is Some
                &&& r.packets@[(r.read + i) % m]->0.wf()
                &&& r.packets@[(r.read + i) % m]->0 == oldq.push(p)[i]
            } by {
                if i < r.count - 1 {
                    lemma_slot_distinct(r.read as int, i, r.count - 1);
                    assert(r.packets@[(r.read + i) % m] == old(r).packets@[(r.read + i) % m]);
                } else {
                    assert((r.read + i) % m == slot as int);
                }
            }
            assert(r.queue() =~= oldq.push(p));
        }
    }
}

} // verus!
