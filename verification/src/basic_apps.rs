//! Basic apps: synthetic sources, sinks, fan-in and fan-out.
use vstd::prelude::*;

use crate::engine::{EngineStats, PULL_NPACKETS};
use crate::header::fill;
use crate::link::{empty, full, queue_after_transmits, receive, transmit, Link, LINK_MAX_PACKETS};
use crate::packet::{allocate, free, Freelist, Packet, MAX_PACKETS};
use crate::sat_add;

verus! {

/// Source app configuration: generate zero-filled packets of `size` bytes.
pub struct Source {
    pub size: u16,
}

/// Sink app configuration: receive and discard packets.
pub struct Sink {}

/// Join app configuration: forward every input to the single `output`.
pub struct Join {}

/// Tee app configuration: copy every input packet to every output.
pub struct Tee {}

/// Packet generator configuration: replay a fixed list of packets once.
pub struct PacketGen {
    pub packets: Vec<Vec<u8>>,
}

/// Runtime state of a Source app.
pub struct SourceApp {
    pub size: u16,
}

/// Runtime state of a Sink app.
pub struct SinkApp {}

/// Runtime state of a Join app.
pub struct JoinApp {}

/// Runtime state of a Tee app.
pub struct TeeApp {}

/// Runtime state of a packet generator: the packets not yet emitted.
pub struct PacketGenApp {
    pub pending: Vec<Vec<u8>>,
}

/// One pull of a Source app on one output: allocate up to `PULL_NPACKETS`
/// packets, zero-fill the first `size` bytes of each, and transmit them.
pub fn source_pull(fl: &mut Freelist, stats: &mut EngineStats, output: &mut Link, size: u16) -> (n:
    usize)
    requires
        old(fl).wf(),
        old(output).wf(),
    ensures
        final(stats).breaths == old(stats).breaths,
        final(fl).wf(),
        final(output).wf(),
        n <= PULL_NPACKETS,
        // A full batch is owed whenever the stock suffices or the
        // freelist may still grow (one growth step covers a batch).
        old(fl).nfree() >= PULL_NPACKETS || old(fl).grown() + old(fl).step_size() <= MAX_PACKETS
            ==> n == PULL_NPACKETS,
        final(fl).grown() >= old(fl).grown(),
        final(fl).outstanding() - final(output).len() == old(fl).outstanding() - old(
            output,
        ).len(),
        // With room for a full batch nothing is dropped, so no frees are
        // counted.
        old(output).len() + PULL_NPACKETS <= LINK_MAX_PACKETS ==> *final(stats) == *old(stats)
            && final(output).len() == old(output).len() + n,
        exists|ps: Seq<Packet>|
            {
                &&& #[trigger] ps.len() == n
                &&& (forall|i: int|
                    0 <= i < ps.len() ==> (#[trigger] ps[i]).wf() && ps[i].length == size && (
                    forall|j: int| 0 <= j < size ==> ps[i].data@[j] == 0))
                &&& final(output).queue() =~= queue_after_transmits(old(output).queue(), ps)
            },
{
    let mut n: usize = 0;
    let ghost mut ps: Seq<Packet> = Seq::empty();
    while n < PULL_NPACKETS
        invariant
            stats.breaths == old(stats).breaths,
            fl.wf(),
            output.wf(),
            n <= PULL_NPACKETS,
            ps.len() == n,
            fl.grown() >= old(fl).grown(),
            old(fl).nfree() >= PULL_NPACKETS || old(fl).grown() + old(fl).step_size()
                <= MAX_PACKETS ==> fl.nfree() >= PULL_NPACKETS - n || fl.grown()
                + fl.step_size() <= MAX_PACKETS,
            fl.outstanding() - output.len() == old(fl).outstanding() - old(output).len(),
            old(output).len() + PULL_NPACKETS <= LINK_MAX_PACKETS ==> *stats == *old(stats)
                && output.len() == old(output).len() + n,
            forall|i: int|
                0 <= i < ps.len() ==> (#[trigger] ps[i]).wf() && ps[i].length == size && (forall|
                    j: int,
                | 0 <= j < size ==> ps[i].data@[j] == 0),
            output.queue() =~= queue_after_transmits(old(output).queue(), ps),
        ensures
            stats.breaths == old(stats).breaths,
            fl.wf(),
            output.wf(),
            n <= PULL_NPACKETS,
            ps.len() == n,
            old(fl).nfree() >= PULL_NPACKETS || old(fl).grown() + old(fl).step_size()
                <= MAX_PACKETS ==> n == PULL_NPACKETS,
            fl.grown() >= old(fl).grown(),
            fl.outstanding() - output.len() == old(fl).outstanding() - old(output).len(),
            old(output).len() + PULL_NPACKETS <= LINK_MAX_PACKETS ==> *stats == *old(stats)
                && output.len() == old(output).len() + n,
            forall|i: int|
                0 <= i < ps.len() ==> (#[trigger] ps[i]).wf() && ps[i].length == size && (forall|
                    j: int,
                | 0 <= j < size ==> ps[i].data@[j] == 0),
            output.queue() =~= queue_after_transmits(old(output).queue(), ps),
        decreases PULL_NPACKETS - n,
    {
        if !fl.can_allocate_now() {
            proof {
                crate::packet::lemma_freelist_counts(fl);
            }
            break ;
        }
        proof {
            crate::packet::lemma_freelist_counts(fl);
        }
        let ghost fl_pre = *fl;
        let mut p = allocate(fl);
        fill(&mut p.data, size as usize, 0);
        p.length = size;
        let ghost out_before = output.queue();
        transmit(output, fl, stats, p);
        proof {
            crate::link::lemma_queue_after_snoc(old(output).queue(), ps, p);
            ps = ps.push(p);
            crate::packet::lemma_freelist_counts(fl);
            if fl_pre.nfree() == 0 {
                assert(fl.nfree() >= PULL_NPACKETS - (n + 1) || fl.grown() + fl.step_size()
                    <= MAX_PACKETS);
            }
        }
        n = n + 1;
    }
    proof {
        assert(ps.len() == n && (forall|i: int|
            0 <= i < ps.len() ==> (#[trigger] ps[i]).wf() && ps[i].length == size && (forall|
                j: int,
            | 0 <= j < size ==> ps[i].data@[j] == 0)) && output.queue() =~= queue_after_transmits(
            old(output).queue(),
            ps,
        ));
    }
    n
}

/// One push of a Sink app on one input: drain it, freeing every packet.
pub fn sink_push(fl: &mut Freelist, stats: &mut EngineStats, input: &mut Link)
    requires
        old(fl).wf(),
        old(input).wf(),
        old(fl).outstanding() >= old(input).len(),
    ensures
        final(fl).wf(),
        final(input).wf(),
        final(input).len() == 0,
        final(fl).grown() == old(fl).grown(),
        final(fl).outstanding() == old(fl).outstanding() - old(input).len(),
        final(stats).frees == sat_add(old(stats).frees as int, old(input).len()),
        final(stats).breaths == old(stats).breaths,
{
    while !empty(input)
        invariant
            fl.wf(),
            input.wf(),
            fl.grown() == old(fl).grown(),
            fl.outstanding() >= input.len(),
            fl.outstanding() - input.len() == old(fl).outstanding() - old(input).len(),
            stats.frees == sat_add(old(stats).frees as int, old(input).len() - input.len()),
            stats.breaths == old(stats).breaths,
        decreases input.len(),
    {
        let p = receive(input);
        free(fl, stats, p);
    }
}

/// Drain a link into a buffer, oldest first.
pub fn drain_link(input: &mut Link) -> (ps: Vec<Packet>)
    requires
        old(input).wf(),
    ensures
        final(input).wf(),
        final(input).len() == 0,
        ps@ =~= old(input).queue(),
        forall|i: int| 0 <= i < ps.len() ==> (#[trigger] ps@[i]).wf(),
{
    let mut ps: Vec<Packet> = Vec::new();
    while !empty(input)
        invariant
            input.wf(),
            ps@ + input.queue() =~= old(input).queue(),
            forall|i: int| 0 <= i < ps.len() ==> (#[trigger] ps@[i]).wf(),
        decreases input.len(),
    {
        let p = receive(input);
        ps.push(p);
        proof {
            assert(ps@ + input.queue() =~= old(input).queue());
        }
    }
    proof {
        assert(ps@ =~= ps@ + input.queue());
    }
    ps
}

/// Transmit a buffer of packets onto a link in order.
pub fn transmit_all(output: &mut Link, fl: &mut Freelist, stats: &mut EngineStats, ps: Vec<Packet>)
    requires
        old(output).wf(),
        old(fl).wf(),
        forall|i: int| 0 <= i < ps.len() ==> (#[trigger] ps@[i]).wf(),
        old(fl).outstanding() >= ps.len(),
    ensures
        final(stats).breaths == old(stats).breaths,
        final(output).wf(),
        final(fl).wf(),
        final(fl).grown() == old(fl).grown(),
        final(output).queue() =~= queue_after_transmits(old(output).queue(), ps@),
        final(fl).outstanding() - final(output).len() == old(fl).outstanding() - ps.len() - old(
            output,
        ).len(),
{
    let mut ps = ps;
    let ghost all = ps@;
    let mut k: usize = 0;
    let ghost mut done: Seq<Packet> = Seq::empty();
    // Consume the buffer front to back.
    while ps.len() > 0
        invariant
            stats.breaths == old(stats).breaths,
            output.wf(),
            fl.wf(),
            fl.grown() == old(fl).grown(),
            done + ps@ =~= all,
            forall|i: int| 0 <= i < ps.len() ==> (#[trigger] ps@[i]).wf(),
            fl.outstanding() >= ps.len(),
            fl.outstanding() - output.len() == old(fl).outstanding() - done.len() - old(
                output,
            ).len(),
            output.queue() =~= queue_after_transmits(old(output).queue(), done),
        decreases ps.len(),
    {
        let p = ps.remove(0);
        proof {
            crate::packet::lemma_freelist_counts(fl);
            crate::link::lemma_queue_after_snoc(old(output).queue(), done, p);
        }
        transmit(output, fl, stats, p);
        proof {
            done = done.push(p);
            assert(done + ps@ =~= all);
        }
    }
    proof {
        assert(done =~= all);
    }
}

/// Free every packet in a buffer.
pub fn free_all(fl: &mut Freelist, stats: &mut EngineStats, ps: Vec<Packet>)
    requires
        old(fl).wf(),
        forall|i: int| 0 <= i < ps.len() ==> (#[trigger] ps@[i]).wf(),
        old(fl).outstanding() >= ps.len(),
    ensures
        final(stats).breaths == old(stats).breaths,
        final(fl).wf(),
        final(fl).grown() == old(fl).grown(),
        final(fl).outstanding() == old(fl).outstanding() - ps.len(),
{
    let mut ps = ps;
    let ghost n0 = ps.len() as int;
    while ps.len() > 0
        invariant
            stats.breaths == old(stats).breaths,
            fl.wf(),
            fl.grown() == old(fl).grown(),
            forall|i: int| 0 <= i < ps.len() ==> (#[trigger] ps@[i]).wf(),
            fl.outstanding() >= ps.len(),
            fl.outstanding() == old(fl).outstanding() - (n0 - ps.len()),
        decreases ps.len(),
    {
        let p = ps.remove(0);
        free(fl, stats, p);
    }
}

/// Total wire lengths of a buffer of packets.
pub open spec fn total_bytes(ps: Seq<Packet>) -> int
    decreases ps.len(),
{
    if ps.len() == 0 {
        0int
    } else {
        ps[0].length + total_bytes(ps.drop_first())
    }
}

pub proof fn lemma_total_bytes_snoc(s: Seq<Packet>, p: Packet)
    ensures
        total_bytes(s.push(p)) == total_bytes(s) + p.length,
    decreases s.len(),
{
    let pushed = s.push(p);
    if s.len() == 0 {
        assert(pushed[0] == p);
        assert(pushed.drop_first() =~= Seq::<Packet>::empty());
        assert(total_bytes(pushed.drop_first()) == 0);
    } else {
        assert(pushed[0] == s[0]);
        assert(pushed.drop_first() =~= s.drop_first().push(p));
        lemma_total_bytes_snoc(s.drop_first(), p);
    }
}

/// Copy every packet of a buffer onto one output (a Tee fan-out leg):
/// each transmitted packet is a clone carrying the original's length and
/// live bytes.
pub fn tee_copy_to(
    output: &mut Link,
    fl: &mut Freelist,
    stats: &mut EngineStats,
    ps: &Vec<Packet>,
)
    requires
        old(output).wf(),
        old(fl).wf(),
        forall|i: int| 0 <= i < ps.len() ==> (#[trigger] ps@[i]).wf(),
    ensures
        final(stats).breaths == old(stats).breaths,
        final(output).wf(),
        final(fl).wf(),
        final(fl).grown() >= old(fl).grown(),
        final(fl).outstanding() - final(output).len() == old(fl).outstanding() - old(
            output,
        ).len(),
        // With room and stock, every copy is accepted and counted.
        old(output).len() + ps.len() <= LINK_MAX_PACKETS && old(fl).nfree() >= ps.len() ==> {
            &&& final(output).len() == old(output).len() + ps.len()
            &&& final(output).txpackets == sat_add(old(output).txpackets as int, ps.len() as int)
            &&& final(output).txbytes == sat_add(old(output).txbytes as int, total_bytes(ps@))
        },
        exists|ss: Seq<Packet>|
            {
                &&& #[trigger] ss.len() <= ps.len()
                &&& (old(fl).nfree() >= ps.len() ==> ss.len() == ps.len())
                &&& (forall|i: int|
                    0 <= i < ss.len() ==> (#[trigger] ss[i]).wf() && ss[i].length == ps@[i].length
                        && (forall|j: int|
                        0 <= j < ps@[i].length ==> ss[i].data@[j] == ps@[i].data@[j]))
                &&& final(output).queue() =~= queue_after_transmits(old(output).queue(), ss)
            },
{
    proof {
        assert(ps@.take(0) =~= Seq::<Packet>::empty());
    }
    let mut k: usize = 0;
    let ghost mut ss: Seq<Packet> = Seq::empty();
    while k < ps.len()
        invariant
            stats.breaths == old(stats).breaths,
            output.wf(),
            fl.wf(),
            k <= ps.len(),
            ss.len() == k,
            forall|i: int| 0 <= i < ps.len() ==> (#[trigger] ps@[i]).wf(),
            fl.grown() >= old(fl).grown(),
            old(fl).nfree() >= ps.len() ==> fl.nfree() >= ps.len() - k,
            fl.outstanding() - output.len() == old(fl).outstanding() - old(output).len(),
            old(output).len() + ps.len() <= LINK_MAX_PACKETS && old(fl).nfree() >= ps.len() ==> {
                &&& output.len() == old(output).len() + k
                &&& output.txpackets == sat_add(old(output).txpackets as int, k as int)
                &&& output.txbytes == sat_add(
                    old(output).txbytes as int,
                    total_bytes(ps@.take(k as int)),
                )
            },
            forall|i: int|
                0 <= i < ss.len() ==> (#[trigger] ss[i]).wf() && ss[i].length == ps@[i].length && (
                forall|j: int| 0 <= j < ps@[i].length ==> ss[i].data@[j] == ps@[i].data@[j]),
            output.queue() =~= queue_after_transmits(old(output).queue(), ss),
        ensures
            stats.breaths == old(stats).breaths,
            output.wf(),
            fl.wf(),
            k <= ps.len(),
            ss.len() == k,
            old(fl).nfree() >= ps.len() ==> k == ps.len(),
            fl.grown() >= old(fl).grown(),
            fl.outstanding() - output.len() == old(fl).outstanding() - old(output).len(),
            old(output).len() + ps.len() <= LINK_MAX_PACKETS && old(fl).nfree() >= ps.len() ==> {
                &&& output.len() == old(output).len() + k
                &&& output.txpackets == sat_add(old(output).txpackets as int, k as int)
                &&& output.txbytes == sat_add(
                    old(output).txbytes as int,
                    total_bytes(ps@.take(k as int)),
                )
            },
            forall|i: int|
                0 <= i < ss.len() ==> (#[trigger] ss[i]).wf() && ss[i].length == ps@[i].length && (
                forall|j: int| 0 <= j < ps@[i].length ==> ss[i].data@[j] == ps@[i].data@[j]),
            output.queue() =~= queue_after_transmits(old(output).queue(), ss),
        decreases ps.len() - k,
    {
        if !fl.can_allocate_now() {
            proof {
                crate::packet::lemma_freelist_counts(fl);
            }
            break ;
        }
        proof {
            crate::packet::lemma_freelist_counts(fl);
        }
        let c = crate::packet::clone(fl, &ps[k]);
        proof {
            crate::link::lemma_queue_after_snoc(old(output).queue(), ss, c);
            assert(ps@.take(k + 1) =~= ps@.take(k as int).push(ps@[k as int]));
            lemma_total_bytes_snoc(ps@.take(k as int), ps@[k as int]);
        }
        transmit(output, fl, stats, c);
        proof {
            ss = ss.push(c);
        }
        k = k + 1;
    }
    proof {
        assert(ps@.take(ps@.len() as int) =~= ps@);
        assert(ss.len() <= ps.len() && (old(fl).nfree() >= ps.len() ==> ss.len() == ps.len()) && (
        forall|i: int|
            0 <= i < ss.len() ==> (#[trigger] ss[i]).wf() && ss[i].length == ps@[i].length && (
            forall|j: int| 0 <= j < ps@[i].length ==> ss[i].data@[j] == ps@[i].data@[j]))
            && output.queue() =~= queue_after_transmits(old(output).queue(), ss));
    }
}

/// One pull of a packet generator on one output: emit pending packets,
/// One pull of a PacketGen app: emit the pending payloads, last first,
/// one packet per payload, until the output fills, the payloads run out,
/// or no packet can be allocated.
pub fn packetgen_pull(
    fl: &mut Freelist,
    stats: &mut EngineStats,
    output: &mut Link,
    pending: &mut Vec<Vec<u8>>,
)
    requires
        old(fl).wf(),
        old(output).wf(),
        forall|i: int| 0 <= i < old(pending).len() ==> (#[trigger] old(pending)@[i]).len() <= 65535,
    ensures
        final(stats).breaths == old(stats).breaths,
        final(fl).wf(),
        final(output).wf(),
        final(fl).grown() >= old(fl).grown(),
        final(fl).outstanding() - final(output).len() == old(fl).outstanding() - old(
            output,
        ).len(),
        forall|i: int|
            0 <= i < final(pending).len() ==> (#[trigger] final(pending)@[i]).len() <= 65535,
        // The emitted packets carry the popped payloads, newest first;
        // the rest of the pending list survives in order. Every payload
        // is emitted unless the output fills, save when the freelist can
        // cover the list neither from stock nor by one growth step.
        exists|ps: Seq<Packet>|
            {
                let l = old(pending)@.len() as int;
                let k = #[trigger] ps.len() as int;
                &&& k <= l
                &&& old(output).len() + k <= LINK_MAX_PACKETS
                &&& final(pending)@ =~= old(pending)@.take(l - k)
                &&& *final(stats) == *old(stats)
                &&& final(output).queue() =~= old(output).queue() + ps
                &&& forall|i: int|
                    0 <= i < k ==> (#[trigger] ps[i]).wf() && ps[i].length == old(pending)@[l - 1
                        - i].len() && ps[i].data@.subrange(
                        0,
                        old(pending)@[l - 1 - i].len() as int,
                    ) =~= old(pending)@[l - 1 - i]@
                &&& (old(fl).nfree() >= l || (old(fl).grown() + old(fl).step_size() <= MAX_PACKETS
                    && l <= old(fl).step_size()) ==> k == l || old(output).len() + k
                    == LINK_MAX_PACKETS)
            },
{
    let ghost l = old(pending)@.len() as int;
    let ghost mut ps: Seq<Packet> = Seq::empty();
    while !full(output)
        invariant
            stats.breaths == old(stats).breaths,
            fl.wf(),
            output.wf(),
            fl.grown() >= old(fl).grown(),
            fl.outstanding() - output.len() == old(fl).outstanding() - old(output).len(),
            forall|i: int| 0 <= i < pending.len() ==> (#[trigger] pending@[i]).len() <= 65535,
            l == old(pending)@.len() as int,
            ps.len() <= l,
            old(output).len() + ps.len() <= LINK_MAX_PACKETS,
            pending@ =~= old(pending)@.take(l - ps.len()),
            *stats == *old(stats),
            output.queue() =~= old(output).queue() + ps,
            output.len() == old(output).len() + ps.len(),
            forall|i: int|
                0 <= i < ps.len() ==> (#[trigger] ps[i]).wf() && ps[i].length == old(pending)@[l
                    - 1 - i].len() && ps[i].data@.subrange(
                    0,
                    old(pending)@[l - 1 - i].len() as int,
                ) =~= old(pending)@[l - 1 - i]@,
            old(fl).nfree() >= l || (old(fl).grown() + old(fl).step_size() <= MAX_PACKETS && l
                <= old(fl).step_size()) ==> fl.nfree() >= l - ps.len() || (fl.grown()
                + fl.step_size() <= MAX_PACKETS && l - ps.len() <= fl.step_size()),
        ensures
            fl.wf(),
            output.wf(),
            stats.breaths == old(stats).breaths,
            fl.grown() >= old(fl).grown(),
            fl.outstanding() - output.len() == old(fl).outstanding() - old(output).len(),
            forall|i: int| 0 <= i < pending.len() ==> (#[trigger] pending@[i]).len() <= 65535,
            ps.len() <= l,
            old(output).len() + ps.len() <= LINK_MAX_PACKETS,
            pending@ =~= old(pending)@.take(l - ps.len()),
            *stats == *old(stats),
            output.queue() =~= old(output).queue() + ps,
            forall|i: int|
                0 <= i < ps.len() ==> (#[trigger] ps[i]).wf() && ps[i].length == old(pending)@[l
                    - 1 - i].len() && ps[i].data@.subrange(
                    0,
                    old(pending)@[l - 1 - i].len() as int,
                ) =~= old(pending)@[l - 1 - i]@,
            old(fl).nfree() >= l || (old(fl).grown() + old(fl).step_size() <= MAX_PACKETS && l
                <= old(fl).step_size()) ==> ps.len() == l || old(output).len() + ps.len()
                == LINK_MAX_PACKETS,
        decreases pending.len(),
    {
        if pending.len() == 0 {
            proof {
                assert(l - ps.len() == 0);
            }
            break ;
        }
        if !fl.can_allocate_now() {
            proof {
                crate::packet::lemma_freelist_counts(fl);
                assert(fl.nfree() == 0);
            }
            break ;
        }
        let ghost fl_pre = *fl;
        let ghost pend_pre = pending@;
        let data = pending.pop().unwrap();
        proof {
            crate::packet::lemma_freelist_counts(fl);
            assert(pend_pre == old(pending)@.take(l - ps.len()));
            assert(data@ == old(pending)@[l - 1 - ps.len() as int]@);
            assert(data.len() == old(pending)@[l - 1 - ps.len() as int].len());
            assert(pending@ =~= old(pending)@.take(l - (ps.len() + 1)));
        }
        let mut p = allocate(fl);
        crate::header::copy_bytes(&mut p.data, 0, data.as_slice(), 0, data.len());
        p.length = data.len() as u16;
        proof {
            assert forall|j: int| 0 <= j < data.len() implies p.data@.subrange(
                0,
                data.len() as int,
            )[j] == data@[j] by {
                assert(p.data@[0 + j] == data@[0 + j]);
            }
            assert(p.data@.subrange(0, data.len() as int) =~= data@);
            assert(p.wf());
        }
        let ghost out_before = output.queue();
        transmit(output, fl, stats, p);
        proof {
            assert(output.queue() =~= out_before.push(p));
            assert(output.queue() =~= old(output).queue() + ps.push(p));
            let ghost kk = ps.len() as int;
            ps = ps.push(p);
            assert(ps[kk] == p);
            assert forall|i: int| 0 <= i < ps.len() implies (#[trigger] ps[i]).wf()
                && ps[i].length == old(pending)@[l - 1 - i].len() && ps[i].data@.subrange(
                0,
                old(pending)@[l - 1 - i].len() as int,
            ) =~= old(pending)@[l - 1 - i]@ by {
                if i == kk {
                    assert(ps[i] == p);
                    assert(old(pending)@[l - 1 - i]@ == data@);
                }
            }
            crate::packet::lemma_freelist_counts(fl);
            if (old(fl).nfree() >= l || (old(fl).grown() + old(fl).step_size() <= MAX_PACKETS
                && l <= old(fl).step_size())) && fl_pre.nfree() == 0 {
                assert(fl.nfree() >= l - ps.len() || (fl.grown() + fl.step_size() <= MAX_PACKETS
                    && l - ps.len() <= fl.step_size()));
            }
        }
    }
    proof {
        let k = ps.len() as int;
        assert(k <= l && old(output).len() + k <= LINK_MAX_PACKETS && pending@ =~= old(
            pending,
        )@.take(l - k) && *stats == *old(stats) && output.queue() =~= old(output).queue() + ps && (
        forall|i: int|
            0 <= i < k ==> (#[trigger] ps[i]).wf() && ps[i].length == old(pending)@[l - 1
                - i].len() && ps[i].data@.subrange(0, old(pending)@[l - 1 - i].len() as int)
                =~= old(pending)@[l - 1 - i]@) && (old(fl).nfree() >= l || (old(fl).grown() + old(
            fl,
        ).step_size() <= MAX_PACKETS && l <= old(fl).step_size()) ==> k == l || old(output).len()
            + k == LINK_MAX_PACKETS));
    }
}

} // verus!
