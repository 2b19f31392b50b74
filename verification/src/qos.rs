//! Quality-of-service apps: probabilistic loss, fixed latency, jitter,
//! and a token-bucket rate limiter.
//!
//! Ratios and strengths are parts per million, so that the contracts stay
//! in integer arithmetic.
use std::collections::VecDeque;
use vstd::prelude::*;

use crate::engine::EngineStats;
use crate::link::{empty, queue_after_transmits, receive, transmit, Link, LINK_MAX_PACKETS};
use crate::packet::{bitlength, free, spec_bitlength, Freelist, Packet};
use crate::{sat_add, sat_add64, sat_mul, sat_mul64};

verus! {

/// One part-per-million scale point: a ratio of 1.0.
pub const PPM_SCALE: u32 = 1_000_000;

/// Loss app configuration: drop packets with probability `ratio_ppm`
/// parts per million.
pub struct Loss {
    pub ratio_ppm: u32,
}

/// Latency app configuration: delay packets by `ms` milliseconds through
/// a delay queue of `capacity` entries.
pub struct Latency {
    pub ms: u64,
    pub capacity: usize,
}

/// Jitter app configuration: with probability `strength_ppm`, delay a
/// packet by a uniform amount below `ms` milliseconds; otherwise forward
/// it immediately when `reorder` is set, else queue it undelayed.
pub struct Jitter {
    pub ms: u64,
    pub strength_ppm: u32,
    pub reorder: bool,
    pub capacity: usize,
}

/// Rate limiter configuration: a single token bucket shaping to
/// `rate` bits per second.
pub struct RateLimiter {
    pub rate: u64,
}

/// Runtime state of a Loss app.
pub struct LossApp {
    pub ratio_ppm: u32,
}

/// Runtime state of a Latency app.
pub struct LatencyApp {
    pub ms: u64,
    pub queue: DelayQueue,
}

/// Runtime state of a Jitter app.
pub struct JitterApp {
    pub ms: u64,
    pub strength_ppm: u32,
    pub reorder: bool,
    pub queue: DelayQueue,
}

/// Runtime state of a RateLimiter app.
pub struct RateLimiterApp {
    pub rate: u64,
    pub bucket: BitrateBucket,
}

/// Relies on rand: `Rng::gen_range` on `thread_rng` returns a uniform
/// value in the half-open range, so the result is below `n`. Nothing
/// more is assumed of a random draw.
#[verifier::external_body]
pub fn random_below(n: u64) -> (r: u64)
    requires
        n > 0,
    ensures
        r < n,
{
    rand::Rng::gen_range(&mut rand::thread_rng(), 0..n)
}

/// An entry of a delay queue: either a delay marker carrying the instant
/// (engine microseconds) at which later entries become releasable, or a
/// queued packet.
pub enum DelayedPacket {
    Delay(u64),
    Packet(Packet),
}

/// Number of packets (not markers) among the entries.
pub open spec fn dq_packet_count(entries: Seq<DelayedPacket>) -> int
    decreases entries.len(),
{
    if entries.len() == 0 {
        0int
    } else {
        (match entries[0] {
            DelayedPacket::Packet(_) => 1int,
            DelayedPacket::Delay(_) => 0int,
        }) + dq_packet_count(entries.drop_first())
    }
}

/// How many leading entries a drain at instant `now` consumes: packets at
/// the head are always taken, expired markers are discarded, and the
/// first unexpired marker stops the drain.
pub open spec fn released_count(entries: Seq<DelayedPacket>, now: u64) -> int
    decreases entries.len(),
{
    if entries.len() == 0 {
        0int
    } else {
        match entries[0] {
            DelayedPacket::Packet(_) => 1 + released_count(entries.drop_first(), now),
            DelayedPacket::Delay(t) => if t <= now {
                1 + released_count(entries.drop_first(), now)
            } else {
                0int
            },
        }
    }
}

/// The packets a drain at instant `now` releases, oldest first.
pub open spec fn released_packets(entries: Seq<DelayedPacket>, now: u64) -> Seq<Packet>
    decreases entries.len(),
{
    if entries.len() == 0 {
        Seq::empty()
    } else {
        match entries[0] {
            DelayedPacket::Packet(p) => seq![p] + released_packets(entries.drop_first(), now),
            DelayedPacket::Delay(t) => if t <= now {
                released_packets(entries.drop_first(), now)
            } else {
                Seq::empty()
            },
        }
    }
}

/// A packet enqueued behind an unexpired delay marker is not released:
/// the drain stops at the marker.
pub proof fn lemma_no_early_release(entries: Seq<DelayedPacket>, now: u64, t: u64)
    requires
        entries.len() > 0,
        entries[0] == DelayedPacket::Delay(t),
        t > now,
    ensures
        released_count(entries, now) == 0,
        released_packets(entries, now) =~= Seq::<Packet>::empty(),
{
}

/// A bounded FIFO of delay markers and packets.
pub struct DelayQueue {
    pub packets: VecDeque<DelayedPacket>,
    pub capacity: usize,
}

impl DelayQueue {
    pub open spec fn entries(&self) -> Seq<DelayedPacket> {
        self.packets@
    }

    pub open spec fn wf(&self) -> bool {
        &&& self.packets@.len() <= self.capacity
        &&& forall|i: int|
            0 <= i < self.packets@.len() ==> ((#[trigger] self.packets@[i]) matches
                DelayedPacket::Packet(p) ==> p.wf())
    }

    pub fn new(capacity: usize) -> (r: DelayQueue)
        ensures
            r.wf(),
            r.entries() =~= Seq::<DelayedPacket>::empty(),
            r.capacity == capacity,
    {
        DelayQueue { packets: VecDeque::new(), capacity }
    }

    pub fn full(&self) -> (r: bool)
        ensures
            r == (self.entries().len() >= self.capacity),
    {
        self.packets.len() >= self.capacity
    }

    pub fn empty(&self) -> (r: bool)
        ensures
            r == (self.entries().len() == 0),
    {
        self.packets.len() == 0
    }

    pub fn enqueue_delay(&mut self, ttx: u64)
        requires
            old(self).wf(),
            old(self).entries().len() < old(self).capacity,
        ensures
            final(self).wf(),
            final(self).entries() =~= old(self).entries().push(DelayedPacket::Delay(ttx)),
            final(self).capacity == old(self).capacity,
    {
        self.packets.push_back(DelayedPacket::Delay(ttx));
    }

    pub fn enqueue_packet(&mut self, p: Packet)
        requires
            old(self).wf(),
            old(self).entries().len() < old(self).capacity,
            p.wf(),
        ensures
            final(self).wf(),
            final(self).entries() =~= old(self).entries().push(DelayedPacket::Packet(p)),
            final(self).capacity == old(self).capacity,
    {
        self.packets.push_back(DelayedPacket::Packet(p));
    }

    /// Free every queued packet and discard every marker. Used when an
    /// app is stopped so that no packet leaks.
    pub fn drain(&mut self, fl: &mut Freelist, stats: &mut EngineStats)
        requires
            old(self).wf(),
            old(fl).wf(),
            old(fl).outstanding() >= dq_packet_count(old(self).entries()),
            dq_packet_count(old(self).entries()) >= 0,
        ensures
            final(stats).breaths == old(stats).breaths,
            final(self).wf(),
            final(fl).wf(),
            final(self).entries().len() == 0,
            final(self).capacity == old(self).capacity,
            final(fl).grown() == old(fl).grown(),
            final(fl).outstanding() == old(fl).outstanding() - dq_packet_count(
                old(self).entries(),
            ),
    {
        proof {
            lemma_dq_packet_count_nonneg(self.entries());
        }
        while self.packets.len() > 0
            invariant
                stats.breaths == old(stats).breaths,
                self.wf(),
                fl.wf(),
                self.capacity == old(self).capacity,
                dq_packet_count(self.entries()) >= 0,
                fl.outstanding() >= dq_packet_count(self.entries()),
                fl.grown() == old(fl).grown(),
                fl.outstanding() - dq_packet_count(self.entries()) == old(fl).outstanding()
                    - dq_packet_count(old(self).entries()),
            decreases self.packets@.len(),
        {
            let ghost e0 = self.entries();
            let e = self.packets.pop_front().unwrap();
            proof {
                assert(e == e0[0]);
                assert(self.entries() =~= e0.drop_first());
                lemma_dq_packet_count_nonneg(e0.drop_first());
                assert(dq_packet_count(e0) == (match e0[0] {
                    DelayedPacket::Packet(_) => 1int,
                    DelayedPacket::Delay(_) => 0int,
                }) + dq_packet_count(e0.drop_first()));
            }
            match e {
                DelayedPacket::Packet(p) => {
                    free(fl, stats, p);
                },
                DelayedPacket::Delay(_) => {},
            }
        }
    }
}

pub proof fn lemma_dq_packet_count_nonneg(entries: Seq<DelayedPacket>)
    ensures
        dq_packet_count(entries) >= 0,
    decreases entries.len(),
{
    if entries.len() > 0 {
        lemma_dq_packet_count_nonneg(entries.drop_first());
    }
}

/// Loss push: drain the input; forward each packet with probability
/// `1 - ratio_ppm/1e6`, free it otherwise. With ratio zero every packet
/// is forwarded in order; with the full ratio every packet is dropped.
pub fn loss_push(
    fl: &mut Freelist,
    stats: &mut EngineStats,
    input: &mut Link,
    output: &mut Link,
    ratio_ppm: u32,
)
    requires
        old(fl).wf(),
        old(input).wf(),
        old(output).wf(),
        ratio_ppm <= PPM_SCALE,
        old(fl).outstanding() >= old(input).len(),
    ensures
        final(stats).breaths == old(stats).breaths,
        final(fl).wf(),
        final(input).wf(),
        final(output).wf(),
        final(input).len() == 0,
        final(fl).grown() == old(fl).grown(),
        // Every received packet is either appended to the output (in
        // order) or returned to the freelist: circulation net of these
        // two links is unchanged.
        final(fl).outstanding() - final(output).len() == old(fl).outstanding() - old(
            output,
        ).len() - old(input).len(),
        final(output).len() >= old(output).len(),
        final(output).len() <= old(output).len() + old(input).len(),
        // A zero ratio forwards everything, in order; a full ratio frees
        // everything.
        ratio_ppm == 0 ==> final(output).queue() =~= queue_after_transmits(
            old(output).queue(),
            old(input).queue(),
        ),
        ratio_ppm == PPM_SCALE ==> final(output).queue() == old(output).queue(),
        ratio_ppm == PPM_SCALE ==> final(fl).outstanding() == old(fl).outstanding() - old(
            input,
        ).len(),
{
    proof {
        assert(old(input).queue().skip(0) =~= old(input).queue());
        assert(old(input).queue().take(0) =~= Seq::<Packet>::empty());
    }
    while !empty(input)
        invariant
            stats.breaths == old(stats).breaths,
            fl.wf(),
            input.wf(),
            output.wf(),
            fl.grown() == old(fl).grown(),
            fl.outstanding() >= input.len(),
            fl.outstanding() - output.len() - input.len() == old(fl).outstanding() - old(
                output,
            ).len() - old(input).len(),
            output.len() >= old(output).len(),
            output.len() + input.len() <= old(output).len() + old(input).len(),
            input.queue().len() <= old(input).queue().len(),
            input.queue() =~= old(input).queue().skip(
                old(input).queue().len() - input.queue().len(),
            ),
            ratio_ppm == 0 ==> output.queue() =~= queue_after_transmits(
                old(output).queue(),
                old(input).queue().take(old(input).queue().len() - input.queue().len()),
            ),
            ratio_ppm == PPM_SCALE ==> output.queue() == old(output).queue(),
        decreases input.len(),
    {
        let ghost consumed = old(input).queue().len() - input.queue().len();
        proof {
            assert(input.queue() =~= old(input).queue().skip(consumed));
        }
        let ghost pre = input.queue();
        let p = receive(input);
        proof {
            assert(pre[0] == old(input).queue()[consumed + 0]);
            assert(p == old(input).queue()[consumed]);
            assert(input.queue() =~= pre.drop_first());
            assert forall|i: int| 0 <= i < input.queue().len() implies input.queue()[i] == old(
                input,
            ).queue()[consumed + 1 + i] by {
                assert(pre.drop_first()[i] == pre[i + 1]);
                assert(pre[i + 1] == old(input).queue().skip(consumed)[i + 1]);
            }
            assert(input.queue() =~= old(input).queue().skip(consumed + 1));
        }
        let u = random_below(PPM_SCALE as u64);
        if u >= ratio_ppm as u64 {
            proof {
                if ratio_ppm == 0 {
                    crate::link::lemma_queue_after_snoc(
                        old(output).queue(),
                        old(input).queue().take(consumed),
                        p,
                    );
                    assert(old(input).queue().take(consumed).push(p) =~= old(
                        input,
                    ).queue().take(consumed + 1));
                }
            }
            transmit(output, fl, stats, p);
        } else {
            free(fl, stats, p);
        }
    }
    proof {
        assert(old(input).queue().take(old(input).queue().len() as int) =~= old(
            input,
        ).queue());
    }
}

/// Latency push: when there is input and room, enqueue one delay marker
/// releasing `ms` milliseconds from now, then queue input packets until
/// the input is empty or the queue is full.
pub fn latency_push(
    fl: &mut Freelist,
    stats: &mut EngineStats,
    input: &mut Link,
    q: &mut DelayQueue,
    now_us: u64,
    ms: u64,
)
    requires
        old(fl).wf(),
        old(input).wf(),
        old(q).wf(),
    ensures
        final(fl).wf(),
        final(input).wf(),
        final(q).wf(),
        final(q).capacity == old(q).capacity,
        *final(fl) == *old(fl),
        *final(stats) == *old(stats),
        // Packets move from the input link into the queue; none is freed
        // or created.
        final(input).len() + dq_packet_count(final(q).entries()) == old(input).len()
            + dq_packet_count(old(q).entries()),
        final(input).len() == 0 || final(q).entries().len() >= final(q).capacity,
        // The queue grows only at the tail: a prior prefix is untouched.
        final(q).entries().len() >= old(q).entries().len(),
        forall|i: int|
            0 <= i < old(q).entries().len() ==> final(q).entries()[i] == old(q).entries()[i],
{
    proof {
        lemma_dq_packet_count_nonneg(q.entries());
    }
    if !empty(input) && !q.full() {
        let ttx = sat_add64(now_us, sat_mul64(ms, 1000));
        q.enqueue_delay(ttx);
        proof {
            lemma_dq_count_push_delay(old(q).entries(), ttx);
        }
    }
    while !empty(input) && !q.full()
        invariant
            stats.breaths == old(stats).breaths,
            fl.wf(),
            input.wf(),
            q.wf(),
            q.capacity == old(q).capacity,
            *fl == *old(fl),
            *stats == *old(stats),
            input.len() + dq_packet_count(q.entries()) == old(input).len() + dq_packet_count(
                old(q).entries(),
            ),
            q.entries().len() >= old(q).entries().len(),
            forall|i: int|
                0 <= i < old(q).entries().len() ==> q.entries()[i] == old(q).entries()[i],
        decreases input.len(),
    {
        let p = receive(input);
        let ghost before = q.entries();
        q.enqueue_packet(p);
        proof {
            lemma_dq_count_push_packet(before, p);
        }
    }
}

pub proof fn lemma_dq_count_push_delay(entries: Seq<DelayedPacket>, t: u64)
    ensures
        dq_packet_count(entries.push(DelayedPacket::Delay(t))) == dq_packet_count(entries),
    decreases entries.len(),
{
    let pushed = entries.push(DelayedPacket::Delay(t));
    if entries.len() == 0 {
        assert(pushed[0] == DelayedPacket::Delay(t));
        assert(pushed.drop_first() =~= Seq::<DelayedPacket>::empty());
        assert(dq_packet_count(pushed.drop_first()) == 0);
        assert(dq_packet_count(pushed) == 0);
    } else {
        assert(pushed[0] == entries[0]);
        assert(pushed.drop_first() =~= entries.drop_first().push(DelayedPacket::Delay(t)));
        lemma_dq_count_push_delay(entries.drop_first(), t);
    }
}

pub proof fn lemma_dq_count_push_packet(entries: Seq<DelayedPacket>, p: Packet)
    ensures
        dq_packet_count(entries.push(DelayedPacket::Packet(p))) == dq_packet_count(entries) + 1,
    decreases entries.len(),
{
    let pushed = entries.push(DelayedPacket::Packet(p));
    if entries.len() == 0 {
        assert(pushed[0] == DelayedPacket::Packet(p));
        assert(pushed.drop_first() =~= Seq::<DelayedPacket>::empty());
        assert(dq_packet_count(pushed.drop_first()) == 0);
        assert(dq_packet_count(pushed) == 1);
    } else {
        assert(pushed[0] == entries[0]);
        assert(pushed.drop_first() =~= entries.drop_first().push(DelayedPacket::Packet(p)));
        lemma_dq_count_push_packet(entries.drop_first(), p);
    }
}

/// Drain the releasable head of a delay queue onto a link: packets at
/// the head are transmitted, expired markers discarded, and the first
/// unexpired marker stops the drain. Used by the pull sides of the
/// latency and jitter apps.
pub fn delay_queue_pull(
    fl: &mut Freelist,
    stats: &mut EngineStats,
    output: &mut Link,
    q: &mut DelayQueue,
    now_us: u64,
)
    requires
        old(fl).wf(),
        old(output).wf(),
        old(q).wf(),
        old(fl).outstanding() >= dq_packet_count(old(q).entries()),
    ensures
        final(stats).breaths == old(stats).breaths,
        final(fl).wf(),
        final(output).wf(),
        final(q).wf(),
        final(q).capacity == old(q).capacity,
        final(fl).grown() == old(fl).grown(),
        final(q).entries() =~= old(q).entries().skip(released_count(old(q).entries(), now_us)),
        final(output).queue() =~= queue_after_transmits(
            old(output).queue(),
            released_packets(old(q).entries(), now_us),
        ),
        // Released packets are either queued on the output or freed on
        // overflow; circulation net of the output link and the queue is
        // unchanged.
        final(fl).outstanding() - final(output).len() - dq_packet_count(final(q).entries())
            == old(fl).outstanding() - old(output).len() - dq_packet_count(old(q).entries()),
{
    proof {
        lemma_dq_packet_count_nonneg(q.entries());
        lemma_released_bounds(q.entries(), now_us);
    }
    loop
        invariant
            stats.breaths == old(stats).breaths,
            fl.wf(),
            output.wf(),
            q.wf(),
            q.capacity == old(q).capacity,
            fl.grown() == old(fl).grown(),
            fl.outstanding() >= dq_packet_count(q.entries()),
            old(q).entries().skip(released_count(old(q).entries(), now_us)) =~= q.entries().skip(
                released_count(q.entries(), now_us),
            ),
            queue_after_transmits(
                old(output).queue(),
                released_packets(old(q).entries(), now_us),
            ) =~= queue_after_transmits(output.queue(), released_packets(q.entries(), now_us)),
            fl.outstanding() - output.len() - dq_packet_count(q.entries()) == old(
                fl,
            ).outstanding() - old(output).len() - dq_packet_count(old(q).entries()),
        ensures
            stats.breaths == old(stats).breaths,
            fl.wf(),
            output.wf(),
            q.wf(),
            q.capacity == old(q).capacity,
            fl.grown() == old(fl).grown(),
            released_count(q.entries(), now_us) == 0,
            released_packets(q.entries(), now_us) =~= Seq::<Packet>::empty(),
            old(q).entries().skip(released_count(old(q).entries(), now_us)) =~= q.entries().skip(
                released_count(q.entries(), now_us),
            ),
            queue_after_transmits(
                old(output).queue(),
                released_packets(old(q).entries(), now_us),
            ) =~= queue_after_transmits(output.queue(), released_packets(q.entries(), now_us)),
            fl.outstanding() - output.len() - dq_packet_count(q.entries()) == old(
                fl,
            ).outstanding() - old(output).len() - dq_packet_count(old(q).entries()),
        decreases q.entries().len(),
    {
        proof {
            lemma_dq_packet_count_nonneg(q.entries());
            lemma_released_bounds(q.entries(), now_us);
        }
        if self_empty(q) {
            proof {
                assert(released_count(q.entries(), now_us) == 0);
                assert(q.entries().skip(0) =~= q.entries());
                assert(released_packets(q.entries(), now_us) =~= Seq::<Packet>::empty());
                assert(queue_after_transmits(
                    output.queue(),
                    released_packets(q.entries(), now_us),
                ) =~= output.queue());
            }
            break ;
        }
        let ghost e0 = q.entries();
        let ghost out0 = output.queue();
        let head_is_packet: bool = matches!(&q.packets[0], DelayedPacket::Packet(_));
        if head_is_packet {
            let e = q.packets.pop_front().unwrap();
            match e {
                DelayedPacket::Packet(p) => {
                    proof {
                        assert(e0[0] == DelayedPacket::Packet(p));
                        assert(dq_packet_count(e0) == 1 + dq_packet_count(e0.drop_first()));
                        lemma_dq_packet_count_nonneg(e0.drop_first());
                    }
                    transmit(output, fl, stats, p);
                    proof {
                        assert(q.entries() =~= e0.drop_first());
                        lemma_release_step(e0, now_us);
                        assert(released_packets(e0, now_us).drop_first() =~= released_packets(
                            e0.drop_first(),
                            now_us,
                        ));
                        assert(output.queue() =~= transmit_spec_of(out0, p));
                        assert(queue_after_transmits(out0, released_packets(e0, now_us))
                            =~= queue_after_transmits(
                            output.queue(),
                            released_packets(q.entries(), now_us),
                        ));
                    }
                },
                DelayedPacket::Delay(_) => {
                    proof {
                        assert(false);
                    }
                },
            }
        } else {
            let expired: bool = match &q.packets[0] {
                DelayedPacket::Delay(t) => *t <= now_us,
                DelayedPacket::Packet(_) => false,
            };
            if expired {
                let _ = q.packets.pop_front().unwrap();
                proof {
                    assert(q.entries() =~= e0.drop_first());
                    lemma_release_step(e0, now_us);
                }
            } else {
                proof {
                    assert(released_count(e0, now_us) == 0);
                    assert(e0.skip(0) =~= e0);
                    assert(released_packets(e0, now_us) =~= Seq::<Packet>::empty());
                    assert(queue_after_transmits(output.queue(), released_packets(e0, now_us))
                        =~= output.queue());
                }
                break ;
            }
        }
    }
    proof {
        assert(q.entries().skip(0) =~= q.entries());
        assert(queue_after_transmits(output.queue(), released_packets(q.entries(), now_us))
            =~= output.queue());
    }
}

/// `transmit`'s effect on the queued sequence, by its contract.
pub open spec fn transmit_spec_of(q: Seq<Packet>, p: Packet) -> Seq<Packet> {
    crate::link::transmit_spec(q, p)
}

/// One drain step: consuming a releasable head entry commutes with the
/// skip/release bookkeeping.
proof fn lemma_release_step(e: Seq<DelayedPacket>, now: u64)
    requires
        e.len() > 0,
        (e[0] matches DelayedPacket::Delay(t) ==> t <= now),
    ensures
        released_count(e, now) == 1 + released_count(e.drop_first(), now),
        e.skip(released_count(e, now)) =~= e.drop_first().skip(
            released_count(e.drop_first(), now),
        ),
        (e[0] matches DelayedPacket::Packet(p) ==> released_packets(e, now) =~= seq![p]
            + released_packets(e.drop_first(), now)),
        (e[0] matches DelayedPacket::Delay(t) ==> released_packets(e, now) =~= released_packets(
            e.drop_first(),
            now,
        )),
        dq_packet_count(e) == dq_packet_count(e.drop_first()) + (
        if e[0] matches DelayedPacket::Packet(_) {
            1int
        } else {
            0int
        }),
{
    lemma_released_bounds(e.drop_first(), now);
    let k = released_count(e.drop_first(), now);
    assert(e.skip(1 + k) =~= e.drop_first().skip(k));
}

fn self_empty(q: &DelayQueue) -> (r: bool)
    ensures
        r == (q.entries().len() == 0),
{
    q.packets.len() == 0
}

pub proof fn lemma_released_bounds(entries: Seq<DelayedPacket>, now: u64)
    ensures
        0 <= released_count(entries, now) <= entries.len(),
        released_packets(entries, now).len() <= entries.len(),
    decreases entries.len(),
{
    if entries.len() > 0 {
        lemma_released_bounds(entries.drop_first(), now);
    }
}

/// Jitter push: for each input packet, with probability
/// `strength_ppm/1e6` enqueue a delay marker with a uniform release
/// below `ms` milliseconds and then the packet; otherwise transmit it
/// immediately when `reorder` is set (this is what reorders), else
/// enqueue it undelayed.
pub fn jitter_push(
    fl: &mut Freelist,
    stats: &mut EngineStats,
    input: &mut Link,
    output: &mut Link,
    q: &mut DelayQueue,
    now_us: u64,
    ms: u64,
    strength_ppm: u32,
    reorder: bool,
)
    requires
        old(fl).wf(),
        old(input).wf(),
        old(output).wf(),
        old(q).wf(),
        strength_ppm <= PPM_SCALE,
        old(fl).outstanding() >= old(input).len(),
    ensures
        final(stats).breaths == old(stats).breaths,
        final(fl).wf(),
        final(input).wf(),
        final(output).wf(),
        final(q).wf(),
        final(q).capacity == old(q).capacity,
        final(fl).grown() == old(fl).grown(),
        // Packets move from the input onto the output or into the queue;
        // only output overflow frees any. Circulation net of the links
        // and the queue is unchanged.
        final(fl).outstanding() - final(output).len() - dq_packet_count(final(q).entries())
            - final(input).len() == old(fl).outstanding() - old(output).len() - dq_packet_count(
            old(q).entries(),
        ) - old(input).len(),
        // Progress: the input is drained unless the queue filled up.
        final(input).len() == 0 || final(q).entries().len() >= final(q).capacity,
        // With no jitter strength and reordering on, every packet is
        // forwarded immediately, in order.
        strength_ppm == 0 && reorder ==> {
            &&& final(output).queue() =~= queue_after_transmits(
                old(output).queue(),
                old(input).queue().take(old(input).queue().len() - final(input).len()),
            )
            &&& final(q).entries() == old(q).entries()
        },
    {
    proof {
        lemma_dq_packet_count_nonneg(q.entries());
        assert(old(input).queue().skip(0) =~= old(input).queue());
        assert(old(input).queue().take(0) =~= Seq::<Packet>::empty());
    }
    while !empty(input) && !q.full()
        invariant
            stats.breaths == old(stats).breaths,
            fl.wf(),
            input.wf(),
            output.wf(),
            q.wf(),
            q.capacity == old(q).capacity,
            fl.grown() == old(fl).grown(),
            fl.outstanding() >= input.len(),
            fl.outstanding() - output.len() - dq_packet_count(q.entries()) - input.len() == old(
                fl,
            ).outstanding() - old(output).len() - dq_packet_count(old(q).entries()) - old(
                input,
            ).len(),
            input.queue().len() <= old(input).queue().len(),
            input.queue() =~= old(input).queue().skip(
                old(input).queue().len() - input.queue().len(),
            ),
            strength_ppm == 0 && reorder ==> {
                &&& output.queue() =~= queue_after_transmits(
                    old(output).queue(),
                    old(input).queue().take(old(input).queue().len() - input.queue().len()),
                )
                &&& q.entries() == old(q).entries()
            },
        decreases input.len() + q.capacity - q.entries().len(),
    {
        let ghost consumed = old(input).queue().len() - input.queue().len();
        proof {
            assert(input.queue() =~= old(input).queue().skip(consumed));
        }
        let add_jitter = random_below(PPM_SCALE as u64) < strength_ppm as u64;
        if add_jitter {
            let jitter_us = if ms > 0 {
                random_below(sat_mul64(ms, 1000))
            } else {
                0
            };
            let ttx = sat_add64(now_us, jitter_us);
            let ghost before = q.entries();
            q.enqueue_delay(ttx);
            proof {
                lemma_dq_count_push_delay(before, ttx);
            }
            if !q.full() {
                let ghost pre = input.queue();
                let p = receive(input);
                let ghost before2 = q.entries();
                q.enqueue_packet(p);
                proof {
                    lemma_dq_count_push_packet(before2, p);
                    assert(input.queue() =~= pre.drop_first());
                    assert forall|i: int| 0 <= i < input.queue().len() implies input.queue()[i]
                        == old(input).queue()[consumed + 1 + i] by {
                        assert(pre.drop_first()[i] == pre[i + 1]);
                        assert(pre[i + 1] == old(input).queue()[consumed + i + 1]);
                    }
                    assert(input.queue() =~= old(input).queue().skip(consumed + 1));
                }
            }
        } else if reorder {
            let ghost pre = input.queue();
            let p = receive(input);
            proof {
                assert(pre[0] == old(input).queue()[consumed + 0]);
                assert(p == old(input).queue()[consumed]);
                if strength_ppm == 0 {
                    crate::link::lemma_queue_after_snoc(
                        old(output).queue(),
                        old(input).queue().take(consumed),
                        p,
                    );
                    assert(old(input).queue().take(consumed).push(p) =~= old(
                        input,
                    ).queue().take(consumed + 1));
                }
            }
            transmit(output, fl, stats, p);
            proof {
                assert(input.queue() =~= pre.drop_first());
                assert forall|i: int| 0 <= i < input.queue().len() implies input.queue()[i]
                    == old(input).queue()[consumed + 1 + i] by {
                    assert(pre.drop_first()[i] == pre[i + 1]);
                    assert(pre[i + 1] == old(input).queue()[consumed + i + 1]);
                }
                assert(input.queue() =~= old(input).queue().skip(consumed + 1));
            }
        } else {
            let ghost pre = input.queue();
            let p = receive(input);
            let ghost before = q.entries();
            q.enqueue_packet(p);
            proof {
                lemma_dq_count_push_packet(before, p);
                assert(input.queue() =~= pre.drop_first());
                assert forall|i: int| 0 <= i < input.queue().len() implies input.queue()[i]
                    == old(input).queue()[consumed + 1 + i] by {
                    assert(pre.drop_first()[i] == pre[i + 1]);
                    assert(pre[i + 1] == old(input).queue()[consumed + i + 1]);
                }
                assert(input.queue() =~= old(input).queue().skip(consumed + 1));
            }
        }
    }
    proof {
        assert(old(input).queue().take(
            old(input).queue().len() - final(input).queue().len(),
        ) =~= old(input).queue().take(old(input).queue().len() - input.queue().len()));
    }
}

/// A token bucket: capacity and tokens are in bit-microseconds (bits
/// scaled by one million).
pub struct BitrateBucket {
    pub capacity: u64,
    pub tokens: u64,
    pub last_time: Option<u64>,
}

impl BitrateBucket {
    pub open spec fn wf(&self) -> bool {
        self.tokens <= self.capacity
    }
}

/// Scaling factor for token accounting: microseconds per second.
pub const RATE_SCALE: u64 = 1_000_000;

/// Minimum microseconds between token refills.
pub const RATE_TICK_US: u64 = 100;

/// Largest shapeable rate: the bucket capacity `rate * RATE_SCALE` must
/// fit a 64-bit counter.
pub const RATE_MAX: u64 = 18_446_744_073_709;

/// A fresh bucket for `rate` bits per second: full enough to cover one
/// tick of traffic, capped at one second's worth.
pub fn new_bucket(rate: u64) -> (r: BitrateBucket)
    requires
        rate <= RATE_MAX,
    ensures
        r.wf(),
        r.capacity == rate * RATE_SCALE,
        r.tokens == rate * RATE_SCALE / ((RATE_SCALE / RATE_TICK_US) as int),
        r.last_time is None,
{
    proof {
        assert(rate * RATE_SCALE <= RATE_MAX * RATE_SCALE) by (nonlinear_arith)
            requires
                rate <= RATE_MAX,
        ;
    }
    let capacity = rate * RATE_SCALE;
    let initial_tokens = capacity / (RATE_SCALE / RATE_TICK_US);
    BitrateBucket { capacity, tokens: initial_tokens, last_time: None }
}

/// The scaled cost of forwarding one packet.
pub open spec fn rl_cost(p: Packet) -> int {
    spec_bitlength(p.length as int) * RATE_SCALE
}

/// Which queued packets a push forwards, given the tokens left after the
/// refill: each packet whose scaled wire size fits the remaining tokens
/// is taken, in order, and paid for; the others are freed.
pub open spec fn rl_kept(q: Seq<Packet>, tokens: int) -> Seq<Packet>
    decreases q.len(),
{
    if q.len() == 0 {
        Seq::empty()
    } else if rl_cost(q[0]) <= tokens {
        seq![q[0]] + rl_kept(q.drop_first(), tokens - rl_cost(q[0]))
    } else {
        rl_kept(q.drop_first(), tokens)
    }
}

/// The tokens left after the push walked the whole queue.
pub open spec fn rl_tokens_left(q: Seq<Packet>, tokens: int) -> int
    decreases q.len(),
{
    if q.len() == 0 {
        tokens
    } else if rl_cost(q[0]) <= tokens {
        rl_tokens_left(q.drop_first(), tokens - rl_cost(q[0]))
    } else {
        rl_tokens_left(q.drop_first(), tokens)
    }
}

/// Rate-limiter push: refill the bucket once per tick at `rate` tokens
/// per microsecond, then forward packets while their scaled wire size
/// fits the tokens, freeing the rest. The tokens never exceed the bucket
/// capacity, which bounds the total bits forwarded over any window.
pub fn ratelimiter_push(
    fl: &mut Freelist,
    stats: &mut EngineStats,
    input: &mut Link,
    output: &mut Link,
    bucket: &mut BitrateBucket,
    now_us: u64,
    rate: u64,
)
    requires
        old(fl).wf(),
        old(input).wf(),
        old(output).wf(),
        old(bucket).wf(),
        old(fl).outstanding() >= old(input).len(),
    ensures
        final(stats).breaths == old(stats).breaths,
        final(fl).wf(),
        final(input).wf(),
        final(output).wf(),
        final(bucket).wf(),
        final(input).len() == 0,
        final(fl).grown() == old(fl).grown(),
        final(bucket).capacity == old(bucket).capacity,
        final(fl).outstanding() - final(output).len() == old(fl).outstanding() - old(
            output,
        ).len() - old(input).len(),
        // Forwarding spends tokens: the bits forwarded are bounded by
        // what the bucket held plus what the refill added.
        final(bucket).tokens <= spec_refilled_tokens(*old(bucket), now_us, rate),
        // Exactly the packets whose scaled cost fits the running token
        // count are forwarded, in order; the bucket ends with what the
        // walk left.
        final(bucket).tokens == rl_tokens_left(
            old(input).queue(),
            spec_refilled_tokens(*old(bucket), now_us, rate),
        ),
        final(output).queue() =~= queue_after_transmits(
            old(output).queue(),
            rl_kept(old(input).queue(), spec_refilled_tokens(*old(bucket), now_us, rate)),
        ),
        final(bucket).last_time == final_last_time(*old(bucket), now_us),
{
    // Replenish bucket tokens (once every tick at most).
    match bucket.last_time {
        Some(last_time) => {
            let us_elapsed = if now_us >= last_time {
                now_us - last_time
            } else {
                0
            };
            if us_elapsed >= RATE_TICK_US {
                bucket.last_time = Some(now_us);
                let add = sat_mul64(rate, us_elapsed);
                let refilled = sat_add64(bucket.tokens, add);
                bucket.tokens = if refilled < bucket.capacity {
                    refilled
                } else {
                    bucket.capacity
                };
            }
        },
        None => {
            bucket.last_time = Some(now_us);
        },
    }
    let ghost refill = bucket.tokens as int;
    while !empty(input)
        invariant
            stats.breaths == old(stats).breaths,
            fl.wf(),
            input.wf(),
            output.wf(),
            bucket.wf(),
            fl.grown() == old(fl).grown(),
            fl.outstanding() >= input.len(),
            bucket.capacity == old(bucket).capacity,
            bucket.last_time == final_last_time(*old(bucket), now_us),
            bucket.tokens <= refill,
            fl.outstanding() - output.len() - input.len() == old(fl).outstanding() - old(
                output,
            ).len() - old(input).len(),
            refill == spec_refilled_tokens(*old(bucket), now_us, rate),
            rl_tokens_left(old(input).queue(), refill) == rl_tokens_left(
                input.queue(),
                bucket.tokens as int,
            ),
            queue_after_transmits(old(output).queue(), rl_kept(old(input).queue(), refill))
                =~= queue_after_transmits(
                output.queue(),
                rl_kept(input.queue(), bucket.tokens as int),
            ),
        decreases input.len(),
    {
        let ghost pre = input.queue();
        let ghost toks0 = bucket.tokens as int;
        let p = receive(input);
        let cost = sat_mul64(bitlength(&p), RATE_SCALE);
        proof {
            assert(p == pre[0]);
            assert(input.queue() =~= pre.drop_first());
            assert(spec_bitlength(p.length as int) <= 0x80340);
            assert(cost == rl_cost(p));
        }
        if cost <= bucket.tokens {
            bucket.tokens = bucket.tokens - cost;
            let ghost out_pre = output.queue();
            proof {
                assert(rl_kept(pre, toks0) =~= seq![p] + rl_kept(
                    pre.drop_first(),
                    toks0 - rl_cost(p),
                ));
                assert(rl_kept(pre, toks0).drop_first() =~= rl_kept(
                    pre.drop_first(),
                    toks0 - rl_cost(p),
                ));
            }
            transmit(output, fl, stats, p);
            proof {
                assert(queue_after_transmits(out_pre, rl_kept(pre, toks0))
                    == queue_after_transmits(
                    crate::link::transmit_spec(out_pre, p),
                    rl_kept(pre.drop_first(), toks0 - rl_cost(p)),
                ));
            }
        } else {
            free(fl, stats, p);
            proof {
                assert(rl_kept(pre, toks0) =~= rl_kept(pre.drop_first(), toks0));
                assert(rl_tokens_left(pre, toks0) == rl_tokens_left(pre.drop_first(), toks0));
            }
        }
    }
    proof {
        assert(queue_after_transmits(
            output.queue(),
            rl_kept(input.queue(), bucket.tokens as int),
        ) =~= output.queue());
    }
}

/// The bucket's token level after the refill step of a push at `now_us`.
pub open spec fn spec_refilled_tokens(b: BitrateBucket, now_us: u64, rate: u64) -> int {
    match b.last_time {
        Option::None => b.tokens as int,
        Option::Some(last) => {
            let elapsed = if now_us >= last {
                now_us - last
            } else {
                0
            };
            if elapsed >= RATE_TICK_US {
                let refilled = sat_add(b.tokens as int, sat_mul(rate as int, elapsed));
                if refilled < b.capacity {
                    refilled
                } else {
                    b.capacity as int
                }
            } else {
                b.tokens as int
            }
        },
    }
}

/// The bucket's recorded refill instant after a push at `now_us`.
pub open spec fn final_last_time(b: BitrateBucket, now_us: u64) -> Option<u64> {
    match b.last_time {
        Option::None => Option::Some(now_us),
        Option::Some(last) => {
            let elapsed = if now_us >= last {
                now_us - last
            } else {
                0
            };
            if elapsed >= RATE_TICK_US {
                Option::Some(now_us)
            } else {
                Option::Some(last)
            }
        },
    }
}

/// The scaled cost of everything a push forwarded: tokens in minus
/// tokens left.
pub open spec fn spec_forwarded_cost(
    b0: BitrateBucket,
    b1: BitrateBucket,
    now_us: u64,
    rate: u64,
) -> int {
    spec_refilled_tokens(b0, now_us, rate) - b1.tokens
}

/// Microseconds of credit one refill grants: the time since the last
/// refill, or nothing before the first packet or within a tick.
pub open spec fn spec_refill_elapsed(b: BitrateBucket, now_us: u64) -> int {
    match b.last_time {
        Option::None => 0int,
        Option::Some(last) => {
            let elapsed = if now_us >= last {
                now_us - last
            } else {
                0int
            };
            if elapsed >= RATE_TICK_US {
                elapsed
            } else {
                0int
            }
        },
    }
}

/// Rate-limiter bound: the scaled bits one push forwards never exceed
/// the tokens the bucket held plus the credit of the elapsed time at
/// the configured rate. Summed over a window, the forwarded traffic is
/// bounded by one bucket capacity plus `rate` times the window.
pub proof fn lemma_ratelimiter_bound(b0: BitrateBucket, b1: BitrateBucket, now_us: u64, rate: u64)
    requires
        b0.wf(),
        b1.wf(),
        b1.tokens <= spec_refilled_tokens(b0, now_us, rate),
    ensures
        spec_forwarded_cost(b0, b1, now_us, rate) <= b0.tokens + sat_mul(
            rate as int,
            spec_refill_elapsed(b0, now_us),
        ),
        spec_forwarded_cost(b0, b1, now_us, rate) <= b0.capacity + sat_mul(
            rate as int,
            spec_refill_elapsed(b0, now_us),
        ),
{
    match b0.last_time {
        Option::None => {},
        Option::Some(last) => {},
    }
}

} // verus!
