//! Packets and the bounded packet freelist.
//!
//! A packet is a fixed-capacity byte buffer with a wire length. Packets
//! are taken from and returned to a freelist that grows lazily in
//! geometrically increasing steps, and never beyond `MAX_PACKETS`. At any
//! moment a packet is owned by the freelist, by one link, or by one
//! caller; the freelist's accounting makes that conservation checkable.
use vstd::prelude::*;

use crate::engine::EngineStats;
use crate::header::{copy_bytes, zero_bytes};
use crate::sat_add;

verus! {

/// The maximum amount of payload in any given packet.
pub const PAYLOAD_SIZE: usize = 65535;

/// Maximum number of packets on the freelist.
pub const MAX_PACKETS: usize = 1_000_000;

/// Initial size of a freelist growth step.
pub const PACKET_ALLOCATION_STEP: usize = 1000;

/// Packet of network data: a wire length and a fixed-size data buffer.
/// Bytes beyond `length` are not meaningful.
pub struct Packet {
    pub length: u16,
    pub data: Vec<u8>,
}

impl Packet {
    /// A packet's buffer always spans the full payload capacity.
    pub open spec fn wf(&self) -> bool {
        self.data.len() == PAYLOAD_SIZE
    }
}

/// Bits of physical 10 GbE capacity a packet occupies on the wire:
/// inter-packet gap, preamble, the frame padded to the 60-byte minimum,
/// and the frame checksum.
pub open spec fn spec_bitlength(length: int) -> int {
    (12 + 8 + (if length < 60 {
        60int
    } else {
        length
    }) + 4) * 8
}

/// Return the bits of wire capacity the packet occupies on 10 GbE.
pub fn bitlength(p: &Packet) -> (r: u64)
    ensures
        r == spec_bitlength(p.length as int),
        192 <= r <= 0x80340,
{
    let len: u64 = if p.length < 60 {
        60
    } else {
        p.length as u64
    };
    (12 + 8 + len + 4) * 8
}

/// The packet freelist: a LIFO pool of reusable packets, plus the count
/// of packets ever created and the size of the next growth step.
pub struct Freelist {
    list: Vec<Packet>,
    allocated: usize,
    step: usize,
}

impl Freelist {
    /// Number of packets waiting on the freelist.
    pub closed spec fn nfree(&self) -> int {
        self.list.len() as int
    }

    /// Number of packets ever created: every one is on the freelist, on a
    /// link, or in a caller's hands.
    pub closed spec fn grown(&self) -> int {
        self.allocated as int
    }

    /// Size of the next growth step.
    pub closed spec fn step_size(&self) -> int {
        self.step as int
    }

    /// Packets in circulation: created but not on the freelist.
    pub open spec fn outstanding(&self) -> int {
        self.grown() - self.nfree()
    }

    pub closed spec fn wf(&self) -> bool {
        &&& self.list.len() <= self.allocated <= MAX_PACKETS
        &&& PACKET_ALLOCATION_STEP <= self.step <= 2 * MAX_PACKETS
        &&& forall|i: int|
            0 <= i < self.list.len() ==> (#[trigger] self.list@[i]).wf() && self.list@[i].length
                == 0
    }

    /// A fresh, empty freelist: nothing allocated yet.
    pub fn new() -> (r: Freelist)
        ensures
            r.wf(),
            r.nfree() == 0,
            r.grown() == 0,
            r.step_size() == PACKET_ALLOCATION_STEP,
    {
        Freelist { list: Vec::new(), allocated: 0, step: PACKET_ALLOCATION_STEP }
    }

    /// Whether one more packet can be handed out without failing:
    /// either the freelist is non-empty or it may still grow.
    pub open spec fn can_allocate(&self) -> bool {
        self.nfree() > 0 || self.grown() + self.step_size() <= MAX_PACKETS
    }
}

/// The freelist's counts are consistent: nothing is negative and no
/// more packets wait than were ever created.
pub proof fn lemma_freelist_counts(fl: &Freelist)
    requires
        fl.wf(),
    ensures
        0 <= fl.nfree() <= fl.grown() <= MAX_PACKETS,
        fl.step_size() >= PACKET_ALLOCATION_STEP,
{
}

/// Grow the freelist by the current step, doubling the step for next time.
fn preallocate_step(fl: &mut Freelist)
    requires
        old(fl).wf(),
        old(fl).grown() + old(fl).step_size() <= MAX_PACKETS,
        old(fl).step_size() <= MAX_PACKETS,
    ensures
        final(fl).wf(),
        final(fl).nfree() == old(fl).nfree() + old(fl).step_size(),
        final(fl).grown() == old(fl).grown() + old(fl).step_size(),
        final(fl).step_size() == 2 * old(fl).step_size(),
        final(fl).outstanding() == old(fl).outstanding(),
{
    let step = fl.step;
    let ghost fl0 = *fl;
    let mut k: usize = 0;
    while k < step
        invariant
            fl.wf(),
            k <= step,
            step == fl0.step_size(),
            fl.nfree() == fl0.nfree() + k,
            fl.allocated == fl0.grown() + k,
            fl.step == fl0.step_size(),
            fl0.wf(),
            fl0.grown() + fl0.step_size() <= MAX_PACKETS,
        decreases step - k,
    {
        let p = Packet { length: 0, data: zero_bytes(PAYLOAD_SIZE) };
        proof {
            assert(fl.list.len() < MAX_PACKETS);
        }
        fl.list.push(p);
        fl.allocated = fl.allocated + 1;
        k = k + 1;
    }
    fl.step = fl.step * 2;
}

/// Ensure at least `n` packets exist, growing step by step.
pub open spec fn can_grow_to(grown: int, step: int, n: int) -> bool
    decreases (if n - grown > 0 {
        n - grown
    } else {
        0
    }),
    when step >= 1
{
    if grown >= n {
        true
    } else {
        grown + step <= MAX_PACKETS && can_grow_to(grown + step, 2 * step, n)
    }
}

/// Preallocate at least `n` packets.
pub fn preallocate(fl: &mut Freelist, n: usize)
    requires
        old(fl).wf(),
        can_grow_to(old(fl).grown(), old(fl).step_size(), n as int),
    ensures
        final(fl).wf(),
        final(fl).grown() >= n,
        final(fl).outstanding() == old(fl).outstanding(),
{
    let ghost out0 = old(fl).outstanding();
    while fl.allocated_count() < n
        invariant
            fl.wf(),
            can_grow_to(fl.grown(), fl.step_size(), n as int),
            fl.outstanding() == out0,
        decreases (if n - fl.grown() > 0 {
            n - fl.grown()
        } else {
            0
        }),
    {
        proof {
            assert(fl.grown() + fl.step_size() <= MAX_PACKETS);
        }
        preallocate_step(fl);
    }
}

impl Freelist {
    /// Number of packets ever created.
    pub fn allocated_count(&self) -> (r: usize)
        ensures
            r == self.grown(),
    {
        self.allocated
    }

    /// Whether one more packet can be handed out without failing.
    pub fn can_allocate_now(&self) -> (r: bool)
        requires
            self.wf(),
        ensures
            r == self.can_allocate(),
    {
        self.list.len() > 0 || self.allocated + self.step <= MAX_PACKETS
    }

    /// Number of packets waiting on the freelist.
    pub fn free_count(&self) -> (r: usize)
        ensures
            r == self.nfree(),
    {
        self.list.len()
    }
}

/// Take a packet off the freelist, growing the list if it is empty.
/// The packet comes back empty: length zero, full-size buffer.
pub fn allocate(fl: &mut Freelist) -> (r: Packet)
    requires
        old(fl).wf(),
        old(fl).can_allocate(),
    ensures
        final(fl).wf(),
        r.wf(),
        r.length == 0,
        final(fl).outstanding() == old(fl).outstanding() + 1,
        final(fl).grown() >= old(fl).grown(),
        old(fl).nfree() > 0 ==> final(fl).nfree() == old(fl).nfree() - 1 && final(fl).grown()
            == old(fl).grown() && final(fl).step_size() == old(fl).step_size(),
        old(fl).nfree() == 0 ==> final(fl).nfree() == old(fl).step_size() - 1,
        old(fl).nfree() == 0 ==> final(fl).grown() == old(fl).grown() + old(fl).step_size(),
        old(fl).nfree() == 0 ==> final(fl).step_size() == 2 * old(fl).step_size(),
{
    if fl.list.len() == 0 {
        proof {
            assert(fl.step <= MAX_PACKETS);
        }
        preallocate_step(fl);
    }
    let p = fl.list.pop().unwrap();
    p
}

/// Return a packet to the freelist and count the free in the global
/// statistics: one more free, its bytes, and its wire bits.
pub fn free(fl: &mut Freelist, stats: &mut EngineStats, p: Packet)
    requires
        old(fl).wf(),
        p.wf(),
        old(fl).outstanding() > 0,
    ensures
        final(fl).wf(),
        final(fl).nfree() == old(fl).nfree() + 1,
        final(fl).grown() == old(fl).grown(),
        final(fl).step_size() == old(fl).step_size(),
        final(fl).outstanding() == old(fl).outstanding() - 1,
        final(stats).frees == sat_add(old(stats).frees as int, 1),
        final(stats).freebytes == sat_add(old(stats).freebytes as int, p.length as int),
        final(stats).freebits == sat_add(old(stats).freebits as int, spec_bitlength(p.length as int)),
        final(stats).breaths == old(stats).breaths,
{
    stats.add_frees();
    stats.add_freebytes(p.length as u64);
    stats.add_freebits(bitlength(&p));
    free_internal(fl, p);
}

/// Return a packet to the freelist without touching statistics.
pub fn free_internal(fl: &mut Freelist, p: Packet)
    requires
        old(fl).wf(),
        p.wf(),
        old(fl).outstanding() > 0,
    ensures
        final(fl).wf(),
        final(fl).nfree() == old(fl).nfree() + 1,
        final(fl).grown() == old(fl).grown(),
        final(fl).step_size() == old(fl).step_size(),
        final(fl).outstanding() == old(fl).outstanding() - 1,
{
    let mut p = p;
    p.length = 0;
    fl.list.push(p);
}

/// Allocate a fresh packet and copy `p`'s length and live bytes into it.
pub fn clone(fl: &mut Freelist, p: &Packet) -> (r: Packet)
    requires
        old(fl).wf(),
        old(fl).can_allocate(),
        p.wf(),
    ensures
        final(fl).wf(),
        r.wf(),
        r.length == p.length,
        forall|j: int| 0 <= j < p.length ==> r.data@[j] == p.data@[j],
        final(fl).outstanding() == old(fl).outstanding() + 1,
        final(fl).grown() >= old(fl).grown(),
{
    let mut copy = allocate(fl);
    let src = p.data.as_slice();
    copy_bytes(&mut copy.data, 0, src, 0, p.length as usize);
    copy.length = p.length;
    assert forall|j: int| 0 <= j < p.length implies copy.data@[j] == p.data@[j] by {
        assert(copy.data@[0 + j] == src@[0 + j]);
    }
    copy
}

} // verus!
