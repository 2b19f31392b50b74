//! Offload helpers: opportunistic L4 checksum fill-in and TCP
//! segmentation to a maximum segment size.
use vstd::prelude::*;

use crate::bswap16;
use crate::checksum::ipsum_spec;
use crate::engine::EngineStats;
use crate::ethernet;
use crate::header::{be16, be32, copy_bytes, le16};
use crate::ipv4;
use crate::link::{transmit, transmit_spec, Link, LINK_MAX_PACKETS};
use crate::packet::{allocate, free, Freelist, Packet};
use crate::tcp;
use crate::udp;

verus! {

/// Checksum app configuration: fill in offloaded TCP and UDP checksums.
pub struct Checksum {}

/// TSD app configuration: split TCP segments to fit `mss` payload bytes.
pub struct TSD {
    pub mss: u16,
}

/// Runtime state of a Checksum app.
pub struct ChecksumApp {}

/// Runtime state of a TSD app.
pub struct TSDApp {
    pub mss: u16,
}

/// The pseudo-header sum a packet's IPv4 header yields for the given
/// protocol, over the upper-layer length `len - 34`.
pub open spec fn spec_pseudo(d: Seq<u8>, len: int, protocol: u8) -> int {
    ipsum_spec(ipv4::pseudo_bytes(d.subrange(14, 34), protocol, (len - 34) as u16), 12, 0)
}

/// Whether the checksum app fills in a TCP checksum: an option-less IPv4
/// TCP packet long enough to hold the headers, whose checksum field holds
/// the offload sentinel (the complement of the pseudo-header sum, in
/// network order).
pub open spec fn fill_tcp_cond(d: Seq<u8>, len: int) -> bool {
    &&& ethernet::spec_ethertype(d) == ethernet::TYPE_IPV4
    &&& ipv4::spec_ihl(d.subrange(14, 34)) <= 5
    &&& ipv4::spec_protocol(d.subrange(14, 34)) == ipv4::PROTOCOL_TCP
    &&& len >= 54
    &&& be16(d, 50) == 0xffff - spec_pseudo(d, len, ipv4::PROTOCOL_TCP)
}

/// Whether the checksum app fills in a UDP checksum.
pub open spec fn fill_udp_cond(d: Seq<u8>, len: int) -> bool {
    &&& ethernet::spec_ethertype(d) == ethernet::TYPE_IPV4
    &&& ipv4::spec_ihl(d.subrange(14, 34)) <= 5
    &&& ipv4::spec_protocol(d.subrange(14, 34)) == ipv4::PROTOCOL_UDP
    &&& len >= 42
    &&& be16(d, 40) == 0xffff - spec_pseudo(d, len, ipv4::PROTOCOL_UDP)
}

/// The filled-in checksum of an offloaded packet: its L4 header seeded
/// with the complement of the pseudo-header sum, chained over the
/// payload. `hofs` is the L4 header offset, `hlen` its length, `cofs`
/// the checksum field's offset within it.
pub open spec fn spec_filled_checksum(d: Seq<u8>, len: int, protocol: u8, hofs: int, hlen: int, cofs: int) -> int {
    let init = 0xffff - spec_pseudo(d, len, protocol);
    let zeroed = d.subrange(hofs, hofs + hlen).update(cofs, 0u8).update(cofs + 1, 0u8);
    let hsum = ipsum_spec(zeroed, hlen, init);
    ipsum_spec(d.skip(hofs + hlen), len - hofs - hlen, 0xffff - hsum)
}

/// What the checksum app leaves in a packet's bytes: untouched unless
/// the offload sentinel asks for a TCP or UDP checksum, in which case
/// exactly the checksum field is overwritten with the chained sum in
/// network byte order.
pub open spec fn spec_checksum_app(d: Seq<u8>, len: int) -> Seq<u8> {
    if fill_tcp_cond(d, len) {
        let c = spec_filled_checksum(d, len, ipv4::PROTOCOL_TCP, 34, 20, 16);
        d.update(50, (c / 256) as u8).update(51, (c % 256) as u8)
    } else if fill_udp_cond(d, len) {
        let c = spec_filled_checksum(d, len, ipv4::PROTOCOL_UDP, 34, 8, 6);
        d.update(40, (c / 256) as u8).update(41, (c % 256) as u8)
    } else {
        d
    }
}

/// Fill in an offloaded TCP or UDP checksum in place, when the packet
/// asks for it with the sentinel; otherwise leave the packet untouched.
pub fn maybe_fill_in_checksum(p: &mut Packet)
    requires
        old(p).wf(),
    ensures
        final(p).wf(),
        final(p).length == old(p).length,
        final(p).data@ =~= spec_checksum_app(old(p).data@, old(p).length as int),
{
    let eth = ethernet::Ethernet::from_mem(&p.data, 0);
    if eth.ethertype() != ethernet::TYPE_IPV4 {
        return ;
    }
    let ip = ipv4::IPv4::from_mem(&p.data, 14);
    if ip.ihl() > 5 {
        return ;
    }
    if (p.length as usize) < 34 {
        return ;
    }
    let proto_length: u16 = p.length - 34;
    if ip.protocol() == ipv4::PROTOCOL_TCP {
        if (p.length as usize) < 54 {
            return ;
        }
        let pseudo_csum = ip.pseudo_checksum(ipv4::PROTOCOL_TCP, proto_length);
        let mut tcph = tcp::TCP::from_mem(&p.data, 34);
        let stored = crate::header::get_be16(&p.data, 50);
        if stored == 0xffff - pseudo_csum {
            let payload_length: u16 = p.length - 54;
            let ghost d0 = p.data@;
            let tail = vstd::slice::slice_subrange(p.data.as_slice(), 54, crate::packet::PAYLOAD_SIZE);
            tcph.checksum_compute(tail, payload_length, 0xffff - pseudo_csum);
            proof {
                assert(tail@ =~= d0.skip(54));
            }
            tcph.copy(&mut p.data, 34);
            proof {
                assert(fill_tcp_cond(d0, old(p).length as int));
                let init = 0xffff - spec_pseudo(d0, old(p).length as int, ipv4::PROTOCOL_TCP);
                crate::checksum::lemma_ipsum_bounds(
                    ipv4::pseudo_bytes(d0.subrange(14, 34), ipv4::PROTOCOL_TCP, proto_length),
                    12,
                    0,
                );
                let zeroed = d0.subrange(34, 54).update(16, 0u8).update(17, 0u8);
                crate::checksum::lemma_ipsum_bounds(zeroed, 20, init);
                let hsum = ipsum_spec(zeroed, 20, init);
                crate::checksum::lemma_ipsum_bounds(d0.skip(54), old(p).length - 54, 0xffff - hsum);
                let c = spec_filled_checksum(d0, old(p).length as int, ipv4::PROTOCOL_TCP, 34, 20, 16);
                assert(0 <= c < 0x10000);
                let target = d0.update(50, (c / 256) as u8).update(51, (c % 256) as u8);
                assert(tcph@ == zeroed.update(16, (c / 256) as u8).update(17, (c % 256) as u8));
                assert forall|j: int| 0 <= j < d0.len() implies p.data@[j] == target[j] by {
                    if 34 <= j < 54 {
                        assert(p.data@[j] == p.data@.subrange(34, 54)[j - 34]);
                        assert(p.data@.subrange(34, 54)[j - 34] == tcph@[j - 34]);
                    }
                }
                assert(p.data@ =~= target);
            }
        } else {
            proof {
                assert(!fill_tcp_cond(old(p).data@, old(p).length as int));
            }
        }
    } else if ip.protocol() == ipv4::PROTOCOL_UDP {
        if (p.length as usize) < 42 {
            return ;
        }
        let pseudo_csum = ip.pseudo_checksum(ipv4::PROTOCOL_UDP, proto_length);
        let mut udph = udp::UDP::from_mem(&p.data, 34);
        let stored = crate::header::get_be16(&p.data, 40);
        if stored == 0xffff - pseudo_csum {
            let payload_length: u16 = p.length - 42;
            let ghost d0 = p.data@;
            let tail = vstd::slice::slice_subrange(p.data.as_slice(), 42, crate::packet::PAYLOAD_SIZE);
            udph.checksum_compute(tail, payload_length, 0xffff - pseudo_csum);
            proof {
                assert(tail@ =~= d0.skip(42));
            }
            udph.copy(&mut p.data, 34);
            proof {
                assert(fill_udp_cond(d0, old(p).length as int));
                let init = 0xffff - spec_pseudo(d0, old(p).length as int, ipv4::PROTOCOL_UDP);
                crate::checksum::lemma_ipsum_bounds(
                    ipv4::pseudo_bytes(d0.subrange(14, 34), ipv4::PROTOCOL_UDP, proto_length),
                    12,
                    0,
                );
                let zeroed = d0.subrange(34, 42).update(6, 0u8).update(7, 0u8);
                crate::checksum::lemma_ipsum_bounds(zeroed, 8, init);
                let hsum = ipsum_spec(zeroed, 8, init);
                crate::checksum::lemma_ipsum_bounds(d0.skip(42), old(p).length - 42, 0xffff - hsum);
                let c = spec_filled_checksum(d0, old(p).length as int, ipv4::PROTOCOL_UDP, 34, 8, 6);
                assert(0 <= c < 0x10000);
                let target = d0.update(40, (c / 256) as u8).update(41, (c % 256) as u8);
                assert(udph@ == zeroed.update(6, (c / 256) as u8).update(7, (c % 256) as u8));
                assert forall|j: int| 0 <= j < d0.len() implies p.data@[j] == target[j] by {
                    if 34 <= j < 42 {
                        assert(p.data@[j] == p.data@.subrange(34, 42)[j - 34]);
                        assert(p.data@.subrange(34, 42)[j - 34] == udph@[j - 34]);
                    }
                }
                assert(p.data@ =~= target);
            }
        } else {
            proof {
                assert(!fill_udp_cond(old(p).data@, old(p).length as int));
            }
        }
    }
}

/// Whether the TSD app segments a packet: option-less IPv4 TCP whose
/// payload exceeds the maximum segment size.
pub open spec fn tsd_segmentable(d: Seq<u8>, len: int, mss: int) -> bool {
    &&& ethernet::spec_ethertype(d) == ethernet::TYPE_IPV4
    &&& ipv4::spec_ihl(d.subrange(14, 34)) <= 5
    &&& ipv4::spec_protocol(d.subrange(14, 34)) == ipv4::PROTOCOL_TCP
    &&& len - tsd_payload_ofs(d, len) > mss
}

/// The payload offset: Ethernet and IPv4 headers plus the TCP header
/// size its data-offset field implies, capped at the packet length.
pub open spec fn tsd_payload_ofs(d: Seq<u8>, len: int) -> int {
    let o = 34 + tcp::spec_size(d.subrange(34, 54));
    if o < len {
        o
    } else {
        len
    }
}

/// One emitted TCP segment: the original headers with the IPv4 total
/// length recomputed and its header checksum valid, the TCP sequence
/// number advanced past the earlier chunks, the TCP checksum holding
/// the offload sentinel for this segment, and the segment's chunk of
/// the original payload appended.
pub open spec fn tsd_segment_ok(d: Seq<u8>, len: int, mss: int, k: int, s: Packet) -> bool {
    let pofs = tsd_payload_ofs(d, len);
    let plen = len - pofs;
    let chunk = if plen - k * mss < mss {
        plen - k * mss
    } else {
        mss
    };
    let slen = pofs + chunk;
    let iph = s.data@.subrange(14, 34);
    &&& s.wf()
    &&& s.length == slen
    &&& ipv4::spec_total_length(iph) == slen - 14
    &&& ipsum_spec(iph, 20, 0) == 0
    &&& tcp::spec_seq(s.data@.subrange(34, 54)) == (tcp::spec_seq(d.subrange(34, 54)) + k * mss)
        % 0x100000000
    &&& tcp::spec_tcp_checksum(s.data@.subrange(34, 54)) == bswap16(
        0xffff - ipsum_spec(ipv4::pseudo_bytes(iph, ipv4::PROTOCOL_TCP, (slen - 34) as u16), 12, 0),
    )
    &&& forall|j: int| 0 <= j < chunk ==> #[trigger] s.data@[pofs + j] == d[pofs + k * mss + j]
    &&& forall|j: int|
        0 <= j < pofs && j != 16 && j != 17 && j != 24 && j != 25 && !(38 <= j < 42) && j != 50
            && j != 51 ==> #[trigger] s.data@[j] == d[j]
}

/// Number of segments the TSD app emits for a payload of `plen` bytes.
pub open spec fn tsd_nseg(plen: int, mss: int) -> int {
    (plen + mss - 1) / mss
}

/// Forward a packet as-is, or, when it is a segmentable TCP packet,
/// split its payload into chunks of at most `mss` bytes, emit one
/// segment per chunk, and free the original.
#[verifier::rlimit(80)]
pub fn forward_tcp_segments(
    output: &mut Link,
    fl: &mut Freelist,
    stats: &mut EngineStats,
    p: Packet,
    mss: u16,
)
    requires
        old(output).wf(),
        old(fl).wf(),
        p.wf(),
        mss >= 1,
        old(fl).outstanding() > 0,
    ensures
        final(stats).breaths == old(stats).breaths,
        final(output).wf(),
        final(fl).wf(),
        final(fl).grown() >= old(fl).grown(),
        final(fl).outstanding() - final(output).len() == old(fl).outstanding() - old(
            output,
        ).len() - 1,
        !tsd_segmentable(p.data@, p.length as int, mss as int) ==> {
            &&& final(output).queue() =~= transmit_spec(old(output).queue(), p)
            &&& final(fl).grown() == old(fl).grown()
        },
        tsd_segmentable(p.data@, p.length as int, mss as int) ==> exists|ss: Seq<Packet>|
            {
                let pofs = tsd_payload_ofs(p.data@, p.length as int);
                let nseg = tsd_nseg(p.length - pofs, mss as int);
                &&& #[trigger] ss.len() <= nseg
                &&& (old(fl).nfree() >= nseg || (old(fl).grown() + old(fl).step_size()
                    <= crate::packet::MAX_PACKETS && nseg <= old(fl).step_size())
                    ==> ss.len() == nseg)
                &&& (forall|k: int|
                    0 <= k < ss.len() ==> tsd_segment_ok(
                        p.data@,
                        p.length as int,
                        mss as int,
                        k,
                        #[trigger] ss[k],
                    ))
                &&& final(output).queue() =~= crate::link::queue_after_transmits(
                    old(output).queue(),
                    ss,
                )
            },
{
    let eth = ethernet::Ethernet::from_mem(&p.data, 0);
    if eth.ethertype() != ethernet::TYPE_IPV4 {
        transmit(output, fl, stats, p);
        return ;
    }
    let mut ip = ipv4::IPv4::from_mem(&p.data, 14);
    if ip.ihl() > 5 {
        transmit(output, fl, stats, p);
        return ;
    }
    if ip.protocol() != ipv4::PROTOCOL_TCP {
        transmit(output, fl, stats, p);
        return ;
    }
    let mut tcph = tcp::TCP::from_mem(&p.data, 34);
    let tsz = tcph.size();
    let payload_ofs: usize = if 34 + tsz < p.length as usize {
        34 + tsz
    } else {
        p.length as usize
    };
    let payload_length: usize = p.length as usize - payload_ofs;
    if payload_length <= mss as usize {
        proof {
            assert(!tsd_segmentable(p.data@, p.length as int, mss as int));
        }
        transmit(output, fl, stats, p);
        return ;
    }
    let ghost d0 = p.data@;
    let ghost len0 = p.length as int;
    let ghost pofs = payload_ofs as int;
    let ghost nseg = tsd_nseg(payload_length as int, mss as int);
    proof {
        assert(1 <= nseg <= payload_length) by (nonlinear_arith)
            requires
                nseg == (payload_length + mss - 1) / (mss as int),
                mss >= 1,
                payload_length > mss,
        ;
    }
    let seq0 = tcph.seq();
    let mut data_ofs: usize = payload_ofs;
    let mut remaining: usize = payload_length;
    let mut emitted: usize = 0;
    let ghost mut ss: Seq<Packet> = Seq::empty();
    proof {
        assert(queue_after_empty(old(output).queue()));
    }
    while remaining > 0
        invariant
            stats.breaths == old(stats).breaths,
            output.wf(),
            fl.wf(),
            p.wf(),
            mss >= 1,
            fl.outstanding() - output.len() == old(fl).outstanding() - old(output).len(),
            tcph.wf(),
            ip.wf(),
            pofs == tsd_payload_ofs(d0, len0),
            54 <= payload_ofs <= p.length,
            len0 <= 65535,
            nseg <= payload_length,
            payload_length > mss,
            seq0 == tcp::spec_seq(d0.subrange(34, 54)),
            payload_ofs == pofs,
            p.data@ == d0,
            p.length == len0,
            payload_length == len0 - pofs,
            remaining > 0 ==> data_ofs == payload_ofs + emitted * mss,
            remaining > 0 ==> remaining == payload_length - emitted * mss,
            remaining == 0 ==> emitted == nseg,
            emitted == ss.len(),
            emitted <= nseg,
            emitted <= 65535,
            nseg == tsd_nseg(payload_length as int, mss as int),
            fl.grown() >= old(fl).grown(),
            fl.outstanding() >= 1,
            old(fl).nfree() >= nseg || (old(fl).grown() + old(fl).step_size()
                <= crate::packet::MAX_PACKETS && nseg <= old(fl).step_size()) ==> fl.nfree()
                >= nseg - emitted || (fl.grown() + fl.step_size() <= crate::packet::MAX_PACKETS
                && nseg - emitted <= fl.step_size()),
            forall|k: int|
                0 <= k < ss.len() ==> tsd_segment_ok(d0, len0, mss as int, k, #[trigger] ss[k]),
            output.queue() =~= crate::link::queue_after_transmits(old(output).queue(), ss),
            // The local headers track the original, fields updated per
            // segment before each emission.
            tcph@ == d0.subrange(34, 54),
            ip@ == d0.subrange(14, 34),
        ensures
            stats.breaths == old(stats).breaths,
            output.wf(),
            fl.wf(),
            p.wf(),
            p.data@ == d0,
            fl.outstanding() - output.len() == old(fl).outstanding() - old(output).len(),
            emitted == ss.len(),
            emitted <= nseg,
            old(fl).nfree() >= nseg || (old(fl).grown() + old(fl).step_size()
                <= crate::packet::MAX_PACKETS && nseg <= old(fl).step_size()) ==> emitted
                == nseg,
            fl.grown() >= old(fl).grown(),
            fl.outstanding() >= 1,
            forall|k: int|
                0 <= k < ss.len() ==> tsd_segment_ok(d0, len0, mss as int, k, #[trigger] ss[k]),
            output.queue() =~= crate::link::queue_after_transmits(old(output).queue(), ss),
        decreases remaining,
    {
        if !fl.can_allocate_now() {
            proof {
                crate::packet::lemma_freelist_counts(fl);
                assert(fl.nfree() == 0);
            }
            break ;
        }
        let slen: usize = if (mss as usize) < remaining {
            mss as usize
        } else {
            remaining
        };
        proof {
            crate::packet::lemma_freelist_counts(fl);
        }
        let ghost fl_pre = *fl;
        let mut s = allocate(fl);
        let mut iph2 = ipv4::IPv4::from_mem(&p.data, 14);
        iph2.set_total_length((payload_ofs + slen - 14) as u16);
        iph2.checksum_compute();
        let pseudo = iph2.pseudo_checksum(ipv4::PROTOCOL_TCP, (payload_ofs + slen - 34) as u16);
        let mut tcph2 = tcp::TCP::from_mem(&p.data, 34);
        proof {
            assert(emitted * mss <= payload_length) by (nonlinear_arith)
                requires
                    remaining == payload_length - emitted * mss,
                    remaining > 0,
                    emitted >= 0,
                    mss >= 1,
            ;
        }
        let adv: u32 = (emitted as u32) * (mss as u32);
        tcph2.set_seq(seq0.wrapping_add(adv));
        tcph2.set_checksum(crate::htons(0xffff - pseudo));
        copy_bytes(&mut s.data, 0, p.data.as_slice(), 0, payload_ofs);
        iph2.copy(&mut s.data, 14);
        tcph2.copy(&mut s.data, 34);
        copy_bytes(&mut s.data, payload_ofs, p.data.as_slice(), data_ofs, slen);
        s.length = (payload_ofs + slen) as u16;
        proof {
            let k = emitted as int;
            let chunk = slen as int;
            let stot = pofs + chunk;
            assert(chunk == if (len0 - pofs) - k * mss < mss {
                (len0 - pofs) - k * mss
            } else {
                mss as int
            });
            assert(s.data@.subrange(14, 34) =~= iph2@);
            assert(s.data@.subrange(34, 54) =~= tcph2@);
            // IPv4 fields: total length was set, the checksum computed
            // over it, and the rest of the header kept.
            assert(ipv4::spec_total_length(iph2@) == stot - 14);
            assert(ipsum_spec(iph2@, 20, 0) == 0);
            // TCP fields: the sequence number advanced by the chunks
            // already emitted, the checksum field holding the sentinel.
            assert(tcp::spec_seq(tcph2@) == (tcp::spec_seq(d0.subrange(34, 54)) + k * mss)
                % 0x100000000) by {
                let sq = tcp::spec_seq(d0.subrange(34, 54));
                assert(seq0 == sq);
                assert(adv == k * mss);
                assert(tcp::spec_seq(tcph2@) == vstd::wrapping::u32_specs::wrapping_add(
                    seq0,
                    adv,
                ));
                if seq0 + adv <= u32::MAX {
                    vstd::arithmetic::div_mod::lemma_small_mod(
                        (seq0 + adv) as nat,
                        0x100000000,
                    );
                } else {
                    vstd::arithmetic::div_mod::lemma_mod_sub_multiples_vanish(
                        sq + k * mss,
                        0x100000000,
                    );
                    vstd::arithmetic::div_mod::lemma_small_mod(
                        (seq0 + adv - 0x100000000) as nat,
                        0x100000000,
                    );
                }
            }
            assert(tcp::spec_tcp_checksum(tcph2@) == bswap16(
                0xffff - ipsum_spec(
                    ipv4::pseudo_bytes(iph2@, ipv4::PROTOCOL_TCP, (stot - 34) as u16),
                    12,
                    0,
                ),
            )) by {
                crate::checksum::lemma_ipsum_bounds(
                    ipv4::pseudo_bytes(iph2@, ipv4::PROTOCOL_TCP, (stot - 34) as u16),
                    12,
                    0,
                );
            }
            // Payload chunk and preserved prefix bytes.
            assert forall|j: int| 0 <= j < chunk implies #[trigger] s.data@[pofs + j] == d0[pofs
                + k * mss + j] by {
                assert(s.data@[payload_ofs + j] == d0[data_ofs + j]);
            }
            assert forall|j: int|
                0 <= j < pofs && j != 16 && j != 17 && j != 24 && j != 25 && !(38 <= j < 42) && j
                    != 50 && j != 51 implies #[trigger] s.data@[j] == d0[j] by {
                if 14 <= j < 34 {
                    assert(s.data@[j] == iph2@[j - 14]);
                } else if 34 <= j < 54 {
                    assert(s.data@[j] == tcph2@[j - 34]);
                } else {
                    assert(s.data@[0 + j] == d0[0 + j]);
                }
            }
            assert(tsd_segment_ok(d0, len0, mss as int, emitted as int, s));
        }
        let ghost out_before = output.queue();
        transmit(output, fl, stats, s);
        proof {
            crate::link::lemma_queue_after_snoc(old(output).queue(), ss, s);
            assert(output.queue() =~= crate::link::transmit_spec(out_before, s));
            ss = ss.push(s);
            crate::packet::lemma_freelist_counts(fl);
            if (old(fl).nfree() >= nseg || (old(fl).grown() + old(fl).step_size()
                <= crate::packet::MAX_PACKETS && nseg <= old(fl).step_size()))
                && fl_pre.nfree() == 0 {
                assert(fl.nfree() >= nseg - (emitted + 1) || (fl.grown() + fl.step_size()
                    <= crate::packet::MAX_PACKETS && nseg - (emitted + 1) <= fl.step_size()));
            }
        }
        proof {
            if remaining - slen > 0 {
                assert(remaining - slen == payload_length - (emitted + 1) * mss
                    && data_ofs + slen == payload_ofs + (emitted + 1) * mss) by (nonlinear_arith)
                    requires
                        slen == mss,
                        remaining == payload_length - emitted * mss,
                        data_ofs == payload_ofs + emitted * mss,
                        remaining - slen > 0,
                ;
                assert(emitted + 1 <= nseg) by (nonlinear_arith)
                    requires
                        nseg == (payload_length + mss - 1) / (mss as int),
                        payload_length - (emitted + 1) * (mss as int) > 0,
                        mss >= 1,
                        emitted >= 0,
                ;
            } else {
                assert(emitted + 1 == nseg) by (nonlinear_arith)
                    requires
                        nseg == (payload_length + mss - 1) / (mss as int),
                        remaining == payload_length - emitted * mss,
                        0 < slen <= mss,
                        slen <= remaining,
                        remaining - slen == 0,
                        mss >= 1,
                        emitted >= 0,
                ;
            }
        }
        data_ofs = data_ofs + slen;
        remaining = remaining - slen;
        emitted = emitted + 1;
    }
    free(fl, stats, p);
    proof {
        assert(tsd_segmentable(d0, len0, mss as int));
        assert(ss.len() <= nseg && (old(fl).nfree() >= nseg || (old(fl).grown() + old(
            fl,
        ).step_size() <= crate::packet::MAX_PACKETS && nseg <= old(fl).step_size())
            ==> ss.len() == nseg) && (forall|k: int|
            0 <= k < ss.len() ==> tsd_segment_ok(d0, len0, mss as int, k, #[trigger] ss[k]))
            && output.queue() =~= crate::link::queue_after_transmits(old(output).queue(), ss));
    }
}

/// A transmit sequence of nothing leaves the queue as it is.
pub open spec fn queue_after_empty(q: Seq<Packet>) -> bool {
    crate::link::queue_after_transmits(q, Seq::<Packet>::empty()) == q
}

} // verus!
