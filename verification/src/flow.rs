//! Flow classification (Split) and flow profiling (Top).
use vstd::prelude::*;

use crate::ethernet;
use crate::header::{be16};
use crate::ipv4;
use crate::packet::{spec_bitlength, Packet};
use crate::sat_add64;
use crate::sat_add;

verus! {

/// Which side of a packet a flow inspects.
#[derive(Clone, Copy, Debug, PartialEq, Eq, Structural)]
pub enum Dir {
    Src,
    Dst,
}

/// A flow descriptor: packets match on address, protocol and port range;
/// zero means any address or any protocol.
pub struct Flow {
    pub label: String,
    pub dir: Dir,
    pub ip: ipv4::Address,
    pub protocol: u8,
    pub port_min: u16,
    pub port_max: u16,
}

/// Split app configuration: match packets against flows in order and
/// forward them to the matching label's output, or to `default`.
pub struct Split {
    pub flows: Vec<Flow>,
}

/// Top app configuration: count flows into a table at `path`.
pub struct Top {
    pub path: String,
    pub dir: Dir,
}

/// Runtime state of a Split app.
pub struct SplitApp {
    pub flows: Vec<Flow>,
}

/// Runtime state of a Top app: the in-memory counter table.
pub struct TopApp {
    pub table: Vec<FlowCtr>,
    pub dir: Dir,
}

/// Byte offset of the IPv4 header in a packet.
pub open spec fn ip_ofs() -> int {
    14
}

/// Byte offset of the transport header in an option-less IPv4 packet.
pub open spec fn proto_ofs() -> int {
    34
}

/// Whether a packet's bytes match one flow descriptor: IPv4 without
/// options, the selected address and protocol agree (zero is a
/// wildcard), and for TCP or UDP the selected port lies in the range.
pub open spec fn spec_flow_match(d: Seq<u8>, dir: Dir, ip: u32, protocol: u8, port_min: u16, port_max: u16) -> bool {
    let ethertype = ethernet::spec_ethertype(d);
    let ihl = ipv4::spec_ihl(d.subrange(ip_ofs(), ip_ofs() + 20));
    let addr = match dir {
        Dir::Src => ipv4::spec_src(d.subrange(ip_ofs(), ip_ofs() + 20)),
        Dir::Dst => ipv4::spec_dst(d.subrange(ip_ofs(), ip_ofs() + 20)),
    };
    let proto = ipv4::spec_protocol(d.subrange(ip_ofs(), ip_ofs() + 20));
    let port = match dir {
        Dir::Src => be16(d, proto_ofs()),
        Dir::Dst => be16(d, proto_ofs() + 2),
    };
    if ethertype != ethernet::TYPE_IPV4 {
        false
    } else if ihl > 5 {
        false
    } else if ip > 0 && addr != ip {
        false
    } else if protocol > 0 && proto != protocol {
        false
    } else if protocol == ipv4::PROTOCOL_TCP || protocol == ipv4::PROTOCOL_UDP {
        port_min <= port && port <= port_max
    } else {
        true
    }
}

/// Whether a packet matches a flow. TCP and UDP lay out their port pair
/// identically, so one port read serves both.
pub fn flow_match(p: &Packet, flow: &Flow) -> (r: bool)
    requires
        p.wf(),
    ensures
        r == spec_flow_match(
            p.data@,
            flow.dir,
            flow.ip,
            flow.protocol,
            flow.port_min,
            flow.port_max,
        ),
{
    let eth = ethernet::Ethernet::from_mem(&p.data, 0);
    if eth.ethertype() != ethernet::TYPE_IPV4 {
        return false;
    }
    let ip = ipv4::IPv4::from_mem(&p.data, 14);
    if ip.ihl() > 5 {
        return false;
    }
    let addr = match flow.dir {
        Dir::Src => ip.src(),
        Dir::Dst => ip.dst(),
    };
    if flow.ip > 0 && addr != flow.ip {
        return false;
    }
    if flow.protocol > 0 && ip.protocol() != flow.protocol {
        return false;
    }
    if flow.protocol == ipv4::PROTOCOL_TCP || flow.protocol == ipv4::PROTOCOL_UDP {
        let port = match flow.dir {
            Dir::Src => crate::header::get_be16(&p.data, 34),
            Dir::Dst => crate::header::get_be16(&p.data, 36),
        };
        if port < flow.port_min || port > flow.port_max {
            return false;
        }
    }
    true
}

/// The first flow a packet matches, if any.
pub open spec fn spec_route(d: Seq<u8>, flows: Seq<Flow>) -> Option<int>
    decreases flows.len(),
{
    if flows.len() == 0 {
        Option::None
    } else if spec_flow_match(
        d,
        flows[0].dir,
        flows[0].ip,
        flows[0].protocol,
        flows[0].port_min,
        flows[0].port_max,
    ) {
        Option::Some(0int)
    } else {
        match spec_route(d, flows.drop_first()) {
            Option::None => Option::None,
            Option::Some(i) => Option::Some(i + 1),
        }
    }
}

/// Return the index of the first flow the packet matches: the packet
/// goes to that flow's output, or to `default` when none matches.
pub fn route_flows(p: &Packet, flows: &Vec<Flow>) -> (r: Option<usize>)
    requires
        p.wf(),
    ensures
        r matches Some(i) ==> i < flows.len(),
        spec_route(p.data@, flows@) == match r {
            Option::Some(i) => Option::Some(i as int),
            Option::None => Option::<int>::None,
        },
{
    proof {
        assert(flows@.skip(0) =~= flows@);
    }
    let mut k: usize = 0;
    while k < flows.len()
        invariant
            p.wf(),
            k <= flows.len(),
            spec_route(p.data@, flows@) == match spec_route(p.data@, flows@.skip(k as int)) {
                Option::None => Option::<int>::None,
                Option::Some(i) => Option::Some(i + k),
            },
        decreases flows.len() - k,
    {
        let ghost pre = flows@.skip(k as int);
        if flow_match(p, &flows[k]) {
            proof {
                assert(pre[0] == flows@[k as int]);
                assert(spec_route(p.data@, pre) == Option::Some(0int));
            }
            return Some(k);
        }
        proof {
            assert(pre[0] == flows@[k as int]);
            assert(pre.drop_first() =~= flows@.skip(k + 1));
        }
        k = k + 1;
    }
    proof {
        assert(flows@.skip(flows.len() as int) =~= Seq::<Flow>::empty());
    }
    None
}

/// Number of slots in a flow-top table. A power of two: the hash is
/// masked to select a slot.
pub const FLOWTOP_NSLOTS: usize = 2048;

/// One flow-top slot: a packet counter, a wire-bit counter, and the flow
/// id of the last counted packet.
#[derive(Clone, Copy)]
pub struct FlowCtr {
    pub packets: u64,
    pub bits: u64,
    pub id: u64,
}

/// The 64-bit finalizer of MurmurHash3 applied to a flow id.
pub open spec fn murmur_mix64(k: u64) -> u64 {
    let a = k ^ (k >> 33);
    let b = vstd::wrapping::u64_specs::wrapping_mul(a, 0xff51afd7ed558ccd);
    let c = b ^ (b >> 33);
    let d = vstd::wrapping::u64_specs::wrapping_mul(c, 0xc4ceb9fe1a85ec53);
    d ^ (d >> 33)
}

/// Mix a flow id through the MurmurHash3 64-bit finalizer.
pub fn murmurhash64_mix64(k: u64) -> (r: u64)
    ensures
        r == murmur_mix64(k),
{
    let mut k = k;
    k = k ^ (k >> 33);
    k = k.wrapping_mul(0xff51afd7ed558ccd);
    k = k ^ (k >> 33);
    k = k.wrapping_mul(0xc4ceb9fe1a85ec53);
    k = k ^ (k >> 33);
    k
}

/// A flow tuple encoded as one 64-bit word: port, protocol, address.
pub open spec fn spec_flow_id(ip: u32, protocol: u8, port: u16) -> int {
    port * 0x1000000000000 + protocol * 0x100000000 + ip
}

pub fn flow_id(ip: u32, protocol: u8, port: u16) -> (r: u64)
    ensures
        r == spec_flow_id(ip, protocol, port),
{
    (port as u64) * 0x1000000000000 + (protocol as u64) * 0x100000000 + (ip as u64)
}

/// The table slot a flow id hashes to.
pub open spec fn spec_flow_slot(id: u64) -> int {
    murmur_mix64(id) as int % (FLOWTOP_NSLOTS as int)
}

pub fn flow_slot(id: u64) -> (r: usize)
    ensures
        r == spec_flow_slot(id),
        r < FLOWTOP_NSLOTS,
{
    (murmurhash64_mix64(id) % (FLOWTOP_NSLOTS as u64)) as usize
}

/// A fresh flow-top table: every slot zero.
pub fn new_flowtop_table() -> (r: Vec<FlowCtr>)
    ensures
        r.len() == FLOWTOP_NSLOTS,
        forall|i: int|
            0 <= i < FLOWTOP_NSLOTS ==> (#[trigger] r@[i]).packets == 0 && r@[i].bits == 0
                && r@[i].id == 0,
{
    let mut table: Vec<FlowCtr> = Vec::new();
    let mut k: usize = 0;
    while k < FLOWTOP_NSLOTS
        invariant
            k <= FLOWTOP_NSLOTS,
            table.len() == k,
            forall|i: int|
                0 <= i < k ==> (#[trigger] table@[i]).packets == 0 && table@[i].bits == 0
                    && table@[i].id == 0,
        decreases FLOWTOP_NSLOTS - k,
    {
        table.push(FlowCtr { packets: 0, bits: 0, id: 0 });
        k = k + 1;
    }
    table
}

/// Count one packet of `bits` wire bits under the given flow tuple: the
/// slot selected by the hashed id records the id and accumulates the
/// packet and its bits.
pub fn flowtop_inc(table: &mut Vec<FlowCtr>, ip: u32, protocol: u8, port: u16, bits: u64)
    requires
        old(table).len() == FLOWTOP_NSLOTS,
    ensures
        final(table).len() == FLOWTOP_NSLOTS,
        ({
            let id = spec_flow_id(ip, protocol, port);
            let slot = spec_flow_slot(id as u64);
            let c = old(table)@[slot];
            final(table)@ =~= old(table)@.update(
                slot,
                FlowCtr {
                    packets: sat_add(c.packets as int, 1) as u64,
                    bits: sat_add(c.bits as int, bits as int) as u64,
                    id: id as u64,
                },
            )
        }),
{
    let id = flow_id(ip, protocol, port);
    let slot = flow_slot(id);
    let c = table[slot];
    table[slot] =
        FlowCtr {
            packets: sat_add64(c.packets, 1),
            bits: sat_add64(c.bits, bits),
            id,
        };
}

/// The flow tuple a Top app extracts from a packet: zeros except where
/// the packet is IPv4 (address and protocol) and additionally
/// option-less TCP or UDP (port).
pub open spec fn spec_flow_tuple(d: Seq<u8>, dir: Dir) -> (u32, u8, u16) {
    let iph = d.subrange(ip_ofs(), ip_ofs() + 20);
    if ethernet::spec_ethertype(d) != ethernet::TYPE_IPV4 {
        (0u32, 0u8, 0u16)
    } else {
        let addr = (match dir {
            Dir::Src => ipv4::spec_src(iph),
            Dir::Dst => ipv4::spec_dst(iph),
        }) as u32;
        let proto = ipv4::spec_protocol(iph) as u8;
        if ipv4::spec_ihl(iph) == 5 && (proto == ipv4::PROTOCOL_TCP || proto
            == ipv4::PROTOCOL_UDP) {
            let port = (match dir {
                Dir::Src => be16(d, proto_ofs()),
                Dir::Dst => be16(d, proto_ofs() + 2),
            }) as u16;
            (addr, proto, port)
        } else {
            (addr, proto, 0u16)
        }
    }
}

/// Count one packet in a flow-top table, keyed by the flow tuple its
/// bytes carry in the selected direction.
pub fn flow_count(p: &Packet, dir: Dir, table: &mut Vec<FlowCtr>)
    requires
        p.wf(),
        old(table).len() == FLOWTOP_NSLOTS,
    ensures
        final(table).len() == FLOWTOP_NSLOTS,
        ({
            let (addr, proto, port) = spec_flow_tuple(p.data@, dir);
            let id = spec_flow_id(addr, proto, port);
            let slot = spec_flow_slot(id as u64);
            let c = old(table)@[slot];
            final(table)@ =~= old(table)@.update(
                slot,
                FlowCtr {
                    packets: sat_add(c.packets as int, 1) as u64,
                    bits: sat_add(c.bits as int, spec_bitlength(p.length as int)) as u64,
                    id: id as u64,
                },
            )
        }),
{
    let mut addr: u32 = 0;
    let mut protocol: u8 = 0;
    let mut port: u16 = 0;
    let eth = ethernet::Ethernet::from_mem(&p.data, 0);
    if eth.ethertype() == ethernet::TYPE_IPV4 {
        let ip = ipv4::IPv4::from_mem(&p.data, 14);
        addr = match dir {
            Dir::Src => ip.src(),
            Dir::Dst => ip.dst(),
        };
        protocol = ip.protocol();
        if ip.ihl() == 5 && (protocol == ipv4::PROTOCOL_TCP || protocol == ipv4::PROTOCOL_UDP) {
            port = match dir {
                Dir::Src => crate::header::get_be16(&p.data, 34),
                Dir::Dst => crate::header::get_be16(&p.data, 36),
            };
        }
    }
    let bits = crate::packet::bitlength(p);
    flowtop_inc(table, addr, protocol, port, bits);
}

} // verus!
