use rush::basic_apps::{PacketGen, Sink};
use rush::config;
use rush::engine::{AppConfig, EngineState};
use rush::flow::{flow_id, flow_slot, murmurhash64_mix64, Dir, Flow, Split, Top, FLOWTOP_NSLOTS};
use rush::ipv4;

fn tcp_packet_a() -> Vec<u8> {
    vec![
        // dst MAC, src MAC, ethertype
        0x52, 0x54, 0x00, 0x02, 0x02, 0x02, 0x52, 0x54, 0x00, 0x01, 0x01, 0x01, 0x08, 0x00,
        // IPv4: version/IHL, TOS, total length, id, flags/frag, TTL,
        // protocol, checksum, src 192.168.0.123, dst 10.10.0.42
        0x45, 0x00, 0x00, 0x34, 0x59, 0x1a, 0x40, 0x00, 0x40, 0x06, 0x00, 0x00, 192, 168, 0,
        123, 10, 10, 0, 42,
        // src port 200, dst port 80
        0, 200, 0, 80,
    ]
}

fn tcp_packet_b() -> Vec<u8> {
    vec![
        0x52, 0x54, 0x00, 0x02, 0x02, 0x02, 0x52, 0x54, 0x00, 0x01, 0x01, 0x01, 0x08, 0x00,
        0x45, 0x00, 0x00, 0x34, 0x59, 0x1a, 0x40, 0x00, 0x40, 0x06, 0x00, 0x00, 192, 168, 178,
        12, 10, 10, 0, 42, 0, 123, 0, 80,
    ]
}

fn ipv6_packet() -> Vec<u8> {
    vec![0x52, 0x54, 0x00, 0x02, 0x02, 0x02, 0x52, 0x54, 0x00, 0x01, 0x01, 0x01, 0x86, 0xdd]
}

#[test]
fn split() {
    let packets = vec![tcp_packet_a(), tcp_packet_b(), ipv6_packet()];
    let mut state = EngineState::new();
    let mut c = config::new();
    config::app(&mut c, "source", AppConfig::PacketGen(PacketGen { packets }));
    config::app(
        &mut c,
        "split",
        AppConfig::Split(Split {
            flows: vec![
                Flow {
                    label: "src_addr".to_string(),
                    dir: Dir::Src,
                    ip: ipv4::pton("192.168.0.123").unwrap(),
                    protocol: 0,
                    port_min: 0,
                    port_max: 0,
                },
                Flow {
                    label: "dst_tcp80".to_string(),
                    dir: Dir::Dst,
                    ip: 0,
                    protocol: ipv4::PROTOCOL_TCP,
                    port_min: 80,
                    port_max: 80,
                },
            ],
        }),
    );
    config::app(&mut c, "sink", AppConfig::Sink(Sink {}));
    config::link(&mut c, "source.output -> split.input");
    config::link(&mut c, "split.src_addr -> sink.src_addr");
    config::link(&mut c, "split.dst_tcp80 -> sink.dst_tcp80");
    config::link(&mut c, "split.default -> sink.default");
    state.configure(&c);
    state.breathe(0);
    assert!(state.find_link("split.src_addr -> sink.src_addr").unwrap().txpackets == 1);
    assert!(state.find_link("split.dst_tcp80 -> sink.dst_tcp80").unwrap().txpackets == 1);
    assert!(state.find_link("split.default -> sink.default").unwrap().txpackets == 1);
}

// Flow-top id encoding: the slot for packet (a) carries
// id = (port << 48) | (protocol << 32) | raw address.
#[test]
fn flowtop_id_encoding() {
    let packets = vec![tcp_packet_a()];
    let mut state = EngineState::new();
    let mut c = config::new();
    config::app(&mut c, "source", AppConfig::PacketGen(PacketGen { packets }));
    config::app(
        &mut c,
        "top",
        AppConfig::Top(Top { path: "flowtop.map".to_string(), dir: Dir::Src }),
    );
    config::app(&mut c, "sink", AppConfig::Sink(Sink {}));
    config::link(&mut c, "source.output -> top.input");
    config::link(&mut c, "top.output -> sink.input");
    state.configure(&c);
    state.breathe(0);
    assert_eq!(
        state.find_link("source.output -> top.input").unwrap().rxpackets,
        state.find_link("top.output -> sink.input").unwrap().txpackets
    );
    let addr = ipv4::pton("192.168.0.123").unwrap();
    let expected_id: u64 = (200u64 << 48) | (6u64 << 32) | (addr as u64);
    assert_eq!(flow_id(addr, 6, 200), expected_id);
    let slot = flow_slot(expected_id);
    assert!(slot < FLOWTOP_NSLOTS);
    // Find the Top app's table and check the slot.
    let mut found = false;
    for entry in &state.apps {
        if entry.name == "top" {
            match &entry.state.app {
                rush::engine::App::Top(t) => {
                    assert_eq!(t.table[slot].id, expected_id);
                    assert_eq!(t.table[slot].packets, 1);
                    let bits = (12 + 8 + 60 + 4) * 8; // 38-byte frame, padded
                    assert_eq!(t.table[slot].bits, bits);
                    found = true;
                },
                _ => panic!("wrong app kind"),
            }
        }
    }
    assert!(found);
}

#[test]
fn murmur_mixes() {
    // The finalizer maps zero to zero and spreads small values.
    assert_eq!(murmurhash64_mix64(0), 0);
    assert_ne!(murmurhash64_mix64(1), 1);
    assert_ne!(murmurhash64_mix64(1), murmurhash64_mix64(2));
}
