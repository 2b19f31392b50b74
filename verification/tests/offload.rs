use rush::basic_apps::{PacketGen, Sink};
use rush::config;
use rush::engine::{AppConfig, EngineState};
use rush::checksum::ipsum;
use rush::htons;
use rush::ipv4::IPv4;
use rush::offload::{Checksum, TSD};
use rush::tcp::TCP;

// An IPv4/TCP packet with `payload` bytes of payload.
fn tcp_packet_with_payload(payload: usize) -> Vec<u8> {
    let mut p: Vec<u8> = vec![
        0x52, 0x54, 0x00, 0x02, 0x02, 0x02, 0x52, 0x54, 0x00, 0x01, 0x01, 0x01, 0x08, 0x00,
        // IPv4 header
        0x45, 0x00, 0x00, 0x00, 0x59, 0x1a, 0x40, 0x00, 0x40, 0x06, 0x00, 0x00, 192, 168, 0, 1,
        10, 0, 0, 2,
        // TCP header: ports 1000 -> 2000, seq 5000, ack 0, offset 5
        0x03, 0xe8, 0x07, 0xd0, 0x00, 0x00, 0x13, 0x88, 0x00, 0x00, 0x00, 0x00, 0x50, 0x10,
        0x01, 0x00, 0x00, 0x00, 0x00, 0x00,
    ];
    let total = 20 + 20 + payload;
    p[16] = (total >> 8) as u8;
    p[17] = (total & 0xff) as u8;
    for i in 0..payload {
        p.push((i % 251) as u8);
    }
    p
}

// TSD segmentation: a 4000-byte payload at MSS 1400 yields segments of
// 1400, 1400 and 1200 bytes, with the IPv4 length and checksum redone,
// the sequence numbers advanced, and the offload sentinel in the TCP
// checksum field.
#[test]
fn tsd_segmentation() {
    let packet = tcp_packet_with_payload(4000);
    let orig_seq = 5000u32;
    let mut state = EngineState::new();
    let mut c = config::new();
    config::app(
        &mut c,
        "source",
        AppConfig::PacketGen(PacketGen { packets: vec![packet.clone()] }),
    );
    config::app(&mut c, "tsd", AppConfig::Tsd(TSD { mss: 1400 }));
    config::app(&mut c, "sink", AppConfig::Sink(Sink {}));
    config::link(&mut c, "source.output -> tsd.input");
    config::link(&mut c, "tsd.output -> sink.sunk");
    state.configure(&c);
    // Pull generates the packet; stop before the sink by leaving the
    // TSD output unconnected to a draining port name.
    // (The sink drains any input port, so inspect before its push: run
    // only the source's pull and the TSD's push by hand.)
    state.app_pull_named(&"source".to_string());
    state.app_push_named(&"tsd".to_string());
    let out = state.find_link("tsd.output -> sink.sunk").unwrap();
    assert_eq!(out.txpackets, 3);
    let expected = [(1400usize, 0u32), (1400, 1400), (1200, 2800)];
    for (k, (chunk, advance)) in expected.iter().enumerate() {
        let p = match &out.packets[(out.read + k) % 1024] {
            Some(p) => p,
            None => panic!("missing segment"),
        };
        assert_eq!(p.length as usize, 54 + chunk);
        let ip = IPv4::from_mem(&p.data, 14);
        assert_eq!(ip.total_length() as usize, 40 + chunk);
        assert!(ip.checksum_ok());
        let tcp = TCP::from_mem(&p.data, 34);
        assert_eq!(tcp.seq(), orig_seq + advance);
        let pseudo = ip.pseudo_checksum(6, (20 + chunk) as u16);
        assert_eq!(tcp.checksum(), htons(!pseudo));
        // The payload bytes are the original chunk.
        for j in 0..*chunk {
            assert_eq!(p.data[54 + j], packet[54 + 1400 * k + j]);
        }
    }
}

// Checksum app: a packet carrying the offload sentinel gets a checksum
// that verifies against the pseudo-header seed; other packets pass
// through untouched.
#[test]
fn checksum_fill_in() {
    let mut packet = tcp_packet_with_payload(100);
    // Store the sentinel: the complement of the pseudo-header sum, in
    // network byte order.
    {
        let ip = IPv4::from_mem(&packet.clone().into_iter().collect(), 14);
        let pseudo = ip.pseudo_checksum(6, 120);
        let sentinel = !pseudo;
        packet[50] = (sentinel >> 8) as u8;
        packet[51] = (sentinel & 0xff) as u8;
    }
    let mut state = EngineState::new();
    let mut c = config::new();
    config::app(
        &mut c,
        "source",
        AppConfig::PacketGen(PacketGen { packets: vec![packet.clone()] }),
    );
    config::app(&mut c, "csum", AppConfig::Checksum(Checksum {}));
    config::app(&mut c, "sink", AppConfig::Sink(Sink {}));
    config::link(&mut c, "source.output -> csum.input");
    config::link(&mut c, "csum.output -> sink.sunk");
    state.configure(&c);
    state.app_pull_named(&"source".to_string());
    state.app_push_named(&"csum".to_string());
    let out = state.find_link("csum.output -> sink.sunk").unwrap();
    assert_eq!(out.txpackets, 1);
    let p = match &out.packets[out.read % 1024] {
        Some(p) => p,
        None => panic!("missing packet"),
    };
    let ip = IPv4::from_mem(&p.data, 14);
    let pseudo = ip.pseudo_checksum(6, 120);
    // Filled in: the checksum over TCP header and payload, seeded with
    // the complement of the pseudo-header sum, verifies to zero.
    assert_eq!(ipsum(&p.data[34..(34 + 120)], 120, !pseudo), 0);
    assert_ne!(p.data[50..52], packet[50..52]);
}
