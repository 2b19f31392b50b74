use rush::htons;
use rush::ipv4::IPv4;
use rush::tcp::TCP;

#[test]
fn tcp_checksum() {
    let ip_base = 14;
    let tcp_base = ip_base + 20;
    let tcp_hdr_size = 20;
    let payload_base = tcp_base + tcp_hdr_size;

    let p: Vec<u8> = vec![
        0x52, 0x54, 0x00, 0x02, 0x02, 0x02, 0x52, 0x54, 0x00, 0x01, 0x01, 0x01, 0x08, 0x00,
        0x45, 0x00, 0x00, 0x34, 0x59, 0x1a, 0x40, 0x00, 0x40, 0x06, 0x00, 0x00, 0xc0, 0xa8,
        0x14, 0xa9, 0x6b, 0x15, 0xf0, 0xb4, 0xde, 0x0b, 0x01, 0xbb, 0xe7, 0xdb, 0x57, 0xbc,
        0x91, 0xcd, 0x18, 0x32, 0x80, 0x10, 0x05, 0x9f, 0x00, 0x00, 0x00, 0x00, 0x01, 0x01,
        0x08, 0x0a, 0x06, 0x0c, 0x5c, 0xbd, 0xfa, 0x4a, 0xe1, 0x65,
    ];
    let ip = IPv4::from_mem(&p, ip_base);
    let mut tcp = TCP::from_mem(&p, tcp_base);
    let payload_length = p.len() - payload_base;
    tcp.checksum_compute(
        &p[payload_base..],
        payload_length as u16,
        !ip.pseudo_checksum(6, (tcp_hdr_size + payload_length) as u16),
    );
    assert!(tcp.checksum() == htons(0x382a), "Wrong TCP checksum");

    assert!(tcp.data_offset() == 8);
    assert!(tcp.size() == 32);
    tcp.set_data_offset(0); // invalid
    assert!(tcp.size() == 20);

    assert!(tcp.seq() == 3889911740);
    tcp.set_seq(42);
    assert!(tcp.seq() == 42);
}
