use rush::ipv4::{ntop, pton, IPv4, PROTOCOL_TCP, PROTOCOL_UDP};

#[test]
fn ipv4() {
    let mut ip = IPv4::new();
    ip.set_src(pton("127.1.2.3").unwrap());
    ip.set_protocol(PROTOCOL_UDP);
    let mem: Vec<u8> = vec![1; 20];
    let mut ip2 = IPv4::from_mem(&mem, 0);
    ip2.set_dst(pton("127.4.5.6").unwrap());
    ip2.set_protocol(PROTOCOL_TCP);
    ip.set_dst(ip2.dst());
    ip.swap();
    println!("ip  dst={} src={} ({})", ntop(ip.dst()), ntop(ip.src()), ip.protocol());
    println!("ip2 dst={} src={} ({})", ntop(ip2.dst()), ntop(ip2.src()), ip2.protocol());
    println!("size_of::<IPv4> {}", IPv4::size_of());
    println!("version={} ihl={}", ip.version(), ip.ihl());
    println!("total_length={}", ip.total_length());
    assert_eq!(ip.version(), 4);
    assert_eq!(ip.ihl(), 5);
    assert_eq!(ip.total_length(), 20);
    assert_eq!(ip.src(), pton("127.4.5.6").unwrap());
    assert_eq!(ip.dst(), pton("127.1.2.3").unwrap());
    let mut ip = IPv4::new();
    ip.set_total_length(60);
    ip.set_id(23757);
    ip.set_flags(0b010); // do not fragment
    ip.set_ttl(64);
    ip.set_protocol(PROTOCOL_TCP);
    ip.set_src(pton("127.0.0.1").unwrap());
    ip.set_dst(pton("127.0.0.1").unwrap());
    ip.checksum_compute();
    println!("ip={:x?}", ip.header_slice());
    println!("checksum={:x} (ok={})", ip.checksum(), ip.checksum_ok());
    assert!(ip.checksum_ok());
    println!(
        "pseudo header (tcp, 40 bytes) checksum={:x}",
        !ip.pseudo_checksum(PROTOCOL_TCP, 20 + 20)
    );
}

#[test]
fn ipv4_ntop_pton() {
    assert_eq!(ntop(pton("192.168.0.123").unwrap()), "192.168.0.123");
    assert_eq!(ntop(pton("0.0.0.0").unwrap()), "0.0.0.0");
    assert_eq!(ntop(pton("255.255.255.255").unwrap()), "255.255.255.255");
    assert!(pton("256.0.0.1").is_none());
    assert!(pton("1.2.3").is_none());
    assert!(pton("01.2.3.4").is_none());
    // The raw address puts the first octet in the low-order byte.
    assert_eq!(pton("1.2.3.4").unwrap(), 0x04030201);
}
