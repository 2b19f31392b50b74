use rush::ethernet::{ntop, pton, Ethernet, TYPE_IPV4};

#[test]
fn ethernet() {
    let mut eth = Ethernet::new();
    eth.set_src(&pton("42:42:42:42:42:42"));
    eth.set_ethertype(TYPE_IPV4);
    let mem: Vec<u8> = vec![1; 20];
    let mut eth2 = Ethernet::from_mem(&mem, 0);
    eth2.set_dst(&pton("01:02:03:04:05:06"));
    eth2.set_ethertype(TYPE_IPV4);
    eth.set_dst(&eth2.dst());
    eth.swap();
    println!(
        "eth  dst = to {} from {} ({:x})",
        ntop(&eth.dst()),
        ntop(&eth.src()),
        eth.ethertype()
    );
    println!(
        "eth2 dst = to {} from {} ({:x})",
        ntop(&eth2.dst()),
        ntop(&eth2.src()),
        eth2.ethertype()
    );
    println!("size_of::<Ethernet> {}", Ethernet::size_of());
    assert_eq!(eth.src(), pton("01:02:03:04:05:06"));
    assert_eq!(eth.dst(), pton("42:42:42:42:42:42"));
    assert_eq!(eth.ethertype(), TYPE_IPV4);
    assert_eq!(ntop(&eth.dst()), "42:42:42:42:42:42");
    assert_eq!(ntop(&eth2.dst()), "1:2:3:4:5:6");
}
