use rush::engine::EngineStats;
use rush::link::{empty, full, new, receive, transmit, LINK_MAX_PACKETS};
use rush::packet;

#[test]
fn link() {
    let mut fl = packet::Freelist::new();
    let mut stats = EngineStats::new();
    let mut r = new();
    println!("Allocated a link of capacity {}", LINK_MAX_PACKETS);
    let to_transmit: u16 = 2000;
    if full(&r) {
        panic!("Link should be empty.");
    }
    for n in 1..=to_transmit {
        let mut p = packet::allocate(&mut fl);
        p.length = n;
        p.data[(n - 1) as usize] = 42;
        transmit(&mut r, &mut fl, &mut stats, p);
    }
    println!("Transmitted {} packets", to_transmit);
    if empty(&r) || !full(&r) {
        panic!("Link should be full.");
    }
    // Everything over capacity was dropped and counted.
    assert_eq!(r.txpackets, LINK_MAX_PACKETS as u64);
    assert_eq!(r.txdrop, (to_transmit as u64) - (LINK_MAX_PACKETS as u64));
    let mut n: usize = 0;
    while !empty(&r) {
        n += 1;
        let p = receive(&mut r);
        if p.length != n as u16 || p.data[n - 1] != 42 {
            panic!("Corrupt packet!");
        }
        packet::free(&mut fl, &mut stats, p);
    }
    println!("Received {} packets", n);
    assert_eq!(n, LINK_MAX_PACKETS);
    assert_eq!(r.rxpackets, r.txpackets);
    println!(
        "link: rxpackets={} rxbytes={} txpackets={} txbytes={} txdrop={}",
        r.rxpackets, r.rxbytes, r.txpackets, r.txbytes, r.txdrop
    );
}

// FIFO: packets come out in transmit order, nothing dropped below the
// capacity, and the counters add up.
#[test]
fn link_fifo_order() {
    let mut fl = packet::Freelist::new();
    let mut stats = EngineStats::new();
    let mut r = new();
    for n in 1..=100u16 {
        let mut p = packet::allocate(&mut fl);
        p.length = n;
        transmit(&mut r, &mut fl, &mut stats, p);
    }
    assert_eq!(r.txdrop, 0);
    for n in 1..=100u16 {
        let p = receive(&mut r);
        assert_eq!(p.length, n);
        packet::free(&mut fl, &mut stats, p);
    }
    assert!(empty(&r));
    assert_eq!(r.txpackets, r.rxpackets + r.txdrop);
}

// A fresh freelist has no stock, yet a Source pull still delivers a full
// batch by growing it.
#[test]
fn source_pull_grows_freelist() {
    let mut fl = packet::Freelist::new();
    let mut stats = EngineStats::new();
    let mut out = new();
    assert_eq!(fl.free_count(), 0);
    let n = rush::basic_apps::source_pull(&mut fl, &mut stats, &mut out, 60);
    assert_eq!(n, rush::engine::PULL_NPACKETS);
    let mut count = 0;
    while !empty(&out) {
        let p = receive(&mut out);
        assert_eq!(p.length, 60);
        assert!(p.data[..60].iter().all(|&b| b == 0));
        rush::packet::free(&mut fl, &mut stats, p);
        count += 1;
    }
    assert_eq!(count, rush::engine::PULL_NPACKETS);
}

// The packet generator emits its pending payloads newest first, one
// packet per payload, and leaves the list empty.
#[test]
fn packetgen_emits_newest_first() {
    let mut fl = packet::Freelist::new();
    let mut stats = EngineStats::new();
    let mut out = new();
    let mut pending = vec![vec![1u8, 2, 3], vec![4u8, 5], vec![6u8]];
    rush::basic_apps::packetgen_pull(&mut fl, &mut stats, &mut out, &mut pending);
    assert!(pending.is_empty());
    let expected: [&[u8]; 3] = [&[6], &[4, 5], &[1, 2, 3]];
    for want in expected {
        assert!(!empty(&out));
        let p = receive(&mut out);
        assert_eq!(p.length as usize, want.len());
        assert_eq!(&p.data[..want.len()], want);
        rush::packet::free(&mut fl, &mut stats, p);
    }
    assert!(empty(&out));
}
