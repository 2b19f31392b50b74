use rush::engine::EngineStats;
use rush::packet::{allocate, bitlength, free, preallocate, Freelist};

#[test]
fn packet_alloc() {
    let mut fl = Freelist::new();
    let mut stats = EngineStats::new();
    let mut p = allocate(&mut fl);
    println!("Allocated a packet of length {}", p.length);
    p.length = 1;
    p.data[0] = 42;
    println!("Mutating packet (length = {}, data[0] = {})", p.length, p.data[0]);
    let len = p.length;
    free(&mut fl, &mut stats, p);
    println!("Freed a packet of length {}", len);
    assert_eq!(stats.frees, 1);
    assert_eq!(stats.freebytes, 1);
}

// Freelist conservation: created equals waiting plus in circulation.
#[test]
fn freelist_conservation() {
    let mut fl = Freelist::new();
    let mut stats = EngineStats::new();
    preallocate(&mut fl, 2000);
    let grown = fl.allocated_count();
    assert!(grown >= 2000);
    let mut held = Vec::new();
    for _ in 0..150 {
        held.push(allocate(&mut fl));
    }
    assert_eq!(fl.allocated_count(), grown);
    assert_eq!(fl.free_count(), grown - 150);
    for p in held {
        free(&mut fl, &mut stats, p);
    }
    assert_eq!(fl.free_count(), grown);
    assert_eq!(stats.frees, 150);
}

#[test]
fn bitlength_accounts_for_overhead() {
    let mut fl = Freelist::new();
    let mut stats = EngineStats::new();
    let mut p = allocate(&mut fl);
    p.length = 60;
    assert_eq!(bitlength(&p), (12 + 8 + 60 + 4) * 8);
    p.length = 10;
    // Padded up to the minimum frame size.
    assert_eq!(bitlength(&p), (12 + 8 + 60 + 4) * 8);
    p.length = 1500;
    assert_eq!(bitlength(&p), (12 + 8 + 1500 + 4) * 8);
    free(&mut fl, &mut stats, p);
}
