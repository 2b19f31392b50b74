use rush::checksum::ipsum;

// Reference ones-complement checksum, summed 16 bits at a time.
fn checksum_reference(data: &[u8], length: usize) -> u16 {
    let mut csum: u64 = 0;
    let mut i = length;
    while i > 1 {
        let ofs = length - i;
        let word = (data[ofs] as u64) | ((data[ofs + 1] as u64) << 8);
        csum += word;
        i -= 2;
    }
    if i == 1 {
        csum += data[length - 1] as u64;
    }
    loop {
        let carry = csum >> 16;
        if carry == 0 {
            break;
        }
        csum = (csum & 0xffff) + carry;
    }
    (!(csum as u16)).swap_bytes()
}

#[test]
fn checksum_checksum() {
    let cases: Vec<&[u8]> = vec![
        &[0xffu8, 0xff, 0xff, 0xff, 0xff],
        &[0u8, 0, 0, 0, 0],
        &[42u8, 41, 40, 39, 38, 37, 36, 35, 34, 33, 32, 31, 30, 29, 28],
        &[],
        &[
            01u8, 02, 03, 04, 05, 06, 07, 08, 09, 10, 11, 12, 13, 14, 15, 16, 01u8, 02, 03, 04,
            05, 06, 07, 08, 09, 10, 11, 12, 13, 14, 15, 16, 01u8, 02, 03, 04, 05, 06, 07, 08,
            09, 10, 11, 12, 13, 14, 15, 16, 01u8, 02, 03, 04, 05, 06, 07, 08, 09, 10, 11, 12,
            13, 14, 15,
        ],
    ];
    for case in cases {
        for l in 0..=case.len() {
            let n = checksum_reference(case, l);
            println!("{:?} {} {}", &case, l, n);
            assert_eq!(ipsum(case, l, 0), n);
        }
    }
}

#[test]
fn checksum_carry() {
    for l in 2..=63 {
        let mut case = vec![0u8; l];
        for i in 0..=l - 2 {
            case[i] = 0xff;
        }
        case[l - 1] = 0x01;
        let n = checksum_reference(&case, l);
        println!("{:?} {} {}", &case, l, n);
        assert_eq!(ipsum(&case, l, 0), n);
    }
}

#[test]
fn checksum_random() {
    let mut progress = 1;
    for i in 1..=32 {
        if i >= progress {
            println!("{}", progress);
            progress *= 2;
        }
        for l in 0..=1500 {
            let mut case = vec![0u8; l];
            for b in case.iter_mut() {
                *b = rand::Rng::gen(&mut rand::thread_rng());
            }
            let r = checksum_reference(&case, l);
            let n = ipsum(&case, l, 0);
            if r != n {
                println!("{:?} len={} ref={} asm={}", &case, l, r, n);
                panic!("mismatch");
            }
        }
    }
}

// Checksum chaining: the sum over a concatenation equals the sum over
// the second block seeded with the complement of the first block's sum,
// for an even-length first block.
#[test]
fn checksum_chain_concrete() {
    let a: Vec<u8> = vec![0x12, 0x34, 0x56, 0x78, 0x9a, 0xbc];
    let b: Vec<u8> = vec![0xde, 0xf0, 0x11, 0x22, 0x33];
    let mut v = a.clone();
    v.extend_from_slice(&b);
    let whole = ipsum(&v, v.len(), 0);
    let first = ipsum(&a, a.len(), 0);
    let chained = ipsum(&b, b.len(), !first);
    assert_eq!(whole, chained);
}

// An odd-length first block shifts the second block's word boundaries,
// so chaining does not apply there.
#[test]
fn checksum_chain_odd_prefix_differs() {
    let a: Vec<u8> = vec![0x01];
    let b: Vec<u8> = vec![0x02];
    let v: Vec<u8> = vec![0x01, 0x02];
    let whole = ipsum(&v, 2, 0);
    let chained = ipsum(&b, 1, !ipsum(&a, 1, 0));
    assert_ne!(whole, chained);
}

// Verification: a block whose checksum field was filled in sums to zero
// when seeded the same way.
#[test]
fn checksum_insert_verifies() {
    let mut block: Vec<u8> = vec![0x45, 0x00, 0x00, 0x28, 0x1c, 0x46, 0x40, 0x00, 0x40, 0x06,
        0x00, 0x00, 0xac, 0x10, 0x0a, 0x63, 0xac, 0x10, 0x0a, 0x0c];
    let c = ipsum(&block, block.len(), 0);
    block[10] = (c >> 8) as u8;
    block[11] = (c & 0xff) as u8;
    assert_eq!(ipsum(&block, block.len(), 0), 0);
}
