//! A userspace packet-processing engine: packets, bounded freelist,
//! SPSC ring links, protocol header accessors, ones-complement checksums,
//! a configurable app graph driven in discrete breaths, traffic-shaping
//! apps, and a flow classifier.
use vstd::prelude::*;

pub mod basic_apps;
pub mod checksum;
pub mod config;
pub mod engine;
pub mod packet;
pub mod qos;
pub mod rawsocket_app;
pub mod ethernet;
pub mod flow;
pub mod ipv4;
pub mod link;
pub mod memory;
pub mod offload;
pub mod synthetic_network;
pub mod tcp;
pub mod udp;
pub mod header;

verus! {

/// Byte-swapped value of a 16-bit word.
pub open spec fn bswap16(x: int) -> int {
    (x % 256) * 256 + x / 256
}

/// Byte-swapped value of a 32-bit word.
pub open spec fn bswap32(x: int) -> int {
    (x % 256) * 0x1000000 + ((x / 256) % 256) * 0x10000 + ((x / 0x10000) % 256) * 256 + (x
        / 0x1000000) % 256
}

/// Host-to-network byte order for 16-bit words (network order is big-endian).
pub fn htons(s: u16) -> (r: u16)
    ensures
        r == bswap16(s as int),
{
    (s % 256) * 256 + s / 256
}

/// Network-to-host byte order for 16-bit words.
pub fn ntohs(s: u16) -> (r: u16)
    ensures
        r == bswap16(s as int),
{
    htons(s)
}

/// Host-to-network byte order for 32-bit words.
pub fn htonl(l: u32) -> (r: u32)
    ensures
        r == bswap32(l as int),
{
    (l % 256) * 0x1000000 + ((l / 256) % 256) * 0x10000 + ((l / 0x10000) % 256) * 256 + (l
        / 0x1000000) % 256
}

/// Network-to-host byte order for 32-bit words.
pub fn ntohl(l: u32) -> (r: u32)
    ensures
        r == bswap32(l as int),
{
    htonl(l)
}

/// Swapping a 16-bit word twice gives the word back.
pub proof fn lemma_bswap16_involution(x: int)
    requires
        0 <= x < 0x10000,
    ensures
        bswap16(bswap16(x)) == x,
{
}

/// Saturating addition on 64-bit counters.
pub open spec fn sat_add(a: int, b: int) -> int {
    if a + b > 0xffff_ffff_ffff_ffff {
        0xffff_ffff_ffff_ffff
    } else {
        a + b
    }
}

/// Add with saturation at the 64-bit maximum.
pub fn sat_add64(a: u64, b: u64) -> (r: u64)
    ensures
        r == sat_add(a as int, b as int),
{
    if a > u64::MAX - b {
        u64::MAX
    } else {
        a + b
    }
}

/// Saturating multiplication on 64-bit counters.
pub open spec fn sat_mul(a: int, b: int) -> int {
    if a * b > 0xffff_ffff_ffff_ffff {
        0xffff_ffff_ffff_ffff
    } else {
        a * b
    }
}

/// Multiply with saturation at the 64-bit maximum.
pub fn sat_mul64(a: u64, b: u64) -> (r: u64)
    ensures
        r == sat_mul(a as int, b as int),
{
    if b != 0 && a > u64::MAX / b {
        proof {
            assert(a * b > 0xffff_ffff_ffff_ffff) by (nonlinear_arith)
                requires
                    b > 0,
                    a > 0xffff_ffff_ffff_ffff as int / b as int,
            ;
        }
        u64::MAX
    } else {
        proof {
            if b != 0 {
                assert(a * b <= 0xffff_ffff_ffff_ffff) by (nonlinear_arith)
                    requires
                        b > 0,
                        a <= 0xffff_ffff_ffff_ffff as int / b as int,
                ;
            } else {
                assert(a * b == 0);
            }
        }
        a * b
    }
}

/// Relies on String::push: appends exactly the given character.
#[verifier::external_body]
pub fn push_char(s: &mut String, c: char)
    ensures
        final(s)@ == old(s)@.push(c),
{
    s.push(c);
}

/// The decimal digit character for a value below ten.
pub open spec fn dec_char(d: int) -> char {
    (('0' as int + d) as char)
}

/// The decimal representation of a non-negative number, most significant
/// digit first.
pub open spec fn dec_chars(n: int) -> Seq<char>
    decreases n,
{
    if n < 10 {
        seq![dec_char(n)]
    } else {
        dec_chars(n / 10) + seq![dec_char(n % 10)]
    }
}

/// Append the decimal representation of `n`.
pub fn push_dec(s: &mut String, n: u64)
    ensures
        final(s)@ == old(s)@ + dec_chars(n as int),
    decreases n,
{
    if n < 10 {
        push_char(s, (48 + n as u8) as char);
        assert(s@ =~= old(s)@ + dec_chars(n as int));
    } else {
        push_dec(s, n / 10);
        push_char(s, (48 + (n % 10) as u8) as char);
        assert(s@ =~= old(s)@ + dec_chars(n as int));
    }
}

/// Three zero-padded decimal digits for a value below one thousand.
pub open spec fn pad3_chars(n: int) -> Seq<char> {
    seq![dec_char(n / 100), dec_char(n / 10 % 10), dec_char(n % 10)]
}

/// The decimal representation of a number with thousands separated by
/// commas.
pub open spec fn comma_chars(n: int) -> Seq<char>
    decreases n,
{
    if n < 1000 {
        dec_chars(n)
    } else {
        comma_chars(n / 1000) + seq![','] + pad3_chars(n % 1000)
    }
}

fn push_pad3(s: &mut String, n: u64)
    requires
        n < 1000,
    ensures
        final(s)@ == old(s)@ + pad3_chars(n as int),
{
    push_char(s, (48 + (n / 100) as u8) as char);
    push_char(s, (48 + (n / 10 % 10) as u8) as char);
    push_char(s, (48 + (n % 10) as u8) as char);
    assert(s@ =~= old(s)@ + pad3_chars(n as int));
}

fn push_comma_value(s: &mut String, n: u64)
    ensures
        final(s)@ == old(s)@ + comma_chars(n as int),
    decreases n,
{
    if n < 1000 {
        push_dec(s, n);
    } else {
        push_comma_value(s, n / 1000);
        push_char(s, ',');
        push_pad3(s, n % 1000);
        assert(s@ =~= old(s)@ + comma_chars(n as int));
    }
}

/// Render a number with its thousands groups separated by commas.
pub fn comma_value(n: u64) -> (r: String)
    ensures
        r@ == comma_chars(n as int),
{
    let mut s = String::new();
    push_comma_value(&mut s, n);
    proof {
        assert(s@ =~= comma_chars(n as int));
    }
    s
}

/// Increase `value` to a multiple of `size` (if it is not one already).
pub fn align(value: usize, size: usize) -> (r: usize)
    requires
        size > 0,
        value + size <= usize::MAX,
    ensures
        r as int % size as int == 0,
        value <= r < value + size,
{
    if value % size == 0 {
        value
    } else {
        let r = value + size - (value % size);
        proof {
            let q = value as int / size as int;
            vstd::arithmetic::div_mod::lemma_fundamental_div_mod(value as int, size as int);
            assert(r == (q + 1) * size) by (nonlinear_arith)
                requires
                    value == size as int * q + value as int % size as int,
                    r == value + size - value as int % size as int,
            ;
            vstd::arithmetic::div_mod::lemma_mod_multiples_basic(q + 1, size as int);
        }
        r
    }
}

} // verus!
