//! IPv4 header (RFC 791): packed bit-fields, big-endian wire order.
use vstd::prelude::*;

use crate::checksum::{ipsum, ipsum_spec, lemma_ipsum_insert};
use crate::header::{be16, get_be16, get_le16, get_le32, le16, le32, read_bytes, set_be16,
    set_le16, set_le32, zero_bytes, copy_bytes, Header};
use crate::{dec_chars, push_char, push_dec};

verus! {

/// IP protocol number for TCP.
pub const PROTOCOL_TCP: u8 = 6;

/// IP protocol number for UDP.
pub const PROTOCOL_UDP: u8 = 17;

/// Byte size of an IPv4 header without options.
pub const IPV4_SIZE: usize = 20;

/// An IPv4 address, as the raw 32-bit field a little-endian host reads
/// from the wire (network byte order in memory).
pub type Address = u32;

/// The IPv4 protocol tag; its headers live in `Header<IPv4>`.
pub struct IPv4 {}

pub open spec fn spec_version(b: Seq<u8>) -> int {
    be16(b, 0) / 0x1000
}

pub open spec fn spec_ihl(b: Seq<u8>) -> int {
    be16(b, 0) / 0x100 % 0x10
}

pub open spec fn spec_total_length(b: Seq<u8>) -> int {
    be16(b, 2)
}

pub open spec fn spec_id(b: Seq<u8>) -> int {
    be16(b, 4)
}

pub open spec fn spec_flags(b: Seq<u8>) -> int {
    be16(b, 6) / 0x2000
}

pub open spec fn spec_ttl(b: Seq<u8>) -> int {
    b[8] as int
}

pub open spec fn spec_protocol(b: Seq<u8>) -> int {
    b[9] as int
}

pub open spec fn spec_checksum(b: Seq<u8>) -> int {
    le16(b, 10)
}

pub open spec fn spec_src(b: Seq<u8>) -> int {
    le32(b, 12)
}

pub open spec fn spec_dst(b: Seq<u8>) -> int {
    le32(b, 16)
}

/// The IPv4 pseudo header over which TCP and UDP checksums are seeded:
/// source, destination, a zero byte, the protocol, and the upper-layer
/// length in network order.
pub open spec fn pseudo_bytes(b: Seq<u8>, protocol: u8, len: u16) -> Seq<u8> {
    b.subrange(12, 20) + seq![0u8, protocol, (len / 0x100) as u8, (len % 0x100) as u8]
}

impl View for Header<IPv4> {
    type V = Seq<u8>;

    open spec fn view(&self) -> Seq<u8> {
        self.bytes@
    }
}

impl IPv4 {
    pub fn size_of() -> (r: usize)
        ensures
            r == 20,
    {
        IPV4_SIZE
    }

    /// A new header with version 4, IHL 5, and total length equal to the
    /// header size; every other field zero.
    pub fn new() -> (r: Header<IPv4>)
        ensures
            r.wf(),
            spec_version(r@) == 4,
            spec_ihl(r@) == 5,
            spec_total_length(r@) == 20,
            spec_id(r@) == 0 && spec_flags(r@) == 0 && spec_ttl(r@) == 0 && spec_protocol(r@) == 0
                && spec_checksum(r@) == 0 && spec_src(r@) == 0 && spec_dst(r@) == 0,
    {
        let mut h = Header { bytes: zero_bytes(20), proto: IPv4 {  } };
        h.set_version(4);
        h.set_ihl(5);
        h.set_total_length(20);
        h
    }

    /// Read an IPv4 header out of `data` at byte offset `ofs`.
    pub fn from_mem(data: &Vec<u8>, ofs: usize) -> (r: Header<IPv4>)
        requires
            ofs + 20 <= data.len(),
        ensures
            r.wf(),
            r@ == data@.subrange(ofs as int, ofs + 20),
    {
        Header { bytes: read_bytes(data, ofs, 20), proto: IPv4 {  } }
    }
}

impl Header<IPv4> {
    pub open spec fn wf(&self) -> bool {
        self@.len() == 20
    }

    /// Write this header back into `data` at byte offset `ofs`,
    /// truncated to the room the buffer has there.
    pub fn copy(&self, data: &mut Vec<u8>, ofs: usize)
        requires
            self.wf(),
        ensures
            final(data).len() == old(data).len(),
            ({
                let n = if ofs <= old(data).len() && old(data).len() - ofs < 20 {
                    old(data).len() - ofs
                } else if ofs <= old(data).len() {
                    20int
                } else {
                    0int
                };
                &&& (forall|j: int| 0 <= j < n ==> #[trigger] final(data)@[ofs + j] == self@[j])
                &&& (forall|j: int|
                    0 <= j < old(data).len() && !(ofs <= j < ofs + n)
                        ==> #[trigger] final(data)@[j] == old(data)@[j])
            }),
            ofs + 20 <= old(data).len() ==> final(data)@.subrange(ofs as int, ofs + 20) =~= self@,
    {
        let n: usize = if ofs <= data.len() && data.len() - ofs < 20 {
            data.len() - ofs
        } else if ofs <= data.len() {
            20
        } else {
            0
        };
        let s = self.bytes.as_slice();
        if ofs <= data.len() {
            copy_bytes(data, ofs, s, 0, n);
        }
        assert forall|j: int| ofs + 20 <= old(data).len() && 0 <= j < 20 implies data@.subrange(
            ofs as int,
            ofs + 20,
        )[j] == self@[j] by {
            assert(data@[ofs + j] == s@[j]);
        }
    }

    /// The header as its bytes.
    pub fn header_slice(&self) -> (r: &[u8])
        ensures
            r@ == self@,
    {
        self.bytes.as_slice()
    }

    pub fn version(&self) -> (r: u16)
        requires
            self.wf(),
        ensures
            r == spec_version(self@),
    {
        get_be16(&self.bytes, 0) / 0x1000
    }

    pub fn set_version(&mut self, version: u16)
        requires
            old(self).wf(),
        ensures
            final(self).wf(),
            spec_version(final(self)@) == version % 0x10,
            be16(final(self)@, 0) == (version % 0x10) * 0x1000 + be16(old(self)@, 0) % 0x1000,
            forall|j: int| 2 <= j < 20 ==> final(self)@[j] == old(self)@[j],
    {
        let w = get_be16(&self.bytes, 0);
        set_be16(&mut self.bytes, 0, (version % 0x10) * 0x1000 + w % 0x1000);
    }

    pub fn ihl(&self) -> (r: u16)
        requires
            self.wf(),
        ensures
            r == spec_ihl(self@),
    {
        get_be16(&self.bytes, 0) / 0x100 % 0x10
    }

    pub fn set_ihl(&mut self, ihl: u16)
        requires
            old(self).wf(),
        ensures
            final(self).wf(),
            spec_ihl(final(self)@) == ihl % 0x10,
            be16(final(self)@, 0) == be16(old(self)@, 0) / 0x1000 * 0x1000 + (ihl % 0x10) * 0x100
                + be16(old(self)@, 0) % 0x100,
            spec_version(final(self)@) == spec_version(old(self)@),
            forall|j: int| 2 <= j < 20 ==> final(self)@[j] == old(self)@[j],
    {
        let w = get_be16(&self.bytes, 0);
        set_be16(&mut self.bytes, 0, w / 0x1000 * 0x1000 + (ihl % 0x10) * 0x100 + w % 0x100);
    }

    pub fn total_length(&self) -> (r: u16)
        requires
            self.wf(),
        ensures
            r == spec_total_length(self@),
    {
        get_be16(&self.bytes, 2)
    }

    pub fn set_total_length(&mut self, total_length: u16)
        requires
            old(self).wf(),
        ensures
            final(self).wf(),
            spec_total_length(final(self)@) == total_length,
            final(self)@ =~= old(self)@.update(2, (total_length / 0x100) as u8).update(
                3,
                (total_length % 0x100) as u8,
            ),
    {
        set_be16(&mut self.bytes, 2, total_length);
    }

    pub fn id(&self) -> (r: u16)
        requires
            self.wf(),
        ensures
            r == spec_id(self@),
    {
        get_be16(&self.bytes, 4)
    }

    pub fn set_id(&mut self, id: u16)
        requires
            old(self).wf(),
        ensures
            final(self).wf(),
            spec_id(final(self)@) == id,
            forall|j: int| 0 <= j < 20 && j != 4 && j != 5 ==> final(self)@[j] == old(self)@[j],
    {
        set_be16(&mut self.bytes, 4, id);
    }

    pub fn flags(&self) -> (r: u16)
        requires
            self.wf(),
        ensures
            r == spec_flags(self@),
    {
        get_be16(&self.bytes, 6) / 0x2000
    }

    pub fn set_flags(&mut self, flags: u16)
        requires
            old(self).wf(),
        ensures
            final(self).wf(),
            spec_flags(final(self)@) == flags % 8,
            be16(final(self)@, 6) == (flags % 8) * 0x2000 + be16(old(self)@, 6) % 0x2000,
            forall|j: int| 0 <= j < 20 && j != 6 && j != 7 ==> final(self)@[j] == old(self)@[j],
    {
        let w = get_be16(&self.bytes, 6);
        set_be16(&mut self.bytes, 6, (flags % 8) * 0x2000 + w % 0x2000);
    }

    pub fn ttl(&self) -> (r: u8)
        requires
            self.wf(),
        ensures
            r == spec_ttl(self@),
    {
        self.bytes[8]
    }

    pub fn set_ttl(&mut self, ttl: u8)
        requires
            old(self).wf(),
        ensures
            final(self).wf(),
            final(self)@ =~= old(self)@.update(8, ttl),
    {
        self.bytes[8] = ttl;
    }

    pub fn protocol(&self) -> (r: u8)
        requires
            self.wf(),
        ensures
            r == spec_protocol(self@),
    {
        self.bytes[9]
    }

    pub fn set_protocol(&mut self, protocol: u8)
        requires
            old(self).wf(),
        ensures
            final(self).wf(),
            final(self)@ =~= old(self)@.update(9, protocol),
    {
        self.bytes[9] = protocol;
    }

    /// The raw checksum field as a little-endian host reads it.
    pub fn checksum(&self) -> (r: u16)
        requires
            self.wf(),
        ensures
            r == spec_checksum(self@),
    {
        get_le16(&self.bytes, 10)
    }

    pub fn set_checksum(&mut self, checksum: u16)
        requires
            old(self).wf(),
        ensures
            final(self).wf(),
            spec_checksum(final(self)@) == checksum,
            forall|j: int| 0 <= j < 20 && j != 10 && j != 11 ==> final(self)@[j] == old(self)@[j],
    {
        set_le16(&mut self.bytes, 10, checksum);
    }

    /// The raw source address field as a little-endian host reads it.
    pub fn src(&self) -> (r: Address)
        requires
            self.wf(),
        ensures
            r == spec_src(self@),
    {
        get_le32(&self.bytes, 12)
    }

    pub fn set_src(&mut self, address: Address)
        requires
            old(self).wf(),
        ensures
            final(self).wf(),
            spec_src(final(self)@) == address,
            forall|j: int| 0 <= j < 20 && !(12 <= j < 16) ==> final(self)@[j] == old(self)@[j],
    {
        set_le32(&mut self.bytes, 12, address);
    }

    /// The raw destination address field as a little-endian host reads it.
    pub fn dst(&self) -> (r: Address)
        requires
            self.wf(),
        ensures
            r == spec_dst(self@),
    {
        get_le32(&self.bytes, 16)
    }

    pub fn set_dst(&mut self, address: Address)
        requires
            old(self).wf(),
        ensures
            final(self).wf(),
            spec_dst(final(self)@) == address,
            forall|j: int| 0 <= j < 20 && !(16 <= j < 20) ==> final(self)@[j] == old(self)@[j],
    {
        set_le32(&mut self.bytes, 16, address);
    }

    /// Swap the source and destination addresses.
    pub fn swap(&mut self)
        requires
            old(self).wf(),
        ensures
            final(self).wf(),
            spec_src(final(self)@) == spec_dst(old(self)@),
            spec_dst(final(self)@) == spec_src(old(self)@),
            forall|j: int| 0 <= j < 12 ==> final(self)@[j] == old(self)@[j],
    {
        let s = self.src();
        let d = self.dst();
        self.set_src(d);
        self.set_dst(s);
    }

    /// Zero the checksum field, then store the header checksum over the
    /// twenty header bytes, in network byte order.
    pub fn checksum_compute(&mut self)
        requires
            old(self).wf(),
        ensures
            final(self).wf(),
            ({
                let zeroed = old(self)@.update(10, 0u8).update(11, 0u8);
                let c = ipsum_spec(zeroed, 20, 0);
                final(self)@ == zeroed.update(10, (c / 256) as u8).update(11, (c % 256) as u8)
            }),
            ipsum_spec(final(self)@, 20, 0) == 0,
    {
        self.bytes[10] = 0;
        self.bytes[11] = 0;
        let c = ipsum(self.bytes.as_slice(), 20, 0);
        proof {
            crate::checksum::lemma_sum_words_nonneg(self.bytes@, 0, 20);
            crate::checksum::lemma_fold16_bounds(
                crate::bswap16(0) + crate::checksum::sum_words(self.bytes@, 0, 20),
            );
            lemma_ipsum_insert(self.bytes@, 10, 20, 0);
        }
        self.bytes[10] = (c / 256) as u8;
        self.bytes[11] = (c % 256) as u8;
        proof {
            let zeroed = old(self)@.update(10, 0u8).update(11, 0u8);
            let cc = ipsum_spec(zeroed, 20, 0);
            assert(self@ =~= zeroed.update(10, (cc / 256) as u8).update(11, (cc % 256) as u8));
        }
    }

    /// Whether the stored header checksum is consistent: summing the whole
    /// header, checksum field included, yields zero.
    pub fn checksum_ok(&self) -> (r: bool)
        requires
            self.wf(),
        ensures
            r == (ipsum_spec(self@, 20, 0) == 0),
    {
        0 == ipsum(self.bytes.as_slice(), 20, 0)
    }

    /// The ones-complement sum over the pseudo header for the given
    /// upper-layer protocol and length.
    pub fn pseudo_checksum(&self, protocol: u8, len: u16) -> (r: u16)
        requires
            self.wf(),
        ensures
            r == ipsum_spec(pseudo_bytes(self@, protocol, len), 12, 0),
    {
        let mut v: Vec<u8> = Vec::new();
        v.push(self.bytes[12]);
        v.push(self.bytes[13]);
        v.push(self.bytes[14]);
        v.push(self.bytes[15]);
        v.push(self.bytes[16]);
        v.push(self.bytes[17]);
        v.push(self.bytes[18]);
        v.push(self.bytes[19]);
        v.push(0);
        v.push(protocol);
        v.push((len / 0x100) as u8);
        v.push((len % 0x100) as u8);
        proof {
            assert(v@ =~= pseudo_bytes(self@, protocol, len));
        }
        ipsum(v.as_slice(), 12, 0)
    }
}

/// Dotted-quad representation of a raw address: the first octet is the
/// low-order byte of the raw field.
pub open spec fn ipv4_ntop(a: int) -> Seq<char> {
    dec_chars(a % 0x100) + seq!['.'] + dec_chars(a / 0x100 % 0x100) + seq!['.'] + dec_chars(
        a / 0x10000 % 0x100,
    ) + seq!['.'] + dec_chars(a / 0x1000000)
}

/// Return the dotted-quad string representation of an address.
pub fn ntop(address: Address) -> (r: String)
    ensures
        r@ == ipv4_ntop(address as int),
{
    let mut s = String::new();
    push_dec(&mut s, (address % 0x100) as u64);
    push_char(&mut s, '.');
    push_dec(&mut s, (address / 0x100 % 0x100) as u64);
    push_char(&mut s, '.');
    push_dec(&mut s, (address / 0x10000 % 0x100) as u64);
    push_char(&mut s, '.');
    push_dec(&mut s, (address / 0x1000000) as u64);
    proof {
        assert(s@ =~= ipv4_ntop(address as int));
    }
    s
}

/// A decimal digit.
pub open spec fn is_dec_digit(c: char) -> bool {
    '0' as int <= c as int && c as int <= '9' as int
}

/// The first index at or past `i` that does not hold a decimal digit.
pub open spec fn digits_end(s: Seq<char>, i: int) -> int
    decreases s.len() - i,
{
    if i < s.len() && is_dec_digit(s[i]) {
        digits_end(s, i + 1)
    } else {
        i
    }
}

/// The value of the decimal digits in `[i, e)`.
pub open spec fn dec_val(s: Seq<char>, i: int, e: int) -> int
    decreases e - i,
{
    if i >= e {
        0
    } else {
        dec_val(s, i, e - 1) * 10 + (s[e - 1] as int - '0' as int)
    }
}

/// A canonical octet: one to three digits, no leading zero, at most 255.
pub open spec fn octet_ok(s: Seq<char>, i: int, e: int) -> bool {
    &&& i < e <= i + 3
    &&& (s[i] != '0' || e == i + 1)
    &&& dec_val(s, i, e) <= 255
}

/// The grammar of a canonical dotted-quad address: four octets joined by
/// dots, nothing else. The result is the raw little-endian address, the
/// first octet in the low-order byte.
pub open spec fn ipv4_parse_spec(s: Seq<char>) -> Option<u32> {
    let e1 = digits_end(s, 0);
    let i2 = e1 + 1;
    let e2 = digits_end(s, i2);
    let i3 = e2 + 1;
    let e3 = digits_end(s, i3);
    let i4 = e3 + 1;
    let e4 = digits_end(s, i4);
    if !(octet_ok(s, 0, e1) && e1 < s.len() && s[e1] == '.' && octet_ok(s, i2, e2) && e2
        < s.len() && s[e2] == '.' && octet_ok(s, i3, e3) && e3 < s.len() && s[e3] == '.'
        && octet_ok(s, i4, e4) && e4 == s.len()) {
        Option::None
    } else {
        Option::Some(
            (dec_val(s, 0, e1) + dec_val(s, i2, e2) * 0x100 + dec_val(s, i3, e3) * 0x10000
                + dec_val(s, i4, e4) * 0x1000000) as u32,
        )
    }
}

proof fn lemma_digits_end_bounds(s: Seq<char>, i: int)
    requires
        0 <= i <= s.len(),
    ensures
        i <= digits_end(s, i) <= s.len(),
        forall|j: int| i <= j < digits_end(s, i) ==> is_dec_digit(#[trigger] s[j]),
    decreases s.len() - i,
{
    if i < s.len() && is_dec_digit(s[i]) {
        lemma_digits_end_bounds(s, i + 1);
    }
}

proof fn lemma_dec_val_bound(s: Seq<char>, i: int, k: int)
    requires
        i <= k <= i + 3,
        forall|j: int| i <= j < k ==> is_dec_digit(#[trigger] s[j]),
    ensures
        dec_val(s, i, k) <= 999,
        k <= i + 2 ==> dec_val(s, i, k) <= 99,
        k <= i + 1 ==> dec_val(s, i, k) <= 9,
    decreases k - i,
{
    if i < k {
        lemma_dec_val_bound(s, i, k - 1);
    }
}

/// Advance past decimal digits.
fn scan_digits(s: &str, n: usize, i: usize) -> (r: usize)
    requires
        n == s@.len(),
        i <= n,
    ensures
        r == digits_end(s@, i as int),
        i <= r <= n,
{
    let mut k = i;
    loop
        invariant
            i <= k <= n,
            n == s@.len(),
            digits_end(s@, i as int) == digits_end(s@, k as int),
        ensures
            i <= k <= n,
            k == digits_end(s@, i as int),
        decreases n - k,
    {
        if k >= n {
            proof {
                assert(digits_end(s@, k as int) == k as int);
            }
            break ;
        }
        let c = s.get_char(k);
        let v = c as u32;
        if !(v >= 48 && v <= 57) {
            proof {
                assert(digits_end(s@, k as int) == k as int);
            }
            break ;
        }
        k = k + 1;
    }
    k
}

/// Read the octet in `[i, e)`: its value when it is canonical.
fn octet_at(s: &str, n: usize, i: usize, e: usize) -> (r: Option<u8>)
    requires
        n == s@.len(),
        i <= e <= n,
        e == digits_end(s@, i as int),
    ensures
        match r {
            Option::Some(v) => octet_ok(s@, i as int, e as int) && v == dec_val(
                s@,
                i as int,
                e as int,
            ),
            Option::None => !octet_ok(s@, i as int, e as int),
        },
{
    proof {
        lemma_digits_end_bounds(s@, i as int);
    }
    if e == i || e - i > 3 {
        return None;
    }
    if s.get_char(i) == '0' && e != i + 1 {
        return None;
    }
    let mut acc: u32 = 0;
    let mut k = i;
    while k < e
        invariant
            i <= k <= e <= i + 3,
            n == s@.len(),
            e <= n,
            forall|j: int| i <= j < e ==> is_dec_digit(#[trigger] s@[j]),
            acc == dec_val(s@, i as int, k as int),
        decreases e - k,
    {
        proof {
            lemma_dec_val_bound(s@, i as int, k as int);
        }
        let c = s.get_char(k);
        acc = acc * 10 + (c as u32 - 48);
        k = k + 1;
    }
    if acc > 255 {
        None
    } else {
        Some(acc as u8)
    }
}

/// Parse a canonical dotted-quad address string: exactly the strings the
/// grammar accepts yield an address.
pub fn pton(string: &str) -> (r: Option<Address>)
    ensures
        r == ipv4_parse_spec(string@),
{
    let n = string.unicode_len();
    let e1 = scan_digits(string, n, 0);
    let o1 = octet_at(string, n, 0, e1);
    if o1.is_none() || !(e1 < n && string.get_char(e1) == '.') {
        return None;
    }
    let i2 = e1 + 1;
    let e2 = scan_digits(string, n, i2);
    let o2 = octet_at(string, n, i2, e2);
    if o2.is_none() || !(e2 < n && string.get_char(e2) == '.') {
        return None;
    }
    let i3 = e2 + 1;
    let e3 = scan_digits(string, n, i3);
    let o3 = octet_at(string, n, i3, e3);
    if o3.is_none() || !(e3 < n && string.get_char(e3) == '.') {
        return None;
    }
    let i4 = e3 + 1;
    let e4 = scan_digits(string, n, i4);
    let o4 = octet_at(string, n, i4, e4);
    if o4.is_none() || e4 != n {
        return None;
    }
    let v: u32 = (o1.unwrap() as u32) + (o2.unwrap() as u32) * 0x100 + (o3.unwrap() as u32)
        * 0x10000 + (o4.unwrap() as u32) * 0x1000000;
    Some(v)
}

} // verus!
