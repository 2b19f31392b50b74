//! Ethernet II header: 6-byte destination, 6-byte source, 2-byte ethertype.
use vstd::prelude::*;

use crate::header::{be16, copy_bytes, get_be16, set_be16, Header};
use crate::push_char;

verus! {

/// Ethertype for IPv4.
pub const TYPE_IPV4: u16 = 0x0800;

/// Byte size of an Ethernet header.
pub const ETHERNET_SIZE: usize = 14;

/// A MAC address: six bytes.
pub type MacAddress = [u8; 6];

/// The Ethernet II protocol tag; its headers live in `Header<Ethernet>`.
pub struct Ethernet {}

/// The ethertype field of an Ethernet header's bytes (host order).
pub open spec fn spec_ethertype(b: Seq<u8>) -> int {
    be16(b, 12)
}

impl View for Header<Ethernet> {
    type V = Seq<u8>;

    open spec fn view(&self) -> Seq<u8> {
        self.bytes@
    }
}

impl Ethernet {
    pub fn size_of() -> (r: usize)
        ensures
            r == 14,
    {
        ETHERNET_SIZE
    }

    /// A new all-zero Ethernet header.
    pub fn new() -> (r: Header<Ethernet>)
        ensures
            r.wf(),
            r@ =~= Seq::new(14, |i: int| 0u8),
    {
        let mut bytes: Vec<u8> = Vec::new();
        let mut k: usize = 0;
        while k < 14
            invariant
                bytes@ =~= Seq::new(k as nat, |i: int| 0u8),
                k <= 14,
            decreases 14 - k,
        {
            bytes.push(0);
            k = k + 1;
        }
        Header { bytes, proto: Ethernet {  } }
    }

    /// Read an Ethernet header out of `data` at byte offset `ofs`.
    pub fn from_mem(data: &Vec<u8>, ofs: usize) -> (r: Header<Ethernet>)
        requires
            ofs + 14 <= data.len(),
        ensures
            r.wf(),
            r@ == data@.subrange(ofs as int, ofs + 14),
    {
        let mut bytes: Vec<u8> = Vec::new();
        let mut k: usize = 0;
        while k < 14
            invariant
                ofs + 14 <= data.len(),
                k <= 14,
                bytes@ =~= data@.subrange(ofs as int, ofs + k),
            decreases 14 - k,
        {
            bytes.push(data[ofs + k]);
            k = k + 1;
        }
        Header { bytes, proto: Ethernet {  } }
    }
}

impl Header<Ethernet> {
    pub open spec fn wf(&self) -> bool {
        self@.len() == 14
    }

    /// Write this header back into `data` at byte offset `ofs`,
    /// truncated to the room the buffer has there.
    pub fn copy(&self, data: &mut Vec<u8>, ofs: usize)
        requires
            self.wf(),
        ensures
            final(data).len() == old(data).len(),
            ({
                let n = if ofs <= old(data).len() && old(data).len() - ofs < 14 {
                    old(data).len() - ofs
                } else if ofs <= old(data).len() {
                    14int
                } else {
                    0int
                };
                &&& (forall|j: int| 0 <= j < n ==> #[trigger] final(data)@[ofs + j] == self@[j])
                &&& (forall|j: int|
                    0 <= j < old(data).len() && !(ofs <= j < ofs + n)
                        ==> #[trigger] final(data)@[j] == old(data)@[j])
            }),
            ofs + 14 <= old(data).len() ==> final(data)@.subrange(ofs as int, ofs + 14) =~= self@,
    {
        let n: usize = if ofs <= data.len() && data.len() - ofs < 14 {
            data.len() - ofs
        } else if ofs <= data.len() {
            14
        } else {
            0
        };
        let s = self.bytes.as_slice();
        if ofs <= data.len() {
            copy_bytes(data, ofs, s, 0, n);
        }
        assert forall|j: int| ofs + 14 <= old(data).len() && 0 <= j < 14 implies data@.subrange(
            ofs as int,
            ofs + 14,
        )[j] == self@[j] by {
            assert(data@[ofs + j] == s@[j]);
        }
    }

    pub fn dst(&self) -> (r: MacAddress)
        requires
            self.wf(),
        ensures
            r@ =~= self@.subrange(0, 6),
    {
        [self.bytes[0], self.bytes[1], self.bytes[2], self.bytes[3], self.bytes[4], self.bytes[5]]
    }

    pub fn set_dst(&mut self, address: &MacAddress)
        requires
            old(self).wf(),
        ensures
            final(self).wf(),
            final(self)@ =~= address@ + old(self)@.subrange(6, 14),
    {
        let mut k: usize = 0;
        while k < 6
            invariant
                k <= 6,
                self.bytes.len() == 14,
                forall|j: int| 0 <= j < k ==> self.bytes@[j] == address@[j],
                forall|j: int| k <= j < 14 ==> self.bytes@[j] == old(self)@[j],
            decreases 6 - k,
        {
            self.bytes[k] = address[k];
            k = k + 1;
        }
    }

    pub fn src(&self) -> (r: MacAddress)
        requires
            self.wf(),
        ensures
            r@ =~= self@.subrange(6, 12),
    {
        [self.bytes[6], self.bytes[7], self.bytes[8], self.bytes[9], self.bytes[10], self.bytes[11]]
    }

    pub fn set_src(&mut self, address: &MacAddress)
        requires
            old(self).wf(),
        ensures
            final(self).wf(),
            final(self)@ =~= old(self)@.subrange(0, 6) + address@ + old(self)@.subrange(12, 14),
    {
        let mut k: usize = 0;
        while k < 6
            invariant
                k <= 6,
                self.bytes.len() == 14,
                forall|j: int| 0 <= j < 6 ==> self.bytes@[j] == old(self)@[j],
                forall|j: int| 0 <= j < k ==> self.bytes@[6 + j] == address@[j],
                forall|j: int| 6 + k <= j < 14 ==> self.bytes@[j] == old(self)@[j],
            decreases 6 - k,
        {
            self.bytes[6 + k] = address[k];
            k = k + 1;
        }
    }

    pub fn ethertype(&self) -> (r: u16)
        requires
            self.wf(),
        ensures
            r == spec_ethertype(self@),
    {
        get_be16(&self.bytes, 12)
    }

    pub fn set_ethertype(&mut self, ethertype: u16)
        requires
            old(self).wf(),
        ensures
            final(self).wf(),
            spec_ethertype(final(self)@) == ethertype,
            final(self)@ =~= old(self)@.update(12, (ethertype / 0x100) as u8).update(
                13,
                (ethertype % 0x100) as u8,
            ),
    {
        set_be16(&mut self.bytes, 12, ethertype);
    }

    /// Swap the source and destination addresses.
    pub fn swap(&mut self)
        requires
            old(self).wf(),
        ensures
            final(self).wf(),
            final(self)@ =~= old(self)@.subrange(6, 12) + old(self)@.subrange(0, 6) + old(
                self,
            )@.subrange(12, 14),
    {
        let d = self.dst();
        let s = self.src();
        self.set_dst(&s);
        self.set_src(&d);
        assert(self@ =~= old(self)@.subrange(6, 12) + old(self)@.subrange(0, 6) + old(
            self,
        )@.subrange(12, 14));
    }
}

/// A character's value as a hexadecimal digit.
pub open spec fn hex_val(c: char) -> int {
    if '0' as int <= c as int && c as int <= '9' as int {
        c as int - '0' as int
    } else if 'a' as int <= c as int && c as int <= 'f' as int {
        c as int - 'a' as int + 10
    } else {
        c as int - 'A' as int + 10
    }
}

pub open spec fn is_hex_digit(c: char) -> bool {
    ('0' as int <= c as int && c as int <= '9' as int) || ('a' as int <= c as int && c as int
        <= 'f' as int) || ('A' as int <= c as int && c as int <= 'F' as int)
}

/// A MAC address string: six two-digit hex groups separated by colons.
pub open spec fn mac_str_wf(s: Seq<char>) -> bool {
    s.len() == 17 && forall|k: int|
        0 <= k < 6 ==> is_hex_digit(#[trigger] s[3 * k]) && is_hex_digit(s[3 * k + 1])
}

/// Parse a MAC address from its string representation.
pub fn pton(string: &str) -> (r: MacAddress)
    requires
        mac_str_wf(string@),
    ensures
        forall|k: int|
            0 <= k < 6 ==> r@[k] == 16 * hex_val(string@[3 * k]) + hex_val(string@[3 * k + 1]),
{
    let mut address: MacAddress = [0; 6];
    let mut k: usize = 0;
    while k < 6
        invariant
            k <= 6,
            mac_str_wf(string@),
            forall|j: int|
                0 <= j < k ==> address@[j] == 16 * hex_val(string@[3 * j]) + hex_val(
                    string@[3 * j + 1],
                ),
        decreases 6 - k,
    {
        let hi = hex_digit(string.get_char(3 * k));
        let lo = hex_digit(string.get_char(3 * k + 1));
        address[k] = 16 * hi + lo;
        k = k + 1;
    }
    address
}

fn hex_digit(c: char) -> (r: u8)
    requires
        is_hex_digit(c),
    ensures
        r == hex_val(c),
        r < 16,
{
    let v = c as u32;
    if v >= 97 {
        (v - 97 + 10) as u8
    } else if v >= 65 {
        (v - 65 + 10) as u8
    } else {
        (v - 48) as u8
    }
}

/// The character for a hex digit value, lower case.
pub open spec fn hex_char(d: int) -> char {
    if d < 10 {
        (('0' as int + d) as char)
    } else {
        (('a' as int + d - 10) as char)
    }
}

/// The unpadded hex representation of one byte.
pub open spec fn hex_byte(b: u8) -> Seq<char> {
    if b < 16 {
        seq![hex_char(b as int)]
    } else {
        seq![hex_char(b as int / 16), hex_char(b as int % 16)]
    }
}

/// String representation of a MAC address: colon-separated unpadded
/// hex bytes.
pub open spec fn mac_ntop(a: Seq<u8>) -> Seq<char>
    decreases a.len(),
{
    if a.len() == 0 {
        Seq::empty()
    } else if a.len() == 1 {
        hex_byte(a[0])
    } else {
        mac_ntop(a.drop_last()) + seq![':'] + hex_byte(a.last())
    }
}

fn push_hex_byte(s: &mut String, b: u8)
    ensures
        final(s)@ == old(s)@ + hex_byte(b),
{
    if b < 16 {
        push_char(s, hex_char_of(b));
        assert(s@ =~= old(s)@ + hex_byte(b));
    } else {
        push_char(s, hex_char_of(b / 16));
        push_char(s, hex_char_of(b % 16));
        assert(s@ =~= old(s)@ + hex_byte(b));
    }
}

fn hex_char_of(d: u8) -> (c: char)
    requires
        d < 16,
    ensures
        c == hex_char(d as int),
{
    if d < 10 {
        (48 + d) as char
    } else {
        (97 + d - 10) as char
    }
}

/// Return the string representation of a MAC address.
pub fn ntop(address: &MacAddress) -> (r: String)
    ensures
        r@ == mac_ntop(address@),
{
    let mut s = String::new();
    push_hex_byte(&mut s, address[0]);
    let mut k: usize = 1;
    while k < 6
        invariant
            1 <= k <= 6,
            s@ == mac_ntop(address@.subrange(0, k as int)),
        decreases 6 - k,
    {
        push_char(&mut s, ':');
        push_hex_byte(&mut s, address[k]);
        proof {
            let sub = address@.subrange(0, k + 1);
            assert(sub.drop_last() =~= address@.subrange(0, k as int));
            assert(sub.last() == address@[k as int]);
        }
        k = k + 1;
    }
    proof {
        assert(address@.subrange(0, 6) =~= address@);
    }
    s
}

} // verus!
