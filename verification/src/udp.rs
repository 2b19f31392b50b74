//! UDP header (RFC 768): eight bytes, big-endian wire order.
use vstd::prelude::*;

use crate::checksum::{ipsum, ipsum_spec, lemma_l4_checksum_verifies};
use crate::header::{be16, copy_bytes, get_be16, get_le16, le16, read_bytes, set_be16, set_le16,
    zero_bytes, Header};

verus! {

/// Byte size of a UDP header.
pub const UDP_SIZE: usize = 8;

/// The UDP protocol tag; its headers live in `Header<UDP>`.
pub struct UDP {}

pub open spec fn spec_src_port(b: Seq<u8>) -> int {
    be16(b, 0)
}

pub open spec fn spec_dst_port(b: Seq<u8>) -> int {
    be16(b, 2)
}

pub open spec fn spec_len(b: Seq<u8>) -> int {
    be16(b, 4)
}

pub open spec fn spec_udp_checksum(b: Seq<u8>) -> int {
    le16(b, 6)
}

impl View for Header<UDP> {
    type V = Seq<u8>;

    open spec fn view(&self) -> Seq<u8> {
        self.bytes@
    }
}

impl UDP {
    pub fn size_of() -> (r: usize)
        ensures
            r == 8,
    {
        UDP_SIZE
    }

    pub fn new() -> (r: Header<UDP>)
        ensures
            r.wf(),
            r@ =~= Seq::new(8, |i: int| 0u8),
    {
        Header { bytes: zero_bytes(8), proto: UDP {  } }
    }

    /// Read a UDP header out of `data` at byte offset `ofs`.
    pub fn from_mem(data: &Vec<u8>, ofs: usize) -> (r: Header<UDP>)
        requires
            ofs + 8 <= data.len(),
        ensures
            r.wf(),
            r@ == data@.subrange(ofs as int, ofs + 8),
    {
        Header { bytes: read_bytes(data, ofs, 8), proto: UDP {  } }
    }
}

impl Header<UDP> {
    pub open spec fn wf(&self) -> bool {
        self@.len() == 8
    }

    /// Write this header back into `data` at byte offset `ofs`.
    /// Write this header back into `data` at byte offset `ofs`,
    /// truncated to the room the buffer has there.
    pub fn copy(&self, data: &mut Vec<u8>, ofs: usize)
        requires
            self.wf(),
        ensures
            final(data).len() == old(data).len(),
            ({
                let n = if ofs <= old(data).len() && old(data).len() - ofs < 8 {
                    old(data).len() - ofs
                } else if ofs <= old(data).len() {
                    8int
                } else {
                    0int
                };
                &&& (forall|j: int| 0 <= j < n ==> #[trigger] final(data)@[ofs + j] == self@[j])
                &&& (forall|j: int|
                    0 <= j < old(data).len() && !(ofs <= j < ofs + n)
                        ==> #[trigger] final(data)@[j] == old(data)@[j])
            }),
            ofs + 8 <= old(data).len() ==> final(data)@.subrange(ofs as int, ofs + 8) =~= self@,
    {
        let n: usize = if ofs <= data.len() && data.len() - ofs < 8 {
            data.len() - ofs
        } else if ofs <= data.len() {
            8
        } else {
            0
        };
        let s = self.bytes.as_slice();
        if ofs <= data.len() {
            copy_bytes(data, ofs, s, 0, n);
        }
        assert forall|j: int| ofs + 8 <= old(data).len() && 0 <= j < 8 implies data@.subrange(
            ofs as int,
            ofs + 8,
        )[j] == self@[j] by {
            assert(data@[ofs + j] == s@[j]);
        }
    }

    pub fn src_port(&self) -> (r: u16)
        requires
            self.wf(),
        ensures
            r == spec_src_port(self@),
    {
        get_be16(&self.bytes, 0)
    }

    pub fn set_src_port(&mut self, port: u16)
        requires
            old(self).wf(),
        ensures
            final(self).wf(),
            spec_src_port(final(self)@) == port,
            forall|j: int| 2 <= j < 8 ==> final(self)@[j] == old(self)@[j],
    {
        set_be16(&mut self.bytes, 0, port);
    }

    pub fn dst_port(&self) -> (r: u16)
        requires
            self.wf(),
        ensures
            r == spec_dst_port(self@),
    {
        get_be16(&self.bytes, 2)
    }

    pub fn set_dst_port(&mut self, port: u16)
        requires
            old(self).wf(),
        ensures
            final(self).wf(),
            spec_dst_port(final(self)@) == port,
            forall|j: int| 0 <= j < 8 && j != 2 && j != 3 ==> final(self)@[j] == old(self)@[j],
    {
        set_be16(&mut self.bytes, 2, port);
    }

    pub fn len(&self) -> (r: u16)
        requires
            self.wf(),
        ensures
            r == spec_len(self@),
    {
        get_be16(&self.bytes, 4)
    }

    pub fn set_len(&mut self, len: u16)
        requires
            old(self).wf(),
        ensures
            final(self).wf(),
            spec_len(final(self)@) == len,
            forall|j: int| 0 <= j < 8 && j != 4 && j != 5 ==> final(self)@[j] == old(self)@[j],
    {
        set_be16(&mut self.bytes, 4, len);
    }

    /// The raw checksum field as a little-endian host reads it.
    pub fn checksum(&self) -> (r: u16)
        requires
            self.wf(),
        ensures
            r == spec_udp_checksum(self@),
    {
        get_le16(&self.bytes, 6)
    }

    pub fn set_checksum(&mut self, checksum: u16)
        requires
            old(self).wf(),
        ensures
            final(self).wf(),
            spec_udp_checksum(final(self)@) == checksum,
            forall|j: int| 0 <= j < 8 && j != 6 && j != 7 ==> final(self)@[j] == old(self)@[j],
    {
        set_le16(&mut self.bytes, 6, checksum);
    }

    /// Zero the checksum field, sum the header seeded with `init`, chain
    /// the payload, and store the result in network byte order.
    pub fn checksum_compute(&mut self, payload: &[u8], length: u16, init: u16)
        requires
            old(self).wf(),
            length as int <= payload.len(),
        ensures
            final(self).wf(),
            ({
                let zeroed = old(self)@.update(6, 0u8).update(7, 0u8);
                let hsum = ipsum_spec(zeroed, 8, init as int);
                let c = ipsum_spec(payload@, length as int, 0xffff - hsum);
                final(self)@ == zeroed.update(6, (c / 256) as u8).update(7, (c % 256) as u8)
            }),
    {
        self.bytes[6] = 0;
        self.bytes[7] = 0;
        let hsum = ipsum(self.bytes.as_slice(), 8, init);
        proof {
            crate::checksum::lemma_sum_words_nonneg(self.bytes@, 0, 8);
            crate::checksum::lemma_fold16_bounds(
                crate::bswap16(init as int) + crate::checksum::sum_words(self.bytes@, 0, 8),
            );
        }
        let c = ipsum(payload, length as usize, 0xffff - hsum);
        self.bytes[6] = (c / 256) as u8;
        self.bytes[7] = (c % 256) as u8;
        proof {
            let zeroed = old(self)@.update(6, 0u8).update(7, 0u8);
            let hs = ipsum_spec(zeroed, 8, init as int);
            let cc = ipsum_spec(payload@, length as int, 0xffff - hs);
            assert(self@ =~= zeroed.update(6, (cc / 256) as u8).update(7, (cc % 256) as u8));
        }
    }
}

/// Setting the UDP checksum from a seed makes the checksum over header
/// and payload, taken with that same seed, verify to zero.
pub proof fn lemma_udp_checksum_verifies(h0: Seq<u8>, pl: Seq<u8>, init: int)
    requires
        h0.len() == 8,
        h0[6] == 0 && h0[7] == 0,
        0 <= init < 0x10000,
    ensures
        ({
            let hsum = ipsum_spec(h0, 8, init);
            let c = ipsum_spec(pl, pl.len() as int, 0xffff - hsum);
            let h1 = h0.update(6, (c / 256) as u8).update(7, (c % 256) as u8);
            ipsum_spec(h1 + pl, 8 + pl.len() as int, init) == 0
        }),
{
    lemma_l4_checksum_verifies(h0, pl, 6, init);
}

} // verus!
