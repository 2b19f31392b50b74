//! TCP header (RFC 793): the first twenty bytes, big-endian wire order.
use vstd::prelude::*;

use crate::checksum::{ipsum, ipsum_spec, lemma_l4_checksum_verifies};
use crate::header::{be16, be32, copy_bytes, get_be16, get_be32, get_le16, le16, read_bytes,
    set_be16, set_be32, set_le16, zero_bytes, Header};

verus! {

/// Byte size of a TCP header without options.
pub const TCP_SIZE: usize = 20;

/// The TCP protocol tag; its headers live in `Header<TCP>`.
pub struct TCP {}

pub open spec fn spec_src_port(b: Seq<u8>) -> int {
    be16(b, 0)
}

pub open spec fn spec_dst_port(b: Seq<u8>) -> int {
    be16(b, 2)
}

pub open spec fn spec_seq(b: Seq<u8>) -> int {
    be32(b, 4)
}

pub open spec fn spec_data_offset(b: Seq<u8>) -> int {
    be16(b, 12) / 0x1000
}

pub open spec fn spec_tcp_checksum(b: Seq<u8>) -> int {
    le16(b, 16)
}

/// The header byte size implied by the data-offset field, at least the
/// twenty option-less bytes.
pub open spec fn spec_size(b: Seq<u8>) -> int {
    if spec_data_offset(b) < 5 {
        20
    } else {
        spec_data_offset(b) * 4
    }
}

impl View for Header<TCP> {
    type V = Seq<u8>;

    open spec fn view(&self) -> Seq<u8> {
        self.bytes@
    }
}

impl TCP {
    pub fn size_of() -> (r: usize)
        ensures
            r == 20,
    {
        TCP_SIZE
    }

    pub fn new() -> (r: Header<TCP>)
        ensures
            r.wf(),
            r@ =~= Seq::new(20, |i: int| 0u8),
    {
        Header { bytes: zero_bytes(20), proto: TCP {  } }
    }

    /// Read a TCP header out of `data` at byte offset `ofs`.
    pub fn from_mem(data: &Vec<u8>, ofs: usize) -> (r: Header<TCP>)
        requires
            ofs + 20 <= data.len(),
        ensures
            r.wf(),
            r@ == data@.subrange(ofs as int, ofs + 20),
    {
        Header { bytes: read_bytes(data, ofs, 20), proto: TCP {  } }
    }
}

impl Header<TCP> {
    pub open spec fn wf(&self) -> bool {
        self@.len() == 20
    }

    /// Write this header back into `data` at byte offset `ofs`,
    /// truncated to the room the buffer has there.
    pub fn copy(&self, data: &mut Vec<u8>, ofs: usize)
        requires
            self.wf(),
        ensures
            final(data).len() == old(data).len(),
            ({
                let n = if ofs <= old(data).len() && old(data).len() - ofs < 20 {
                    old(data).len() - ofs
                } else if ofs <= old(data).len() {
                    20int
                } else {
                    0int
                };
                &&& (forall|j: int| 0 <= j < n ==> #[trigger] final(data)@[ofs + j] == self@[j])
                &&& (forall|j: int|
                    0 <= j < old(data).len() && !(ofs <= j < ofs + n)
                        ==> #[trigger] final(data)@[j] == old(data)@[j])
            }),
            ofs + 20 <= old(data).len() ==> final(data)@.subrange(ofs as int, ofs + 20) =~= self@,
    {
        let n: usize = if ofs <= data.len() && data.len() - ofs < 20 {
            data.len() - ofs
        } else if ofs <= data.len() {
            20
        } else {
            0
        };
        let s = self.bytes.as_slice();
        if ofs <= data.len() {
            copy_bytes(data, ofs, s, 0, n);
        }
        assert forall|j: int| ofs + 20 <= old(data).len() && 0 <= j < 20 implies data@.subrange(
            ofs as int,
            ofs + 20,
        )[j] == self@[j] by {
            assert(data@[ofs + j] == s@[j]);
        }
    }

    pub fn src_port(&self) -> (r: u16)
        requires
            self.wf(),
        ensures
            r == spec_src_port(self@),
    {
        get_be16(&self.bytes, 0)
    }

    pub fn set_src_port(&mut self, port: u16)
        requires
            old(self).wf(),
        ensures
            final(self).wf(),
            spec_src_port(final(self)@) == port,
            forall|j: int| 2 <= j < 20 ==> final(self)@[j] == old(self)@[j],
    {
        set_be16(&mut self.bytes, 0, port);
    }

    pub fn dst_port(&self) -> (r: u16)
        requires
            self.wf(),
        ensures
            r == spec_dst_port(self@),
    {
        get_be16(&self.bytes, 2)
    }

    pub fn set_dst_port(&mut self, port: u16)
        requires
            old(self).wf(),
        ensures
            final(self).wf(),
            spec_dst_port(final(self)@) == port,
            forall|j: int| 0 <= j < 20 && j != 2 && j != 3 ==> final(self)@[j] == old(self)@[j],
    {
        set_be16(&mut self.bytes, 2, port);
    }

    pub fn seq(&self) -> (r: u32)
        requires
            self.wf(),
        ensures
            r == spec_seq(self@),
    {
        get_be32(&self.bytes, 4)
    }

    pub fn set_seq(&mut self, seq: u32)
        requires
            old(self).wf(),
        ensures
            final(self).wf(),
            spec_seq(final(self)@) == seq,
            forall|j: int| 0 <= j < 20 && !(4 <= j < 8) ==> final(self)@[j] == old(self)@[j],
    {
        set_be32(&mut self.bytes, 4, seq);
    }

    pub fn data_offset(&self) -> (r: u16)
        requires
            self.wf(),
        ensures
            r == spec_data_offset(self@),
    {
        get_be16(&self.bytes, 12) / 0x1000
    }

    pub fn set_data_offset(&mut self, offset: u16)
        requires
            old(self).wf(),
        ensures
            final(self).wf(),
            spec_data_offset(final(self)@) == offset % 0x10,
            be16(final(self)@, 12) == (offset % 0x10) * 0x1000 + be16(old(self)@, 12) % 0x1000,
            forall|j: int| 0 <= j < 20 && j != 12 && j != 13 ==> final(self)@[j] == old(self)@[j],
    {
        let w = get_be16(&self.bytes, 12);
        set_be16(&mut self.bytes, 12, (offset % 0x10) * 0x1000 + w % 0x1000);
    }

    /// The header byte size implied by the data-offset field.
    pub fn size(&self) -> (r: usize)
        requires
            self.wf(),
        ensures
            r == spec_size(self@),
    {
        let o = self.data_offset();
        if o < 5 {
            20
        } else {
            o as usize * 4
        }
    }

    /// The raw checksum field as a little-endian host reads it.
    pub fn checksum(&self) -> (r: u16)
        requires
            self.wf(),
        ensures
            r == spec_tcp_checksum(self@),
    {
        get_le16(&self.bytes, 16)
    }

    pub fn set_checksum(&mut self, checksum: u16)
        requires
            old(self).wf(),
        ensures
            final(self).wf(),
            spec_tcp_checksum(final(self)@) == checksum,
            forall|j: int| 0 <= j < 20 && j != 16 && j != 17 ==> final(self)@[j] == old(self)@[j],
    {
        set_le16(&mut self.bytes, 16, checksum);
    }

    /// Zero the checksum field, sum the header seeded with `init`, chain
    /// the payload, and store the result in network byte order. Seeding
    /// with the complement of the pseudo-header sum and then summing
    /// header and payload with that same seed yields zero.
    pub fn checksum_compute(&mut self, payload: &[u8], length: u16, init: u16)
        requires
            old(self).wf(),
            length as int <= payload.len(),
        ensures
            final(self).wf(),
            ({
                let zeroed = old(self)@.update(16, 0u8).update(17, 0u8);
                let hsum = ipsum_spec(zeroed, 20, init as int);
                let c = ipsum_spec(payload@, length as int, 0xffff - hsum);
                final(self)@ == zeroed.update(16, (c / 256) as u8).update(17, (c % 256) as u8)
            }),
    {
        self.bytes[16] = 0;
        self.bytes[17] = 0;
        let hsum = ipsum(self.bytes.as_slice(), 20, init);
        proof {
            crate::checksum::lemma_sum_words_nonneg(self.bytes@, 0, 20);
            crate::checksum::lemma_fold16_bounds(
                crate::bswap16(init as int) + crate::checksum::sum_words(self.bytes@, 0, 20),
            );
        }
        let c = ipsum(payload, length as usize, 0xffff - hsum);
        self.bytes[16] = (c / 256) as u8;
        self.bytes[17] = (c % 256) as u8;
        proof {
            let zeroed = old(self)@.update(16, 0u8).update(17, 0u8);
            let hs = ipsum_spec(zeroed, 20, init as int);
            let cc = ipsum_spec(payload@, length as int, 0xffff - hs);
            assert(self@ =~= zeroed.update(16, (cc / 256) as u8).update(17, (cc % 256) as u8));
        }
    }
}

/// Setting the TCP checksum from a seed makes the checksum over header
/// and payload, taken with that same seed, verify to zero.
pub proof fn lemma_tcp_checksum_verifies(h0: Seq<u8>, pl: Seq<u8>, init: int)
    requires
        h0.len() == 20,
        h0[16] == 0 && h0[17] == 0,
        0 <= init < 0x10000,
    ensures
        ({
            let hsum = ipsum_spec(h0, 20, init);
            let c = ipsum_spec(pl, pl.len() as int, 0xffff - hsum);
            let h1 = h0.update(16, (c / 256) as u8).update(17, (c % 256) as u8);
            ipsum_spec(h1 + pl, 20 + pl.len() as int, init) == 0
        }),
{
    lemma_l4_checksum_verifies(h0, pl, 16, init);
}

} // verus!
