//! Byte-level field access for protocol headers.
//!
//! Headers are kept as their wire bytes; these helpers read and write
//! 16- and 32-bit fields at a byte offset. Big-endian fields are the wire
//! encoding; little-endian ("raw") fields mirror what a little-endian host
//! sees when it reads the memory word without conversion.
use vstd::prelude::*;

verus! {

/// A protocol header held as its wire bytes, tagged by the protocol
/// whose fields it carries.
pub struct Header<T> {
    pub bytes: Vec<u8>,
    pub proto: T,
}

/// 16-bit field at offset `i`, little-endian (raw host view).
pub open spec fn le16(b: Seq<u8>, i: int) -> int {
    b[i] + 0x100 * b[i + 1]
}

/// 16-bit field at offset `i`, big-endian (network order).
pub open spec fn be16(b: Seq<u8>, i: int) -> int {
    0x100 * b[i] + b[i + 1]
}

/// 32-bit field at offset `i`, little-endian (raw host view).
pub open spec fn le32(b: Seq<u8>, i: int) -> int {
    b[i] + 0x100 * b[i + 1] + 0x10000 * b[i + 2] + 0x1000000 * b[i + 3]
}

/// 32-bit field at offset `i`, big-endian (network order).
pub open spec fn be32(b: Seq<u8>, i: int) -> int {
    0x1000000 * b[i] + 0x10000 * b[i + 1] + 0x100 * b[i + 2] + b[i + 3]
}

pub fn get_le16(b: &Vec<u8>, i: usize) -> (r: u16)
    requires
        i + 2 <= b.len(),
    ensures
        r == le16(b@, i as int),
{
    (b[i] as u16) + 0x100 * (b[i + 1] as u16)
}

pub fn get_be16(b: &Vec<u8>, i: usize) -> (r: u16)
    requires
        i + 2 <= b.len(),
    ensures
        r == be16(b@, i as int),
{
    0x100 * (b[i] as u16) + (b[i + 1] as u16)
}

pub fn get_le32(b: &Vec<u8>, i: usize) -> (r: u32)
    requires
        i + 4 <= b.len(),
    ensures
        r == le32(b@, i as int),
{
    (b[i] as u32) + 0x100 * (b[i + 1] as u32) + 0x10000 * (b[i + 2] as u32) + 0x1000000 * (b[i
        + 3] as u32)
}

pub fn get_be32(b: &Vec<u8>, i: usize) -> (r: u32)
    requires
        i + 4 <= b.len(),
    ensures
        r == be32(b@, i as int),
{
    0x1000000 * (b[i] as u32) + 0x10000 * (b[i + 1] as u32) + 0x100 * (b[i + 2] as u32) + (b[i
        + 3] as u32)
}

pub fn set_le16(b: &mut Vec<u8>, i: usize, v: u16)
    requires
        i + 2 <= old(b).len(),
    ensures
        final(b)@ == old(b)@.update(i as int, (v % 0x100) as u8).update(
            i + 1,
            (v / 0x100) as u8,
        ),
        final(b).len() == old(b).len(),
        le16(final(b)@, i as int) == v,
{
    b[i] = (v % 0x100) as u8;
    b[i + 1] = (v / 0x100) as u8;
}

pub fn set_be16(b: &mut Vec<u8>, i: usize, v: u16)
    requires
        i + 2 <= old(b).len(),
    ensures
        final(b)@ == old(b)@.update(i as int, (v / 0x100) as u8).update(
            i + 1,
            (v % 0x100) as u8,
        ),
        final(b).len() == old(b).len(),
        be16(final(b)@, i as int) == v,
{
    b[i] = (v / 0x100) as u8;
    b[i + 1] = (v % 0x100) as u8;
}

pub fn set_le32(b: &mut Vec<u8>, i: usize, v: u32)
    requires
        i + 4 <= old(b).len(),
    ensures
        final(b)@ == old(b)@.update(i as int, (v % 0x100) as u8).update(
            i + 1,
            ((v / 0x100) % 0x100) as u8,
        ).update(i + 2, ((v / 0x10000) % 0x100) as u8).update(i + 3, (v / 0x1000000) as u8),
        final(b).len() == old(b).len(),
        le32(final(b)@, i as int) == v,
{
    b[i] = (v % 0x100) as u8;
    b[i + 1] = ((v / 0x100) % 0x100) as u8;
    b[i + 2] = ((v / 0x10000) % 0x100) as u8;
    b[i + 3] = (v / 0x1000000) as u8;
}

pub fn set_be32(b: &mut Vec<u8>, i: usize, v: u32)
    requires
        i + 4 <= old(b).len(),
    ensures
        final(b)@ == old(b)@.update(i as int, (v / 0x1000000) as u8).update(
            i + 1,
            ((v / 0x10000) % 0x100) as u8,
        ).update(i + 2, ((v / 0x100) % 0x100) as u8).update(i + 3, (v % 0x100) as u8),
        final(b).len() == old(b).len(),
        be32(final(b)@, i as int) == v,
{
    b[i] = (v / 0x1000000) as u8;
    b[i + 1] = ((v / 0x10000) % 0x100) as u8;
    b[i + 2] = ((v / 0x100) % 0x100) as u8;
    b[i + 3] = (v % 0x100) as u8;
}

/// Copy `n` bytes from `src[sofs..]` over `dst[dofs..]`.
pub fn copy_bytes(dst: &mut Vec<u8>, dofs: usize, src: &[u8], sofs: usize, n: usize)
    requires
        dofs + n <= old(dst).len(),
        sofs + n <= src.len(),
    ensures
        final(dst).len() == old(dst).len(),
        forall|j: int|
            0 <= j < n ==> #[trigger] final(dst)@[dofs + j] == src@[sofs + j],
        forall|j: int|
            0 <= j < old(dst).len() && !(dofs <= j < dofs + n) ==> #[trigger] final(dst)@[j]
                == old(dst)@[j],
{
    let mut k: usize = 0;
    while k < n
        invariant
            k <= n,
            dofs + n <= dst.len(),
            sofs + n <= src.len(),
            dst.len() == old(dst).len(),
            forall|j: int| 0 <= j < k ==> #[trigger] dst@[dofs + j] == src@[sofs + j],
            forall|j: int|
                0 <= j < old(dst).len() && !(dofs <= j < dofs + k) ==> #[trigger] dst@[j] == old(
                    dst,
                )@[j],
        decreases n - k,
    {
        dst[dofs + k] = src[sofs + k];
        k = k + 1;
    }
}

/// Read `n` bytes out of `data` at offset `ofs` into a fresh buffer.
pub fn read_bytes(data: &Vec<u8>, ofs: usize, n: usize) -> (r: Vec<u8>)
    requires
        ofs + n <= data.len(),
    ensures
        r@ == data@.subrange(ofs as int, ofs + n),
{
    let mut bytes: Vec<u8> = Vec::new();
    let mut k: usize = 0;
    while k < n
        invariant
            ofs + n <= data.len(),
            k <= n,
            bytes@ =~= data@.subrange(ofs as int, ofs + k),
        decreases n - k,
    {
        bytes.push(data[ofs + k]);
        k = k + 1;
    }
    proof {
        assert(bytes@ =~= data@.subrange(ofs as int, ofs + n));
    }
    bytes
}

/// A fresh all-zero buffer of `n` bytes.
pub fn zero_bytes(n: usize) -> (r: Vec<u8>)
    ensures
        r@ =~= Seq::new(n as nat, |i: int| 0u8),
{
    let mut bytes: Vec<u8> = Vec::new();
    let mut k: usize = 0;
    while k < n
        invariant
            k <= n,
            bytes@ =~= Seq::new(k as nat, |i: int| 0u8),
        decreases n - k,
    {
        bytes.push(0);
        k = k + 1;
    }
    bytes
}

/// Fill `dst[0..n]` with `val` (capped at the buffer's length).
pub fn fill(dst: &mut Vec<u8>, n: usize, val: u8)
    ensures
        final(dst).len() == old(dst).len(),
        forall|j: int|
            0 <= j < old(dst).len() ==> final(dst)@[j] == if j < n {
                val
            } else {
                old(dst)@[j]
            },
{
    let end = if n < dst.len() {
        n
    } else {
        dst.len()
    };
    let mut k: usize = 0;
    while k < end
        invariant
            k <= end <= dst.len(),
            dst.len() == old(dst).len(),
            end == if n < dst.len() { n as int } else { dst.len() as int },
            forall|j: int| 0 <= j < k ==> dst@[j] == val,
            forall|j: int| k <= j < dst.len() ==> dst@[j] == old(dst)@[j],
        decreases end - k,
    {
        dst[k] = val;
        k = k + 1;
    }
}

} // verus!
