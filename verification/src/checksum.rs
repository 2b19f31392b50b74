//! Ones-complement internet checksum (RFC 1071), resumable across chunks.
use vstd::arithmetic::div_mod::{
    lemma_mod_multiples_vanish, lemma_add_mod_noop_right, lemma_small_mod,
};
use vstd::prelude::*;

use crate::bswap16;

verus! {

/// Sum of the 16-bit little-endian words of `data[i..len]`; a trailing odd
/// byte is added as-is (it is the low-order byte of its word in host order).
pub open spec fn sum_words(data: Seq<u8>, i: int, len: int) -> int
    decreases len - i,
{
    if i + 2 <= len {
        data[i] + 256 * data[i + 1] + sum_words(data, i + 2, len)
    } else if i + 1 == len {
        data[i] as int
    } else {
        0
    }
}

/// End-around-carry fold of a non-negative accumulator down to 16 bits.
pub open spec fn fold16(x: int) -> int
    decreases x,
    when x >= 0
{
    if x < 0x10000 {
        x
    } else {
        fold16(x % 0x10000 + x / 0x10000)
    }
}

/// The ones-complement checksum of `data[0..len]` in host byte order,
/// seeded with the host-order accumulator `initial`: swap the seed into
/// the summing order, add all words, fold the carries, complement, and
/// swap back. This is the RFC 1071 reference computation.
pub open spec fn ipsum_spec(data: Seq<u8>, len: int, initial: int) -> int {
    bswap16(0xffff - fold16(bswap16(initial) + sum_words(data, 0, len)))
}

pub proof fn lemma_sum_words_nonneg(data: Seq<u8>, i: int, len: int)
    ensures
        sum_words(data, i, len) >= 0,
    decreases len - i,
{
    if i + 2 <= len {
        lemma_sum_words_nonneg(data, i + 2, len);
    }
}

pub proof fn lemma_sum_words_upper(data: Seq<u8>, i: int, len: int)
    requires
        i <= len,
    ensures
        sum_words(data, i, len) <= 0x10000 * (len - i),
    decreases len - i,
{
    if i + 2 <= len {
        lemma_sum_words_upper(data, i + 2, len);
        assert(0x10000 * (len - i) == 0x10000 * (len - i - 2) + 0x20000) by (nonlinear_arith);
    }
}

pub proof fn lemma_fold16_bounds(x: int)
    requires
        x >= 0,
    ensures
        0 <= fold16(x) < 0x10000,
    decreases x,
{
    if x >= 0x10000 {
        lemma_fold16_bounds(x % 0x10000 + x / 0x10000);
    }
}

/// For a positive accumulator the fold picks the representative of
/// `x mod 0xffff` that lies in `1 ..= 0xffff`.
pub proof fn lemma_fold16_repr(x: int)
    requires
        x > 0,
    ensures
        fold16(x) == (x - 1) % 0xffff + 1,
    decreases x,
{
    if x < 0x10000 {
        lemma_small_mod((x - 1) as nat, 0xffff);
    } else {
        let q = x / 0x10000;
        let r = x % 0x10000;
        let y = r + q;
        assert(x == q * 0x10000 + r);
        assert(y > 0);
        lemma_fold16_repr(y);
        assert(x - 1 == 0xffff * q + (y - 1));
        lemma_mod_multiples_vanish(q, y - 1, 0xffff);
    }
}

/// Folding an already-folded accumulator into a further sum gives the same
/// result as folding the whole sum at once: folds can be chained.
pub proof fn lemma_fold16_additive(x: int, y: int)
    requires
        x >= 0,
        y >= 0,
    ensures
        fold16(fold16(x) + y) == fold16(x + y),
{
    if x == 0 {
    } else {
        lemma_fold16_repr(x);
        let fx = fold16(x);
        assert(fx > 0);
        lemma_fold16_repr(fx + y);
        lemma_fold16_repr(x + y);
        assert(fx + y - 1 == (x - 1) % 0xffff + y);
        lemma_add_mod_noop_right(y, x - 1, 0xffff);
        assert((y + (x - 1) % 0xffff) % 0xffff == (y + (x - 1)) % 0xffff);
    }
}

/// Word sums concatenate across an even-length prefix.
pub proof fn lemma_sum_words_concat(a: Seq<u8>, b: Seq<u8>, i: int)
    requires
        0 <= i <= a.len(),
        (a.len() - i) % 2 == 0,
    ensures
        sum_words(a + b, i, a.len() + b.len() as int) == sum_words(a, i, a.len() as int) + sum_words(
            b,
            0,
            b.len() as int,
        ),
    decreases a.len() - i,
{
    if i + 2 <= a.len() {
        lemma_sum_words_concat(a, b, i + 2);
    } else {
        assert(i == a.len());
        lemma_sum_words_shift(a + b, i, a.len() + b.len() as int, b);
    }
}

/// Word sums are invariant under dropping a prefix that the range does not touch.
proof fn lemma_sum_words_shift(c: Seq<u8>, i: int, len: int, b: Seq<u8>)
    requires
        0 <= i <= len,
        len - i == b.len(),
        forall|j: int| 0 <= j < b.len() ==> c[i + j] == b[j],
    ensures
        sum_words(c, i, len) == sum_words(b, 0, b.len() as int),
    decreases len - i,
{
    if i + 2 <= len {
        lemma_sum_words_shift(c, i + 2, len, b.subrange(2, b.len() as int));
        lemma_sum_words_shift(b, 2, b.len() as int, b.subrange(2, b.len() as int));
    }
}

/// Word sums agree on sequences that agree over the summed range.
pub proof fn lemma_sum_words_agree(c: Seq<u8>, d: Seq<u8>, i: int, len: int)
    requires
        forall|j: int| i <= j < len ==> c[j] == d[j],
    ensures
        sum_words(c, i, len) == sum_words(d, i, len),
    decreases len - i,
{
    if i + 2 <= len {
        lemma_sum_words_agree(c, d, i + 2, len);
    }
}

/// Overwriting the word at an even offset shifts the word sum by exactly
/// the word's change.
pub proof fn lemma_sum_words_update2(d: Seq<u8>, i: int, k: int, len: int, x: u8, y: u8)
    requires
        0 <= i <= k,
        (k - i) % 2 == 0,
        k + 2 <= len <= d.len(),
    ensures
        sum_words(d.update(k, x).update(k + 1, y), i, len) == sum_words(d, i, len) - d[k] - 256
            * d[k + 1] + x + 256 * y,
    decreases k - i,
{
    let d2 = d.update(k, x).update(k + 1, y);
    if i < k {
        lemma_sum_words_update2(d, i + 2, k, len, x, y);
    } else {
        lemma_sum_words_agree(d2, d, k + 2, len);
    }
}

/// Writing the complement-fold checksum into a zeroed 16-bit field makes
/// the checksum over the whole region zero: this is how a receiver
/// verifies what a sender computed.
pub proof fn lemma_ipsum_insert(d: Seq<u8>, k: int, len: int, init: int)
    requires
        0 <= k,
        k % 2 == 0,
        k + 2 <= len <= d.len(),
        d[k] == 0 && d[k + 1] == 0,
        0 <= init < 0x10000,
    ensures
        ({
            let c = ipsum_spec(d, len, init);
            let d2 = d.update(k, (c / 256) as u8).update(k + 1, (c % 256) as u8);
            ipsum_spec(d2, len, init) == 0
        }),
{
    let s0 = sum_words(d, 0, len);
    lemma_sum_words_nonneg(d, 0, len);
    let x = bswap16(init) + s0;
    lemma_fold16_bounds(x);
    let f = fold16(x);
    let c = ipsum_spec(d, len, init);
    lemma_bswap16_complement(f);
    crate::lemma_bswap16_involution(0xffff - f);
    assert(c == bswap16(0xffff - f));
    let c2 = (c / 256) as u8;
    let c3 = (c % 256) as u8;
    lemma_sum_words_update2(d, 0, k, len, c2, c3);
    let d2 = d.update(k, c2).update(k + 1, c3);
    // The stored bytes read back as the byte-swapped checksum, which is
    // the complement of the folded sum.
    assert(c2 + 256 * c3 == bswap16(c));
    assert(bswap16(c) == 0xffff - f);
    assert(sum_words(d2, 0, len) == s0 + 0xffff - f);
    let y = bswap16(init) + s0 + 0xffff - f;
    if x == 0 {
        assert(f == 0);
        assert(y == 0xffff);
        assert(fold16(y) == 0xffff);
    } else {
        lemma_fold16_repr(x);
        assert(f == (x - 1) % 0xffff + 1);
        let q = (x - 1) / 0xffff;
        vstd::arithmetic::div_mod::lemma_fundamental_div_mod(x - 1, 0xffff);
        assert(y - 1 == 0xffff * q + 0xfffe);
        assert(y > 0);
        lemma_fold16_repr(y);
        lemma_mod_multiples_vanish(q, 0xfffe, 0xffff);
        lemma_small_mod(0xfffe, 0xffff);
        assert(fold16(y) == 0xffff);
    }
    assert(ipsum_spec(d2, len, init) == bswap16(0));
}

/// The checksum always fits sixteen bits.
pub proof fn lemma_ipsum_bounds(data: Seq<u8>, len: int, init: int)
    requires
        0 <= init < 0x10000,
    ensures
        0 <= ipsum_spec(data, len, init) < 0x10000,
{
    lemma_sum_words_nonneg(data, 0, len);
    lemma_fold16_bounds(bswap16(init) + sum_words(data, 0, len));
}

/// Complementing a 16-bit word commutes with swapping its bytes.
pub proof fn lemma_bswap16_complement(z: int)
    requires
        0 <= z < 0x10000,
    ensures
        bswap16(0xffff - z) == 0xffff - bswap16(z),
{
    let h = z / 256;
    let l = z % 256;
    assert(z == h * 256 + l);
    assert(0xffff - z == (255 - h) * 256 + (255 - l));
    assert((0xffff - z) / 256 == 255 - h && (0xffff - z) % 256 == 255 - l) by {
        assert(((255 - h) * 256 + (255 - l)) / 256 == 255 - h);
        assert(((255 - h) * 256 + (255 - l)) % 256 == 255 - l);
    }
}

/// Checksum chaining: the checksum of `a ++ b` equals the checksum of `b`
/// seeded with the complement of the checksum of `a`, whenever `a` has even
/// length (an odd-length prefix shifts the word boundaries of `b`).
pub proof fn lemma_ipsum_chain_seeded(a: Seq<u8>, b: Seq<u8>, init: int)
    requires
        a.len() % 2 == 0,
        0 <= init < 0x10000,
    ensures
        ipsum_spec(a + b, a.len() + b.len() as int, init) == ipsum_spec(
            b,
            b.len() as int,
            0xffff - ipsum_spec(a, a.len() as int, init),
        ),
{
    let sa = sum_words(a, 0, a.len() as int);
    let sb = sum_words(b, 0, b.len() as int);
    lemma_sum_words_nonneg(a, 0, a.len() as int);
    lemma_sum_words_nonneg(b, 0, b.len() as int);
    let x = bswap16(init) + sa;
    lemma_fold16_bounds(x);
    lemma_fold16_bounds(x + sb);
    lemma_fold16_bounds(fold16(x) + sb);
    lemma_sum_words_concat(a, b, 0);
    // The seed handed to the second block swaps back to the folded sum of the first.
    let c = ipsum_spec(a, a.len() as int, init);
    assert(c == bswap16(0xffff - fold16(x)));
    lemma_bswap16_complement(fold16(x));
    assert(c == 0xffff - bswap16(fold16(x)));
    assert(0xffff - c == bswap16(fold16(x)));
    assert(0 <= bswap16(fold16(x)) < 0x10000);
    crate::lemma_bswap16_involution(fold16(x));
    assert(bswap16(0xffff - c) == fold16(x));
    lemma_fold16_additive(x, sb);
}

/// Checksum chaining from a zero seed.
pub proof fn lemma_ipsum_chain(a: Seq<u8>, b: Seq<u8>)
    requires
        a.len() % 2 == 0,
    ensures
        ipsum_spec(a + b, a.len() + b.len() as int, 0) == ipsum_spec(
            b,
            b.len() as int,
            0xffff - ipsum_spec(a, a.len() as int, 0),
        ),
{
    lemma_ipsum_chain_seeded(a, b, 0);
}

/// Filling in a transport checksum verifies: a header whose zeroed
/// checksum field at (even) offset `k` is set to the chained checksum of
/// header and payload makes the seeded checksum over header and payload
/// zero.
pub proof fn lemma_l4_checksum_verifies(h0: Seq<u8>, pl: Seq<u8>, k: int, init: int)
    requires
        h0.len() % 2 == 0,
        0 <= k,
        k % 2 == 0,
        k + 2 <= h0.len(),
        h0[k] == 0 && h0[k + 1] == 0,
        0 <= init < 0x10000,
    ensures
        ({
            let hsum = ipsum_spec(h0, h0.len() as int, init);
            let c = ipsum_spec(pl, pl.len() as int, 0xffff - hsum);
            let h1 = h0.update(k, (c / 256) as u8).update(k + 1, (c % 256) as u8);
            ipsum_spec(h1 + pl, h0.len() + pl.len() as int, init) == 0
        }),
{
    let hsum = ipsum_spec(h0, h0.len() as int, init);
    let c = ipsum_spec(pl, pl.len() as int, 0xffff - hsum);
    let h1 = h0.update(k, (c / 256) as u8).update(k + 1, (c % 256) as u8);
    let d0 = h0 + pl;
    lemma_ipsum_chain_seeded(h0, pl, init);
    assert(c == ipsum_spec(d0, d0.len() as int, init));
    lemma_ipsum_insert(d0, k, d0.len() as int, init);
    let d2 = d0.update(k, (c / 256) as u8).update(k + 1, (c % 256) as u8);
    assert(d2 =~= h1 + pl);
}

/// Return the ones-complement checksum of `data[0..length]` in host byte
/// order, using the host-order `initial` as the starting accumulator.
/// Chaining and verification both work through the seed: the checksum over
/// a block equals `v` exactly when seeding with `v` yields zero, and the
/// checksum of two blocks chains by seeding the second with the complement
/// of the first block's sum.
pub fn ipsum(data: &[u8], length: usize, initial: u16) -> (r: u16)
    requires
        length <= data.len(),
        length <= 0xffff_ffff,
    ensures
        r == ipsum_spec(data@, length as int, initial as int),
{
    proof {
        lemma_sum_words_nonneg(data@, 0, length as int);
        lemma_sum_words_upper(data@, 0, length as int);
    }
    let mut acc: u64 = ((initial % 256) as u64) * 256 + ((initial / 256) as u64);
    let mut i: usize = 0;
    while length - i >= 2
        invariant
            i % 2 == 0,
            i <= length,
            length <= data.len(),
            length <= 0xffff_ffff,
            acc == bswap16(initial as int) + sum_words(data@, 0, length as int) - sum_words(
                data@,
                i as int,
                length as int,
            ),
            sum_words(data@, 0, length as int) <= 0x10000 * (length as int),
        decreases length - i,
    {
        proof {
            lemma_sum_words_nonneg(data@, i + 2, length as int);
            lemma_sum_words_upper(data@, i + 2, length as int);
        }
        acc = acc + (data[i] as u64) + 256 * (data[i + 1] as u64);
        i = i + 2;
    }
    if i < length {
        acc = acc + (data[i] as u64);
        proof {
            assert(sum_words(data@, i as int, length as int) == data@[i as int] as int);
        }
    }
    assert(acc == bswap16(initial as int) + sum_words(data@, 0, length as int));
    let ghost total = acc as int;
    while acc >= 0x10000
        invariant
            fold16(acc as int) == fold16(total),
            acc as int <= total,
            total >= 0,
        decreases acc,
    {
        acc = acc % 0x10000 + acc / 0x10000;
    }
    proof {
        lemma_fold16_bounds(total);
    }
    let folded: u16 = acc as u16;
    let comp: u16 = 0xffff - folded;
    (comp % 256) * 256 + comp / 256
}

} // verus!
