//! RICE_1 coding of integer samples.
//!
//! The first value is stored verbatim as a seed. Each value is then stored as a
//! zigzag-mapped difference from the one before it, in blocks. A block starts
//! with `fsbits` bits that give `fs + 1`: zero for a block of zero differences,
//! `fsmax + 1` for differences stored verbatim in `bbits` bits, and otherwise
//! the number of low bits of each difference that are stored as they are, behind
//! a unary code of the rest.
use crate::bitstream as bs;
use crate::bitstream::{BitReader, BitWriterEnc};
use crate::casts;
use crate::error::Result;
use vstd::arithmetic::power2;
use vstd::prelude::*;

verus! {

/// The widths of a Rice code, which depend on the sample size.
#[derive(Clone, Copy)]
pub struct RiceWidth {
    /// Bits of the `fs + 1` field of a block.
    pub fsbits: u32,
    /// The `fs` that marks verbatim storage.
    pub fsmax: u32,
    /// Bits of a sample.
    pub bbits: u32,
}

impl RiceWidth {
    /// The widths for 8-, 16- and 32-bit samples.
    pub open spec fn standard(self) -> bool {
        ||| self.fsbits == 3 && self.fsmax == 6 && self.bbits == 8
        ||| self.fsbits == 4 && self.fsmax == 14 && self.bbits == 16
        ||| self.fsbits == 5 && self.fsmax == 25 && self.bbits == 32
    }

    /// `2^bbits`: samples are determined modulo this.
    pub open spec fn modulus(self) -> int {
        if self.bbits == 8 {
            0x100
        } else if self.bbits == 16 {
            0x1_0000
        } else {
            0x1_0000_0000
        }
    }
}

/// A signed difference as an unsigned number: 0, -1, 1, -2, 2, ...
pub open spec fn zigzag_of(v: int) -> int {
    if v >= 0 {
        2 * v
    } else {
        -2 * v - 1
    }
}

/// The inverse of the zigzag order.
pub open spec fn unzigzag_of(u: int) -> int {
    if u % 2 == 0 {
        u / 2
    } else {
        -(u / 2) - 1
    }
}

/// The zigzag order numbers the integers, and `unzigzag_of` undoes it.
pub proof fn unzigzag_inverts_zigzag(v: int)
    ensures
        unzigzag_of(zigzag_of(v)) == v,
        zigzag_of(v) >= 0,
{
}

/// Map a zigzag-encoded unsigned difference back to a signed difference.
pub fn unzigzag(u: u64) -> (r: i64)
    ensures
        r == unzigzag_of(u as int),
{
    if u % 2 == 0 {
        (u / 2) as i64
    } else {
        -((u / 2) as i64) - 1
    }
}

/// Zig-zag map a signed difference to an unsigned value (inverse of [`unzigzag`]).
pub fn zigzag_enc(v: i64) -> (r: u64)
    ensures
        r == zigzag_of(v as int),
{
    if v >= 0 {
        (v as u64) * 2
    } else {
        (-(v + 1)) as u64 * 2 + 1
    }
}

/// The low `bits` bits of `v` as a signed number; all 64 bits for a width of 0
/// or at least 64.
pub open spec fn sign_extended(v: u64, bits: u32) -> int {
    if bits == 0 || bits >= 64 {
        casts::signed_residue(v as int, 0x1_0000_0000_0000_0000)
    } else {
        casts::signed_residue(v as int, power2::pow2(bits as nat) as int)
    }
}

/// Sign-extend the low `bits` bits of `v` into an `i64`.
pub fn sign_extend(v: u64, bits: u32) -> (r: i64)
    ensures
        r == sign_extended(v, bits),
{
    if bits == 0 || bits >= 64 {
        return casts::i64_of_u64(v);
    }
    let unit: u64 = bs::power_of_two(bits);
    let half: u64 = bs::power_of_two(bits - 1);
    proof {
        bs::lemma_pow2_step((bits - 1) as nat);
        power2::lemma2_to64_rest();
        if bits < 63 {
            power2::lemma_pow2_strictly_increases(bits as nat, 63);
        }
    }
    let m: u64 = v % unit;
    if m < half {
        m as i64
    } else {
        m as i64 - half as i64 - half as i64
    }
}

/// Estimated bits of a block of `block_n` differences that sum to `sum` when
/// each is split at `fs`, in 64-bit arithmetic.
pub open spec fn block_cost(sum: u64, block_n: u64, fs: nat) -> int {
    (block_n * (fs + 1) + sum as nat / power2::pow2(fs)) % 0x1_0000_0000_0000_0000
}

/// The first split from `fs` on at which the next one is not cheaper.
pub open spec fn first_rise(sum: u64, block_n: u64, fs: nat, fsmax: nat) -> nat
    decreases fsmax - fs,
{
    if fs < fsmax && block_cost(sum, block_n, fs + 1) < block_cost(sum, block_n, fs) {
        first_rise(sum, block_n, fs + 1, fsmax)
    } else {
        fs
    }
}

/// The `fs + 1` field of a block: zero when all differences are zero.
pub open spec fn block_code(sum: u64, block_n: u64, fsmax: nat) -> nat {
    if sum == 0 {
        0
    } else {
        first_rise(sum, block_n, 0, fsmax) + 1
    }
}

fn cost_at(sum: u64, block_n: u64, fs: u32) -> (r: u64)
    requires
        fs < 63,
    ensures
        r == block_cost(sum, block_n, fs as nat),
{
    let unit: u64 = bs::power_of_two(fs);
    let a: u64 = block_n.wrapping_mul(fs as u64 + 1);
    let b: u64 = sum / unit;
    a.wrapping_add(b)
}

/// Select the Rice parameter `fs` for a block by minimising its coded length.
///
/// Returns `-1` for an all-zero block (`sum == 0`) and never exceeds `fsmax`.
pub fn select_fs(sum: u64, block_n: u64, fsmax: u32) -> (r: i32)
    requires
        fsmax < 62,
    ensures
        r + 1 == block_code(sum, block_n, fsmax as nat),
        -1 <= r <= fsmax,
{
    if sum == 0 {
        return -1;
    }
    let mut best_fs: u32 = 0;
    let mut best_cost: u64 = cost_at(sum, block_n, 0);
    let mut fs: u32 = 1;
    while fs <= fsmax
        invariant
            fsmax < 62,
            best_fs + 1 == fs,
            fs <= fsmax + 1,
            best_cost == block_cost(sum, block_n, best_fs as nat),
            first_rise(sum, block_n, 0, fsmax as nat) == first_rise(
                sum,
                block_n,
                best_fs as nat,
                fsmax as nat,
            ),
        ensures
            first_rise(sum, block_n, 0, fsmax as nat) == best_fs,
            best_fs <= fsmax,
        decreases fsmax - best_fs,
    {
        let c: u64 = cost_at(sum, block_n, fs);
        if c < best_cost {
            best_cost = c;
            best_fs = fs;
            fs += 1;
        } else {
            break;
        }
    }
    best_fs as i32
}

/// `c` zero bits and a one start the sequence (runs too long to count do not).
pub open spec fn is_unary(bits: Seq<bool>, c: nat) -> bool {
    &&& c < u32::MAX
    &&& c < bits.len()
    &&& bits[c as int]
    &&& forall|i: int| 0 <= i < c ==> !bits[i]
}

/// The unary number at the start of a bit sequence.
pub open spec fn unary(bits: Seq<bool>) -> Option<nat> {
    if exists|c: nat| is_unary(bits, c) {
        Some(choose|c: nat| is_unary(bits, c))
    } else {
        None
    }
}

proof fn lemma_unary(bits: Seq<bool>, c: nat)
    requires
        is_unary(bits, c),
    ensures
        unary(bits) == Some(c),
{
    let d = choose|d: nat| is_unary(bits, d);
    assert(is_unary(bits, d));
    assert(c == d);
}

/// One mapped difference at the start of `bits` in a block whose field is
/// `code`, and the bits after it.
pub open spec fn mapped_at(bits: Seq<bool>, code: nat, w: RiceWidth) -> Option<(nat, Seq<bool>)> {
    if code == 0 {
        Some((0, bits))
    } else if code == w.fsmax + 1 {
        if bits.len() < w.bbits {
            None
        } else {
            Some((bs::bits_nat(bits.take(w.bbits as int)), bits.skip(w.bbits as int)))
        }
    } else {
        let fs = code - 1;
        match unary(bits) {
            None => None,
            Some(high) => {
                let low = bits.skip(high as int + 1);
                if low.len() < fs {
                    None
                } else {
                    Some(
                        (
                            high * power2::pow2(fs as nat) + bs::bits_nat(low.take(fs)),
                            low.skip(fs),
                        ),
                    )
                }
            },
        }
    }
}

/// The value that follows `last` by a mapped difference, in 64-bit arithmetic.
pub open spec fn next_value(last: i64, mapped: nat) -> i64 {
    casts::signed_residue(
        last + unzigzag_of(mapped as int),
        0x1_0000_0000_0000_0000,
    ) as i64
}

/// `n` values of one block, and the bits after them.
pub open spec fn decode_block(bits: Seq<bool>, last: i64, code: nat, n: nat, w: RiceWidth) -> Option<
    (Seq<i64>, Seq<bool>),
>
    decreases n,
{
    if n == 0 {
        Some((Seq::empty(), bits))
    } else {
        match mapped_at(bits, code, w) {
            None => None,
            Some((m, rest)) => {
                let v = next_value(last, m);
                match decode_block(rest, v, code, (n - 1) as nat, w) {
                    None => None,
                    Some((vs, end)) => Some((seq![v] + vs, end)),
                }
            },
        }
    }
}

/// `n` values in blocks of `blocksize`.
pub open spec fn decode_blocks(
    bits: Seq<bool>,
    last: i64,
    n: nat,
    blocksize: nat,
    w: RiceWidth,
) -> Option<Seq<i64>>
    decreases n,
{
    if n == 0 {
        Some(Seq::empty())
    } else if blocksize == 0 || bits.len() < w.fsbits {
        None
    } else {
        let code = bs::bits_nat(bits.take(w.fsbits as int));
        let k = if n < blocksize {
            n
        } else {
            blocksize
        };
        match decode_block(bits.skip(w.fsbits as int), last, code, k, w) {
            None => None,
            Some((vs, rest)) => match decode_blocks(rest, vs.last(), (n - k) as nat, blocksize, w) {
                None => None,
                Some(tail) => Some(vs + tail),
            },
        }
    }
}

/// A block size of zero counts as one.
pub open spec fn at_least_one(n: usize) -> nat {
    if n == 0 {
        1
    } else {
        n as nat
    }
}

/// What a RICE_1 stream of `n` values decodes to, before the values are cut to
/// the sample size; `None` where the stream ends early.
pub open spec fn rice_decoded(src: Seq<u8>, n: nat, blocksize: usize, w: RiceWidth) -> Option<
    Seq<i64>,
> {
    let bits = bs::byte_bits(src);
    if n == 0 {
        Some(Seq::empty())
    } else if bits.len() < w.bbits {
        None
    } else {
        let seed = sign_extended(bs::bits_nat(bits.take(w.bbits as int)) as u64, w.bbits) as i64;
        decode_blocks(bits.skip(w.bbits as int), seed, n, at_least_one(blocksize), w)
    }
}

/// Decode one mapped difference.
fn read_mapped(reader: &mut BitReader<'_>, code: u32, w: RiceWidth) -> (r: Result<u64>)
    requires
        w.standard(),
        code <= 31,
    ensures
        match r {
            Ok(m) => mapped_at(old(reader).rest(), code as nat, w) == Some(
                (m as nat, final(reader).rest()),
            ),
            Err(e) => e@ == bs::rice_end() && mapped_at(old(reader).rest(), code as nat, w) is None,
        },
{
    let ghost start = reader.rest();
    if code == 0 {
        return Ok(0);
    }
    if code == w.fsmax + 1 {
        let raw: u32 = match reader.read_bits(w.bbits) {
            Ok(v) => v,
            Err(e) => return Err(e),
        };
        return Ok(raw as u64);
    }
    let fs: u32 = code - 1;
    let high: u32 = match reader.count_leading_zeros() {
        Ok(v) => v,
        Err(e) => {
            assert(unary(start) is None);
            return Err(e);
        },
    };
    proof {
        lemma_unary(start, high as nat);
    }
    let ghost mid = reader.rest();
    let low: u32 = match reader.read_bits(fs) {
        Ok(v) => v,
        Err(e) => return Err(e),
    };
    let unit: u64 = bs::power_of_two(fs);
    proof {
        bs::lemma_bits_nat_bound(mid.take(fs as int));
        power2::lemma2_to64();
        if fs < 30 {
            power2::lemma_pow2_strictly_increases(fs as nat, 30);
        }
        assert(high * unit <= 0xFFFF_FFFF * 0x4000_0000) by (nonlinear_arith)
            requires
                high <= 0xFFFF_FFFF,
                unit <= 0x4000_0000,
        ;
        assert(low < unit);
    }
    Ok(high as u64 * unit + low as u64)
}

/// Decode the `n` values of one block onto `out`; returns the last value.
fn read_block(
    reader: &mut BitReader<'_>,
    out: &mut Vec<i64>,
    last: i64,
    code: u32,
    n: usize,
    w: RiceWidth,
) -> (r: Result<i64>)
    requires
        w.standard(),
        code <= 31,
    ensures
        match r {
            Ok(l) => decode_block(old(reader).rest(), last, code as nat, n as nat, w) matches Some(
                (vs, end),
            ) && vs.len() == n && final(out)@ == old(out)@ + vs && final(reader).rest() == end && l
                == (if n == 0 {
                last
            } else {
                vs.last()
            }),
            Err(e) => e@ == bs::rice_end() && decode_block(
                old(reader).rest(),
                last,
                code as nat,
                n as nat,
                w,
            ) is None,
        },
{
    let ghost bits0 = reader.rest();
    let ghost block = decode_block(bits0, last, code as nat, n as nat, w);
    let ghost vals = Seq::<i64>::empty();
    let mut lastpix: i64 = last;
    let mut k: usize = 0;
    proof {
        if let Some((vs, end)) = block {
            assert(vals + vs =~= vs);
        }
        assert(out@ =~= old(out)@ + vals);
    }
    while k < n
        invariant
            w.standard(),
            code <= 31,
            k <= n,
            vals.len() == k,
            out@ == old(out)@ + vals,
            lastpix == (if k == 0 {
                last
            } else {
                vals.last()
            }),
            block == decode_block(old(reader).rest(), last, code as nat, n as nat, w),
            block == match decode_block(reader.rest(), lastpix, code as nat, (n - k) as nat, w) {
                None => None,
                Some((vs, end)) => Some((vals + vs, end)),
            },
        decreases n - k,
    {
        let ghost last1 = lastpix;
        let m: u64 = match read_mapped(reader, code, w) {
            Ok(m) => m,
            Err(e) => return Err(e),
        };
        let diff: i64 = unzigzag(m);
        lastpix = lastpix.wrapping_add(diff);
        out.push(lastpix);
        k += 1;
        proof {
            assert(lastpix == next_value(last1, m as nat));
            match decode_block(reader.rest(), lastpix, code as nat, (n - k) as nat, w) {
                None => {},
                Some((vs, end)) => {
                    assert(vals + (seq![lastpix] + vs) =~= vals.push(lastpix) + vs);
                },
            }
            vals = vals.push(lastpix);
            assert(out@ =~= old(out)@ + vals);
        }
    }
    proof {
        assert(vals + Seq::<i64>::empty() =~= vals);
    }
    Ok(lastpix)
}

/// Core RICE_1 decode shared by the 8/16/32-bit variants.
fn rice_decompress_core(src: &[u8], nvals: usize, blocksize: usize, w: RiceWidth) -> (r: Result<
    Vec<i64>,
>)
    requires
        w.standard(),
    ensures
        match r {
            Ok(v) => rice_decoded(src@, nvals as nat, blocksize, w) == Some(v@) && v@.len()
                == nvals,
            Err(e) => e@ == bs::rice_end() && rice_decoded(src@, nvals as nat, blocksize, w)
                is None,
        },
{
    let mut out: Vec<i64> = Vec::new();
    if nvals == 0 {
        assert(out@ =~= Seq::empty());
        return Ok(out);
    }
    let size: usize = if blocksize == 0 {
        1
    } else {
        blocksize
    };
    let mut reader = BitReader::new(src);
    let first: u32 = match reader.read_bits(w.bbits) {
        Ok(v) => v,
        Err(e) => return Err(e),
    };
    let mut lastpix: i64 = sign_extend(first as u64, w.bbits);
    let ghost whole = decode_blocks(reader.rest(), lastpix, nvals as nat, size as nat, w);
    proof {
        assert(whole == rice_decoded(src@, nvals as nat, blocksize, w));
        if let Some(t) = whole {
            assert(out@ + t =~= t);
        }
    }
    while out.len() < nvals
        invariant
            w.standard(),
            out@.len() <= nvals,
            size > 0,
            whole == rice_decoded(src@, nvals as nat, blocksize, w),
            whole == match decode_blocks(
                reader.rest(),
                lastpix,
                (nvals - out@.len()) as nat,
                size as nat,
                w,
            ) {
                None => None,
                Some(t) => Some(out@ + t),
            },
        decreases nvals - out@.len(),
    {
        let ghost bits0 = reader.rest();
        let code: u32 = match reader.read_bits(w.fsbits) {
            Ok(v) => v,
            Err(e) => return Err(e),
        };
        proof {
            bs::lemma_bits_nat_bound(bits0.take(w.fsbits as int));
            power2::lemma2_to64();
        }
        let remaining: usize = nvals - out.len();
        let block_n: usize = if remaining < size {
            remaining
        } else {
            size
        };
        let ghost done = out@;
        let last: i64 = match read_block(&mut reader, &mut out, lastpix, code, block_n, w) {
            Ok(l) => l,
            Err(e) => return Err(e),
        };
        lastpix = last;
        proof {
            let vals = out@.skip(done.len() as int);
            assert(out@ =~= done + vals);
            match decode_blocks(
                reader.rest(),
                lastpix,
                (nvals - out@.len()) as nat,
                size as nat,
                w,
            ) {
                None => {},
                Some(t) => {
                    assert(done + (vals + t) =~= out@ + t);
                },
            }
        }
    }
    assert(out@ + Seq::<i64>::empty() =~= out@);
    Ok(out)
}

/// The widths for a sample of 1, 2 or 4 bytes.
pub open spec fn rice_width(bytepix: int) -> RiceWidth {
    if bytepix == 1 {
        RiceWidth { fsbits: 3, fsmax: 6, bbits: 8 }
    } else if bytepix == 2 {
        RiceWidth { fsbits: 4, fsmax: 14, bbits: 16 }
    } else {
        RiceWidth { fsbits: 5, fsmax: 25, bbits: 32 }
    }
}

/// Values cut to 32-bit signed samples.
pub open spec fn cut_i32(vals: Seq<i64>) -> Seq<i32> {
    Seq::new(vals.len(), |i: int| casts::signed_residue(vals[i] as int, 0x1_0000_0000) as i32)
}

/// Values cut to 16-bit signed samples.
pub open spec fn cut_i16(vals: Seq<i64>) -> Seq<i16> {
    Seq::new(vals.len(), |i: int| casts::signed_residue(vals[i] as int, 0x1_0000) as i16)
}

/// Values cut to 8-bit unsigned samples.
pub open spec fn cut_u8(vals: Seq<i64>) -> Seq<u8> {
    Seq::new(vals.len(), |i: int| (vals[i] as int % 0x100) as u8)
}

/// Cut each value to a 32-bit signed sample.
pub fn to_i32(vals: &[i64]) -> (r: Vec<i32>)
    ensures
        r@ == cut_i32(vals@),
{
    let mut out: Vec<i32> = Vec::new();
    let mut i: usize = 0;
    while i < vals.len()
        invariant
            i <= vals@.len(),
            out@ == cut_i32(vals@.take(i as int)),
        decreases vals@.len() - i,
    {
        out.push(casts::i32_of_i64(vals[i]));
        i += 1;
        assert(out@ =~= cut_i32(vals@.take(i as int)));
    }
    assert(vals@.take(i as int) =~= vals@);
    out
}

/// Cut each value to a 16-bit signed sample.
pub fn to_i16(vals: &[i64]) -> (r: Vec<i16>)
    ensures
        r@ == cut_i16(vals@),
{
    let mut out: Vec<i16> = Vec::new();
    let mut i: usize = 0;
    while i < vals.len()
        invariant
            i <= vals@.len(),
            out@ == cut_i16(vals@.take(i as int)),
        decreases vals@.len() - i,
    {
        out.push(casts::i16_of_i64(vals[i]));
        i += 1;
        assert(out@ =~= cut_i16(vals@.take(i as int)));
    }
    assert(vals@.take(i as int) =~= vals@);
    out
}

/// Cut each value to an 8-bit unsigned sample.
pub fn to_u8(vals: &[i64]) -> (r: Vec<u8>)
    ensures
        r@ == cut_u8(vals@),
{
    let mut out: Vec<u8> = Vec::new();
    let mut i: usize = 0;
    while i < vals.len()
        invariant
            i <= vals@.len(),
            out@ == cut_u8(vals@.take(i as int)),
        decreases vals@.len() - i,
    {
        out.push(casts::u8_of_i64(vals[i]));
        i += 1;
        assert(out@ =~= cut_u8(vals@.take(i as int)));
    }
    assert(vals@.take(i as int) =~= vals@);
    out
}

/// Decompress a RICE_1 stream of 32-bit integers (`BYTEPIX = 4`).
pub fn rice_decompress_i32(src: &[u8], nvals: usize, blocksize: usize) -> (r: Result<Vec<i32>>)
    ensures
        match (r, rice_decoded(src@, nvals as nat, blocksize, rice_width(4))) {
            (Ok(v), Some(vals)) => v@ == cut_i32(vals) && v@.len() == nvals,
            (Err(e), None) => e@ == bs::rice_end(),
            _ => false,
        },
{
    let w = RiceWidth { fsbits: 5, fsmax: 25, bbits: 32 };
    match rice_decompress_core(src, nvals, blocksize, w) {
        Ok(v) => Ok(to_i32(v.as_slice())),
        Err(e) => Err(e),
    }
}

/// Decompress a RICE_1 stream of 16-bit integers (`BYTEPIX = 2`).
pub fn rice_decompress_i16(src: &[u8], nvals: usize, blocksize: usize) -> (r: Result<Vec<i16>>)
    ensures
        match (r, rice_decoded(src@, nvals as nat, blocksize, rice_width(2))) {
            (Ok(v), Some(vals)) => v@ == cut_i16(vals) && v@.len() == nvals,
            (Err(e), None) => e@ == bs::rice_end(),
            _ => false,
        },
{
    let w = RiceWidth { fsbits: 4, fsmax: 14, bbits: 16 };
    match rice_decompress_core(src, nvals, blocksize, w) {
        Ok(v) => Ok(to_i16(v.as_slice())),
        Err(e) => Err(e),
    }
}

/// Decompress a RICE_1 stream of 8-bit integers (`BYTEPIX = 1`).
pub fn rice_decompress_i8(src: &[u8], nvals: usize, blocksize: usize) -> (r: Result<Vec<u8>>)
    ensures
        match (r, rice_decoded(src@, nvals as nat, blocksize, rice_width(1))) {
            (Ok(v), Some(vals)) => v@ == cut_u8(vals) && v@.len() == nvals,
            (Err(e), None) => e@ == bs::rice_end(),
            _ => false,
        },
{
    let w = RiceWidth { fsbits: 3, fsmax: 6, bbits: 8 };
    match rice_decompress_core(src, nvals, blocksize, w) {
        Ok(v) => Ok(to_u8(v.as_slice())),
        Err(e) => Err(e),
    }
}

/// The mapped difference of a value from the one before it, taken modulo the
/// sample size.
pub open spec fn mapped_diff(last: i64, v: i64, w: RiceWidth) -> nat {
    zigzag_of(casts::signed_residue(v - last, w.modulus())) as nat
}

/// The mapped differences of consecutive values after `last`.
pub open spec fn mapped_diffs(last: i64, vals: Seq<i64>, w: RiceWidth) -> Seq<nat> {
    Seq::new(
        vals.len(),
        |i: int|
            mapped_diff(
                if i == 0 {
                    last
                } else {
                    vals[i - 1]
                },
                vals[i],
                w,
            ),
    )
}

/// Sum of a sequence, in 64-bit arithmetic.
pub open spec fn wrapped_sum(ms: Seq<nat>) -> int
    decreases ms.len(),
{
    if ms.len() == 0 {
        0
    } else {
        (wrapped_sum(ms.drop_last()) + ms.last()) % 0x1_0000_0000_0000_0000
    }
}

/// The bits of one mapped difference in a block whose field is `code`.
pub open spec fn mapped_bits(m: nat, code: nat, w: RiceWidth) -> Seq<bool> {
    if code == 0 {
        Seq::empty()
    } else if code == w.fsmax + 1 {
        bs::nat_bits(m, w.bbits as nat)
    } else {
        let fs = (code - 1) as nat;
        bs::zero_bits(m / power2::pow2(fs)).push(true) + bs::nat_bits(m, fs)
    }
}

/// The bits of the differences of one block.
pub open spec fn block_bits(ms: Seq<nat>, code: nat, w: RiceWidth) -> Seq<bool>
    decreases ms.len(),
{
    if ms.len() == 0 {
        Seq::empty()
    } else {
        mapped_bits(ms[0], code, w) + block_bits(ms.skip(1), code, w)
    }
}

/// The bits of all blocks of `vals`, where `last` precedes them.
pub open spec fn blocks_bits(last: i64, vals: Seq<i64>, blocksize: nat, w: RiceWidth) -> Seq<bool>
    decreases vals.len(),
{
    if vals.len() == 0 || blocksize == 0 {
        Seq::empty()
    } else {
        let k = (if vals.len() < blocksize {
            vals.len()
        } else {
            blocksize
        }) as int;
        let ms = mapped_diffs(last, vals.take(k), w);
        let code = block_code(wrapped_sum(ms) as u64, k as u64, w.fsmax as nat);
        bs::nat_bits(code, w.fsbits as nat) + block_bits(ms, code, w) + blocks_bits(
            vals[k - 1],
            vals.skip(k),
            blocksize,
            w,
        )
    }
}

/// The RICE_1 code of `vals`, before it is filled up to whole bytes.
pub open spec fn rice_bits(vals: Seq<i64>, blocksize: usize, w: RiceWidth) -> Seq<bool> {
    if vals.len() == 0 {
        Seq::empty()
    } else {
        bs::nat_bits((vals[0] as int % w.modulus()) as nat, w.bbits as nat) + blocks_bits(
            vals[0],
            vals,
            at_least_one(blocksize),
            w,
        )
    }
}

/// `bytes` is the shortest byte sequence that starts with `bits` and goes on
/// with zero bits.
pub open spec fn filled_up(bytes: Seq<u8>, bits: Seq<bool>) -> bool {
    &&& bits.len() <= 8 * bytes.len() < bits.len() + 8
    &&& bs::byte_bits(bytes) == bits + bs::zero_bits((8 * bytes.len() - bits.len()) as nat)
}

/// `2^bbits` of a standard width.
proof fn lemma_modulus(w: RiceWidth)
    requires
        w.standard(),
    ensures
        w.modulus() == power2::pow2(w.bbits as nat),
{
    power2::lemma2_to64();
}

/// Whole turns of 64-bit arithmetic do not change the residue of a sample.
proof fn lemma_residue_of_turns(x: int, turns: int, w: RiceWidth)
    requires
        w.standard(),
    ensures
        (x + turns * 0x1_0000_0000_0000_0000) % w.modulus() == x % w.modulus(),
{
    let m = w.modulus();
    let q = 0x1_0000_0000_0000_0000int / m;
    assert(0x1_0000_0000_0000_0000 == m * q);
    assert(turns * (m * q) == m * (turns * q)) by (nonlinear_arith);
    vstd::arithmetic::div_mod::lemma_mod_multiples_vanish(turns * q, x, m);
}

/// The difference of two values in 64-bit arithmetic, as an unsigned number.
fn wrapped_difference(last: i64, v: i64, w: RiceWidth) -> (r: u64)
    requires
        w.standard(),
    ensures
        r as int % w.modulus() == (v - last) % w.modulus(),
{
    let d: i64 = v.wrapping_sub(last);
    let raw: u64 = casts::u64_of_i64(d);
    proof {
        let x = v - last;
        let turns = (raw - x) / 0x1_0000_0000_0000_0000;
        assert(raw == x + turns * 0x1_0000_0000_0000_0000);
        lemma_residue_of_turns(x, turns, w);
    }
    raw
}

/// The mapped difference of a value from the one before it.
fn map_diff(last: i64, v: i64, w: RiceWidth) -> (r: u64)
    requires
        w.standard(),
    ensures
        r == mapped_diff(last, v, w),
        r < w.modulus(),
{
    let raw: u64 = wrapped_difference(last, v, w);
    let unit: u64 = bs::power_of_two(w.bbits);
    proof {
        lemma_modulus(w);
        vstd::arithmetic::div_mod::lemma_mod_twice(raw as int, w.modulus());
    }
    zigzag_enc(sign_extend(raw % unit, w.bbits))
}

/// The numbers of a vector.
pub open spec fn nats_of(ms: Seq<u64>) -> Seq<nat> {
    Seq::new(ms.len(), |i: int| ms[i] as nat)
}

/// The mapped differences of a block and their sum.
fn map_block(last: i64, vals: &[i64], w: RiceWidth) -> (r: (Vec<u64>, u64))
    requires
        w.standard(),
    ensures
        nats_of(r.0@) == mapped_diffs(last, vals@, w),
        forall|i: int| 0 <= i < r.0@.len() ==> #[trigger] r.0@[i] < w.modulus(),
        r.1 == wrapped_sum(nats_of(r.0@)),
{
    let mut mapped: Vec<u64> = Vec::new();
    let mut sum: u64 = 0;
    let mut prev: i64 = last;
    let mut i: usize = 0;
    while i < vals.len()
        invariant
            w.standard(),
            i <= vals@.len(),
            mapped@.len() == i,
            prev == (if i == 0 {
                last
            } else {
                vals@[i - 1]
            }),
            nats_of(mapped@) == mapped_diffs(last, vals@.take(i as int), w),
            forall|j: int| 0 <= j < i ==> #[trigger] mapped@[j] < w.modulus(),
            sum == wrapped_sum(nats_of(mapped@)),
        decreases vals@.len() - i,
    {
        let v: i64 = vals[i];
        let m: u64 = map_diff(prev, v, w);
        prev = v;
        let ghost before = nats_of(mapped@);
        sum = sum.wrapping_add(m);
        mapped.push(m);
        i += 1;
        proof {
            assert(nats_of(mapped@) =~= before.push(m as nat));
            assert(nats_of(mapped@).drop_last() =~= before);
            assert(nats_of(mapped@) =~= mapped_diffs(last, vals@.take(i as int), w));
        }
    }
    assert(vals@.take(i as int) =~= vals@);
    (mapped, sum)
}

/// Write one mapped difference.
fn write_mapped(out: &mut BitWriterEnc, m: u64, code: u32, w: RiceWidth)
    requires
        w.standard(),
        m < w.modulus(),
        code <= w.fsmax + 1,
    ensures
        final(out).bits() == old(out).bits() + mapped_bits(m as nat, code as nat, w),
{
    if code == 0 {
        assert(out.bits() =~= old(out).bits() + mapped_bits(m as nat, code as nat, w));
        return ;
    }
    if code == w.fsmax + 1 {
        out.write_bits(m as u32, w.bbits);
        return ;
    }
    let fs: u32 = code - 1;
    let unit: u64 = bs::power_of_two(fs);
    let top: u64 = m / unit;
    proof {
        assert(top <= m) by (nonlinear_arith)
            requires
                top == m / unit,
                unit >= 1,
        ;
    }
    out.write_unary(top as u32);
    let ghost mid = out.bits();
    let low: u64 = m % unit;
    proof {
        bs::lemma_bits_nat_of_nat_bits(m as nat, fs as nat);
        assert(low <= m) by (nonlinear_arith)
            requires
                low == m % unit,
                unit >= 1,
        ;
    }
    out.write_bits(low as u32, fs);
    assert(out.bits() =~= old(out).bits() + mapped_bits(m as nat, code as nat, w));
}

/// Write the differences of one block.
fn write_block(out: &mut BitWriterEnc, ms: &[u64], code: u32, w: RiceWidth)
    requires
        w.standard(),
        code <= w.fsmax + 1,
        forall|i: int| 0 <= i < ms@.len() ==> #[trigger] ms@[i] < w.modulus(),
    ensures
        final(out).bits() == old(out).bits() + block_bits(nats_of(ms@), code as nat, w),
{
    let ghost all = nats_of(ms@);
    let ghost target = out.bits() + block_bits(all, code as nat, w);
    let mut i: usize = 0;
    assert(all.skip(0) =~= all);
    while i < ms.len()
        invariant
            w.standard(),
            code <= w.fsmax + 1,
            i <= ms@.len(),
            all == nats_of(ms@),
            forall|i: int| 0 <= i < ms@.len() ==> #[trigger] ms@[i] < w.modulus(),
            out.bits() + block_bits(all.skip(i as int), code as nat, w) == target,
        decreases ms@.len() - i,
    {
        let ghost before = out.bits();
        write_mapped(out, ms[i], code, w);
        proof {
            let rest = all.skip(i as int);
            assert(rest.skip(1) =~= all.skip(i + 1));
            assert(rest[0] == ms@[i as int]);
            assert(out.bits() + block_bits(rest.skip(1), code as nat, w) =~= before + (mapped_bits(
                rest[0],
                code as nat,
                w,
            ) + block_bits(rest.skip(1), code as nat, w)));
        }
        i += 1;
    }
    assert(all.skip(i as int) =~= Seq::empty());
    assert(out.bits() =~= target);
}

/// Core RICE_1 encode shared by the 8/16/32-bit variants.
fn rice_compress_core(vals: &[i64], blocksize: usize, w: RiceWidth) -> (r: Vec<u8>)
    requires
        w.standard(),
    ensures
        filled_up(r@, rice_bits(vals@, blocksize, w)),
{
    let mut out = BitWriterEnc::new();
    if vals.len() == 0 {
        return out.finish();
    }
    let size: usize = if blocksize == 0 {
        1
    } else {
        blocksize
    };
    let unit: u64 = bs::power_of_two(w.bbits);
    let mut lastpix: i64 = vals[0];
    let seed: u64 = wrapped_difference(0, vals[0], w) % unit;
    proof {
        lemma_modulus(w);
    }
    out.write_bits(seed as u32, w.bbits);
    let ghost target = rice_bits(vals@, blocksize, w);
    let mut i: usize = 0;
    proof {
        assert(vals@.skip(0) =~= vals@);
        assert(out.bits() + blocks_bits(lastpix, vals@, size as nat, w) =~= target);
    }
    while i < vals.len()
        invariant
            w.standard(),
            size > 0,
            i <= vals@.len(),
            out.bits() + blocks_bits(lastpix, vals@.skip(i as int), size as nat, w) == target,
        decreases vals@.len() - i,
    {
        let left: usize = vals.len() - i;
        let block_n: usize = if left < size {
            left
        } else {
            size
        };
        let ghost before = out.bits();
        let ghost rest = vals@.skip(i as int);
        let block = vstd::slice::slice_subrange(vals, i, i + block_n);
        assert(block@ =~= rest.take(block_n as int));
        let (mapped, sum) = map_block(lastpix, block, w);
        let fs: i32 = select_fs(sum, block_n as u64, w.fsmax);
        let code: u32 = (fs + 1) as u32;
        out.write_bits(code, w.fsbits);
        let ghost mid = out.bits();
        write_block(&mut out, mapped.as_slice(), code, w);
        lastpix = vals[i + block_n - 1];
        proof {
            assert(rest.skip(block_n as int) =~= vals@.skip(i + block_n));
            assert(rest[block_n - 1] == lastpix);
            let tail = blocks_bits(lastpix, rest.skip(block_n as int), size as nat, w);
            assert(out.bits() + tail =~= before + (bs::nat_bits(code as nat, w.fsbits as nat)
                + block_bits(nats_of(mapped@), code as nat, w) + tail));
        }
        i += block_n;
    }
    proof {
        assert(vals@.skip(i as int) =~= Seq::empty());
        assert(out.bits() =~= target);
    }
    out.finish()
}

/// 32-bit samples as 64-bit values.
pub open spec fn widened_i32(vals: Seq<i32>) -> Seq<i64> {
    Seq::new(vals.len(), |i: int| vals[i] as i64)
}

/// 16-bit samples as 64-bit values.
pub open spec fn widened_i16(vals: Seq<i16>) -> Seq<i64> {
    Seq::new(vals.len(), |i: int| vals[i] as i64)
}

/// 8-bit samples as 64-bit values.
pub open spec fn widened_u8(vals: Seq<u8>) -> Seq<i64> {
    Seq::new(vals.len(), |i: int| vals[i] as i64)
}

/// Widen 32-bit samples.
pub fn widen_i32(vals: &[i32]) -> (r: Vec<i64>)
    ensures
        r@ == widened_i32(vals@),
{
    let mut out: Vec<i64> = Vec::new();
    let mut i: usize = 0;
    while i < vals.len()
        invariant
            i <= vals@.len(),
            out@ == widened_i32(vals@.take(i as int)),
        decreases vals@.len() - i,
    {
        out.push(vals[i] as i64);
        i += 1;
        assert(out@ =~= widened_i32(vals@.take(i as int)));
    }
    assert(vals@.take(i as int) =~= vals@);
    out
}

/// Widen 16-bit samples.
pub fn widen_i16(vals: &[i16]) -> (r: Vec<i64>)
    ensures
        r@ == widened_i16(vals@),
{
    let mut out: Vec<i64> = Vec::new();
    let mut i: usize = 0;
    while i < vals.len()
        invariant
            i <= vals@.len(),
            out@ == widened_i16(vals@.take(i as int)),
        decreases vals@.len() - i,
    {
        out.push(vals[i] as i64);
        i += 1;
        assert(out@ =~= widened_i16(vals@.take(i as int)));
    }
    assert(vals@.take(i as int) =~= vals@);
    out
}

/// Widen 8-bit samples.
pub fn widen_u8(vals: &[u8]) -> (r: Vec<i64>)
    ensures
        r@ == widened_u8(vals@),
{
    let mut out: Vec<i64> = Vec::new();
    let mut i: usize = 0;
    while i < vals.len()
        invariant
            i <= vals@.len(),
            out@ == widened_u8(vals@.take(i as int)),
        decreases vals@.len() - i,
    {
        out.push(vals[i] as i64);
        i += 1;
        assert(out@ =~= widened_u8(vals@.take(i as int)));
    }
    assert(vals@.take(i as int) =~= vals@);
    out
}

/// Compress 32-bit integer samples with RICE_1 (`BYTEPIX = 4`).
pub fn rice_compress_i32(vals: &[i32], blocksize: usize) -> (r: Vec<u8>)
    ensures
        filled_up(r@, rice_bits(widened_i32(vals@), blocksize, rice_width(4))),
{
    let v: Vec<i64> = widen_i32(vals);
    rice_compress_core(v.as_slice(), blocksize, RiceWidth { fsbits: 5, fsmax: 25, bbits: 32 })
}

/// Compress 16-bit integer samples with RICE_1 (`BYTEPIX = 2`).
pub fn rice_compress_i16(vals: &[i16], blocksize: usize) -> (r: Vec<u8>)
    ensures
        filled_up(r@, rice_bits(widened_i16(vals@), blocksize, rice_width(2))),
{
    let v: Vec<i64> = widen_i16(vals);
    rice_compress_core(v.as_slice(), blocksize, RiceWidth { fsbits: 4, fsmax: 14, bbits: 16 })
}

/// Compress 8-bit (unsigned) integer samples with RICE_1 (`BYTEPIX = 1`).
pub fn rice_compress_i8(vals: &[u8], blocksize: usize) -> (r: Vec<u8>)
    ensures
        filled_up(r@, rice_bits(widened_u8(vals@), blocksize, rice_width(1))),
{
    let v: Vec<i64> = widen_u8(vals);
    rice_compress_core(v.as_slice(), blocksize, RiceWidth { fsbits: 3, fsmax: 6, bbits: 8 })
}

/// Two values that agree in the bits of a sample.
pub open spec fn same_sample(a: int, b: int, w: RiceWidth) -> bool {
    a % w.modulus() == b % w.modulus()
}

/// The mapped differences that a block whose field is `code` can hold.
pub open spec fn codable(m: nat, code: nat, w: RiceWidth) -> bool {
    if code == 0 {
        m == 0
    } else if code == w.fsmax + 1 {
        m < w.modulus()
    } else {
        m / power2::pow2((code - 1) as nat) < u32::MAX
    }
}

proof fn lemma_mapped_round_trip(m: nat, code: nat, w: RiceWidth, tail: Seq<bool>)
    requires
        w.standard(),
        codable(m, code, w),
    ensures
        mapped_at(mapped_bits(m, code, w) + tail, code, w) == Some((m, tail)),
{
    let bits = mapped_bits(m, code, w) + tail;
    if code == 0 {
        assert(bits =~= tail);
    } else if code == w.fsmax + 1 {
        lemma_modulus(w);
        let n = w.bbits as nat;
        bs::lemma_bits_nat_of_nat_bits(m, n);
        assert(bits.take(n as int) =~= bs::nat_bits(m, n));
        assert(bits.skip(n as int) =~= tail);
        vstd::arithmetic::div_mod::lemma_small_mod(m, w.modulus() as nat);
    } else {
        let fs = (code - 1) as nat;
        let unit = power2::pow2(fs);
        power2::lemma_pow2_pos(fs);
        let high = m / unit;
        bs::lemma_bits_nat_of_nat_bits(m, fs);
        assert(is_unary(bits, high));
        lemma_unary(bits, high);
        let low = bits.skip(high as int + 1);
        assert(low =~= bs::nat_bits(m, fs) + tail);
        assert(low.take(fs as int) =~= bs::nat_bits(m, fs));
        assert(low.skip(fs as int) =~= tail);
        vstd::arithmetic::div_mod::lemma_fundamental_div_mod(m as int, unit as int);
        assert(unit * high == high * unit) by (nonlinear_arith);
    }
}

proof fn lemma_next_value(last_d: i64, last_e: i64, v: i64, w: RiceWidth)
    requires
        w.standard(),
        same_sample(last_d as int, last_e as int, w),
    ensures
        same_sample(next_value(last_d, mapped_diff(last_e, v, w)) as int, v as int, w),
{
    let m = w.modulus();
    let d = casts::signed_residue(v - last_e, m);
    unzigzag_inverts_zigzag(d);
    let x = last_d + d;
    let nv = next_value(last_d, mapped_diff(last_e, v, w));
    let turns = (nv - x) / 0x1_0000_0000_0000_0000;
    assert(nv == x + turns * 0x1_0000_0000_0000_0000);
    lemma_residue_of_turns(x, turns, w);
    let qd = (v - last_e - d) / m;
    assert(v - last_e - d == m * qd) by {
        vstd::arithmetic::div_mod::lemma_fundamental_div_mod(v - last_e, m);
        let q = (v - last_e) / m;
        if d == (v - last_e) % m {
            assert(v - last_e - d == m * q);
        } else {
            assert(v - last_e - d == m * (q + 1)) by (nonlinear_arith)
                requires
                    v - last_e == m * q + (v - last_e) % m,
                    d == (v - last_e) % m - m,
            ;
            vstd::arithmetic::div_mod::lemma_div_multiples_vanish(q + 1, m);
        }
        vstd::arithmetic::div_mod::lemma_div_multiples_vanish(q, m);
    }
    let ql = (last_d - last_e) / m;
    vstd::arithmetic::div_mod::lemma_fundamental_div_mod(last_d as int, m);
    vstd::arithmetic::div_mod::lemma_fundamental_div_mod(last_e as int, m);
    let qa = last_d as int / m;
    let qb = last_e as int / m;
    assert(x == v + m * (qa - qb - qd)) by (nonlinear_arith)
        requires
            x == last_d + d,
            v - last_e - d == m * qd,
            last_d == m * qa + last_d as int % m,
            last_e == m * qb + last_e as int % m,
            last_d as int % m == last_e as int % m,
    ;
    vstd::arithmetic::div_mod::lemma_mod_multiples_vanish(qa - qb - qd, v as int, m);
}

proof fn lemma_block_round_trip(
    last_d: i64,
    last_e: i64,
    vals: Seq<i64>,
    code: nat,
    w: RiceWidth,
    tail: Seq<bool>,
)
    requires
        w.standard(),
        same_sample(last_d as int, last_e as int, w),
        forall|i: int|
            0 <= i < vals.len() ==> codable(#[trigger] mapped_diffs(last_e, vals, w)[i], code, w),
    ensures
        decode_block(
            block_bits(mapped_diffs(last_e, vals, w), code, w) + tail,
            last_d,
            code,
            vals.len(),
            w,
        ) matches Some((vs, end)) && end == tail && vs.len() == vals.len() && forall|i: int|
            0 <= i < vals.len() ==> same_sample(#[trigger] vs[i] as int, vals[i] as int, w),
    decreases vals.len(),
{
    let ms = mapped_diffs(last_e, vals, w);
    if vals.len() == 0 {
        assert(block_bits(ms, code, w) + tail =~= tail);
    } else {
        let rest = vals.skip(1);
        assert(ms.skip(1) =~= mapped_diffs(vals[0], rest, w));
        assert forall|i: int| 0 <= i < rest.len() implies codable(
            #[trigger] mapped_diffs(vals[0], rest, w)[i],
            code,
            w,
        ) by {
            assert(ms.skip(1)[i] == ms[i + 1]);
        }
        let after = block_bits(ms.skip(1), code, w) + tail;
        assert(block_bits(ms, code, w) + tail =~= mapped_bits(ms[0], code, w) + after);
        assert(codable(ms[0], code, w));
        lemma_mapped_round_trip(ms[0], code, w, after);
        lemma_next_value(last_d, last_e, vals[0], w);
        let v = next_value(last_d, ms[0]);
        lemma_block_round_trip(v, vals[0], rest, code, w, tail);
        let (vs, end) = decode_block(after, v, code, rest.len(), w)->0;
        let all = seq![v] + vs;
        assert forall|i: int| 0 <= i < vals.len() implies same_sample(
            #[trigger] all[i] as int,
            vals[i] as int,
            w,
        ) by {
            if i > 0 {
                assert(all[i] == vs[i - 1]);
                assert(vals[i] == rest[i - 1]);
            }
        }
    }
}

proof fn lemma_wrapped_sum(ms: Seq<nat>)
    requires
        ms.len() < 0x8000_0000,
        forall|i: int| 0 <= i < ms.len() ==> #[trigger] ms[i] < 0x1_0000_0000,
    ensures
        0 <= wrapped_sum(ms) <= ms.len() * 0x1_0000_0000,
        forall|i: int| 0 <= i < ms.len() ==> #[trigger] ms[i] <= wrapped_sum(ms),
    decreases ms.len(),
{
    if ms.len() > 0 {
        let init = ms.drop_last();
        assert forall|i: int| 0 <= i < init.len() implies #[trigger] init[i] < 0x1_0000_0000 by {
            assert(init[i] == ms[i]);
        }
        lemma_wrapped_sum(init);
        assert forall|i: int| 0 <= i < ms.len() implies #[trigger] ms[i] <= wrapped_sum(ms) by {
            if i < ms.len() - 1 {
                assert(ms[i] == init[i]);
            }
        }
    }
}

proof fn lemma_first_rise_bound(sum: u64, n: u64, fs: nat, fsmax: nat)
    requires
        fs <= fsmax,
    ensures
        fs <= first_rise(sum, n, fs, fsmax) <= fsmax,
    decreases fsmax - fs,
{
    if fs < fsmax && block_cost(sum, n, fs + 1) < block_cost(sum, n, fs) {
        lemma_first_rise_bound(sum, n, fs + 1, fsmax);
    }
}

/// The field that the encoder chooses for a block can hold its differences.
proof fn lemma_chosen_code(ms: Seq<nat>, w: RiceWidth)
    requires
        w.standard(),
        0 < ms.len() < 0x8000_0000,
        forall|i: int| 0 <= i < ms.len() ==> #[trigger] ms[i] < w.modulus(),
    ensures
        ({
            let code = block_code(wrapped_sum(ms) as u64, ms.len() as u64, w.fsmax as nat);
            &&& code <= w.fsmax + 1
            &&& forall|i: int| 0 <= i < ms.len() ==> codable(#[trigger] ms[i], code, w)
        }),
{
    assert forall|i: int| 0 <= i < ms.len() implies #[trigger] ms[i] < 0x1_0000_0000 by {
        assert(ms[i] < w.modulus());
    }
    lemma_wrapped_sum(ms);
    let sum = wrapped_sum(ms) as u64;
    let n = ms.len() as u64;
    let code = block_code(sum, n, w.fsmax as nat);
    lemma_first_rise_bound(sum, n, 0, w.fsmax as nat);
    power2::lemma2_to64();
    if code == 1 {
        lemma_first_rise_bound(sum, n, 1, w.fsmax as nat);
        assert(block_cost(sum, n, 1) >= block_cost(sum, n, 0));
        assert(n * (w.fsmax + 1) <= 0x8000_0000 * 26) by (nonlinear_arith)
            requires
                n <= 0x8000_0000,
                w.fsmax <= 25,
        ;
        lemma_exact_cost(sum, n, 0, w.fsmax as nat);
        lemma_exact_cost(sum, n, 1, w.fsmax as nat);
        assert(sum as nat / power2::pow2(0) == sum) by (nonlinear_arith)
            requires
                power2::pow2(0) == 1,
        ;
        assert(n * (0nat + 1) == n && n * (1nat + 1) == 2 * n) by (nonlinear_arith);
        assert(sum < u32::MAX);
    }
    assert forall|i: int| 0 <= i < ms.len() implies codable(#[trigger] ms[i], code, w) by {
        let m = ms[i];
        assert(m <= sum);
        if 1 < code && code != w.fsmax + 1 {
            let unit = power2::pow2((code - 1) as nat);
            if code > 2 {
                power2::lemma_pow2_strictly_increases(1, (code - 1) as nat);
            }
            assert(m / unit <= m / 2) by (nonlinear_arith)
                requires
                    unit >= 2,
                    m >= 0,
            {
                vstd::arithmetic::div_mod::lemma_div_is_ordered_by_denominator(
                    m as int,
                    2,
                    unit as int,
                );
            }
        }
        if code == 1 {
            assert(m / power2::pow2(0) == m) by (nonlinear_arith)
                requires
                    power2::pow2(0) == 1,
            ;
        }
    }
}

/// Whether a block whose field is `code` can hold its mapped differences.
pub open spec fn block_holds(ms: Seq<nat>, code: nat, w: RiceWidth) -> bool {
    forall|i: int| 0 <= i < ms.len() ==> codable(#[trigger] ms[i], code, w)
}

/// Whether the field that the encoder chooses for each block can hold its differences.
pub open spec fn blocks_hold(last: i64, vals: Seq<i64>, blocksize: nat, w: RiceWidth) -> bool
    decreases vals.len(),
{
    if vals.len() == 0 || blocksize == 0 {
        true
    } else {
        let k = (if vals.len() < blocksize {
            vals.len()
        } else {
            blocksize
        }) as int;
        let ms = mapped_diffs(last, vals.take(k), w);
        let code = block_code(wrapped_sum(ms) as u64, k as u64, w.fsmax as nat);
        &&& block_holds(ms, code, w)
        &&& blocks_hold(vals[k - 1], vals.skip(k), blocksize, w)
    }
}

/// Whether the code of values holds them. A block of 2^31 values or more may not: the
/// 64-bit sum of its differences, from which its field is chosen, can wrap.
pub open spec fn code_holds(vals: Seq<i64>, blocksize: usize, w: RiceWidth) -> bool {
    vals.len() > 0 ==> blocks_hold(vals[0], vals, at_least_one(blocksize), w)
}

proof fn lemma_mapped_bound(last: i64, vals: Seq<i64>, w: RiceWidth)
    requires
        w.standard(),
    ensures
        forall|i: int|
            0 <= i < vals.len() ==> #[trigger] mapped_diffs(last, vals, w)[i] < w.modulus(),
{
    let ms = mapped_diffs(last, vals, w);
    assert forall|i: int| 0 <= i < ms.len() implies #[trigger] ms[i] < w.modulus() by {
        let d = casts::signed_residue(
            vals[i] - (if i == 0 {
                last
            } else {
                vals[i - 1]
            }),
            w.modulus(),
        );
        assert(ms[i] == zigzag_of(d));
    }
}

proof fn lemma_short_hold(last: i64, vals: Seq<i64>, blocksize: nat, w: RiceWidth)
    requires
        w.standard(),
        blocksize < 0x8000_0000 || vals.len() < 0x8000_0000,
    ensures
        blocks_hold(last, vals, blocksize, w),
    decreases vals.len(),
{
    if vals.len() > 0 && blocksize > 0 {
        let k = (if vals.len() < blocksize {
            vals.len()
        } else {
            blocksize
        }) as int;
        lemma_mapped_bound(last, vals.take(k), w);
        let ms = mapped_diffs(last, vals.take(k), w);
        lemma_chosen_code(ms, w);
        assert(block_holds(
            ms,
            block_code(wrapped_sum(ms) as u64, k as u64, w.fsmax as nat),
            w,
        ));
        lemma_short_hold(vals[k - 1], vals.skip(k), blocksize, w);
    }
}

proof fn lemma_blocks_round_trip(
    last_d: i64,
    last_e: i64,
    vals: Seq<i64>,
    blocksize: nat,
    w: RiceWidth,
    tail: Seq<bool>,
)
    requires
        w.standard(),
        blocksize > 0,
        blocks_hold(last_e, vals, blocksize, w),
        same_sample(last_d as int, last_e as int, w),
    ensures
        decode_blocks(
            blocks_bits(last_e, vals, blocksize, w) + tail,
            last_d,
            vals.len(),
            blocksize,
            w,
        ) matches Some(out) && out.len() == vals.len() && forall|i: int|
            0 <= i < vals.len() ==> same_sample(#[trigger] out[i] as int, vals[i] as int, w),
    decreases vals.len(),
{
    if vals.len() > 0 {
        let k = (if vals.len() < blocksize {
            vals.len()
        } else {
            blocksize
        }) as int;
        let head = vals.take(k);
        let rest = vals.skip(k);
        let ms = mapped_diffs(last_e, head, w);
        lemma_mapped_bound(last_e, head, w);
        let code = block_code(wrapped_sum(ms) as u64, k as u64, w.fsmax as nat);
        lemma_first_rise_bound(wrapped_sum(ms) as u64, k as u64, 0, w.fsmax as nat);
        assert(block_holds(ms, code, w));
        assert(blocks_hold(vals[k - 1], rest, blocksize, w));
        let after = blocks_bits(vals[k - 1], rest, blocksize, w) + tail;
        let body = block_bits(ms, code, w) + after;
        let all = blocks_bits(last_e, vals, blocksize, w) + tail;
        let nf = w.fsbits as nat;
        assert(all =~= bs::nat_bits(code, nf) + body);
        bs::lemma_bits_nat_of_nat_bits(code, nf);
        power2::lemma2_to64();
        vstd::arithmetic::div_mod::lemma_small_mod(code, power2::pow2(nf));
        assert(all.take(nf as int) =~= bs::nat_bits(code, nf));
        assert(all.skip(nf as int) =~= body);
        lemma_block_round_trip(last_d, last_e, head, code, w, after);
        let (vs, end) = decode_block(body, last_d, code, k as nat, w)->0;
        assert(same_sample(vs[k - 1] as int, head[k - 1] as int, w));
        lemma_blocks_round_trip(vs.last(), vals[k - 1], rest, blocksize, w, tail);
        let out_rest = decode_blocks(after, vs.last(), rest.len(), blocksize, w)->0;
        let out = vs + out_rest;
        assert forall|i: int| 0 <= i < vals.len() implies same_sample(
            #[trigger] out[i] as int,
            vals[i] as int,
            w,
        ) by {
            if i < k {
                assert(out[i] == vs[i] && vals[i] == head[i]);
            } else {
                assert(out[i] == out_rest[i - k] && vals[i] == rest[i - k]);
            }
        }
    }
}

/// Blocks are short enough that the sum of their differences is exact.
pub open spec fn short_blocks(n: nat, blocksize: usize) -> bool {
    blocksize < 0x8000_0000 || n < 0x8000_0000
}

/// The code of values in short blocks holds them.
pub proof fn short_blocks_hold(vals: Seq<i64>, blocksize: usize, w: RiceWidth)
    requires
        w.standard(),
        short_blocks(vals.len(), blocksize),
    ensures
        code_holds(vals, blocksize, w),
{
    if vals.len() > 0 {
        lemma_short_hold(vals[0], vals, at_least_one(blocksize), w);
    }
}

/// RICE_1 is lossless: decoding what the encoder made gives back every value,
/// in the bits that a sample has.
pub proof fn rice_round_trip(bytes: Seq<u8>, vals: Seq<i64>, blocksize: usize, w: RiceWidth)
    requires
        w.standard(),
        code_holds(vals, blocksize, w),
        filled_up(bytes, rice_bits(vals, blocksize, w)),
    ensures
        rice_decoded(bytes, vals.len(), blocksize, w) matches Some(out) && out.len() == vals.len()
            && forall|i: int|
            0 <= i < vals.len() ==> same_sample(#[trigger] out[i] as int, vals[i] as int, w),
{
    if vals.len() > 0 {
        lemma_modulus(w);
        let n = w.bbits as nat;
        let m = w.modulus();
        let raw = (vals[0] as int % m) as nat;
        let pad = bs::zero_bits((8 * bytes.len() - rice_bits(vals, blocksize, w).len()) as nat);
        let body = blocks_bits(vals[0], vals, at_least_one(blocksize), w) + pad;
        let all = bs::byte_bits(bytes);
        assert(all =~= bs::nat_bits(raw, n) + body);
        bs::lemma_bits_nat_of_nat_bits(raw, n);
        assert(all.take(n as int) =~= bs::nat_bits(raw, n));
        assert(all.skip(n as int) =~= body);
        vstd::arithmetic::div_mod::lemma_small_mod(raw, m as nat);
        let seed = sign_extended(raw as u64, w.bbits) as i64;
        assert(same_sample(seed as int, vals[0] as int, w)) by {
            vstd::arithmetic::div_mod::lemma_mod_multiples_vanish(-1, raw as int, m);
            vstd::arithmetic::div_mod::lemma_mod_twice(vals[0] as int, m);
        }
        lemma_blocks_round_trip(seed, vals[0], vals, at_least_one(blocksize), w, pad);
    }
}

/// Compressing 32-bit samples and decompressing them gives them back.
pub proof fn rice_i32_lossless(bytes: Seq<u8>, vals: Seq<i32>, blocksize: usize)
    requires
        code_holds(widened_i32(vals), blocksize, rice_width(4)),
        filled_up(bytes, rice_bits(widened_i32(vals), blocksize, rice_width(4))),
    ensures
        rice_decoded(bytes, vals.len(), blocksize, rice_width(4)) matches Some(out) && cut_i32(out)
            == vals,
{
    rice_round_trip(bytes, widened_i32(vals), blocksize, rice_width(4));
    let out = rice_decoded(bytes, vals.len(), blocksize, rice_width(4))->0;
    assert forall|i: int| 0 <= i < vals.len() implies #[trigger] cut_i32(out)[i] == vals[i] by {
        assert(same_sample(out[i] as int, widened_i32(vals)[i] as int, rice_width(4)));
        casts::lemma_signed_residue_small(vals[i] as int, 0x1_0000_0000);
    }
    assert(cut_i32(out) =~= vals);
}

/// Compressing 16-bit samples and decompressing them gives them back.
pub proof fn rice_i16_lossless(bytes: Seq<u8>, vals: Seq<i16>, blocksize: usize)
    requires
        code_holds(widened_i16(vals), blocksize, rice_width(2)),
        filled_up(bytes, rice_bits(widened_i16(vals), blocksize, rice_width(2))),
    ensures
        rice_decoded(bytes, vals.len(), blocksize, rice_width(2)) matches Some(out) && cut_i16(out)
            == vals,
{
    rice_round_trip(bytes, widened_i16(vals), blocksize, rice_width(2));
    let out = rice_decoded(bytes, vals.len(), blocksize, rice_width(2))->0;
    assert forall|i: int| 0 <= i < vals.len() implies #[trigger] cut_i16(out)[i] == vals[i] by {
        assert(same_sample(out[i] as int, widened_i16(vals)[i] as int, rice_width(2)));
        casts::lemma_signed_residue_small(vals[i] as int, 0x1_0000);
    }
    assert(cut_i16(out) =~= vals);
}

/// Compressing 8-bit samples and decompressing them gives them back.
pub proof fn rice_u8_lossless(bytes: Seq<u8>, vals: Seq<u8>, blocksize: usize)
    requires
        code_holds(widened_u8(vals), blocksize, rice_width(1)),
        filled_up(bytes, rice_bits(widened_u8(vals), blocksize, rice_width(1))),
    ensures
        rice_decoded(bytes, vals.len(), blocksize, rice_width(1)) matches Some(out) && cut_u8(out)
            == vals,
{
    rice_round_trip(bytes, widened_u8(vals), blocksize, rice_width(1));
    let out = rice_decoded(bytes, vals.len(), blocksize, rice_width(1))->0;
    assert forall|i: int| 0 <= i < vals.len() implies #[trigger] cut_u8(out)[i] == vals[i] by {
        assert(same_sample(out[i] as int, widened_u8(vals)[i] as int, rice_width(1)));
    }
    assert(cut_u8(out) =~= vals);
}

/// While the sums are exact, the chosen split costs no more than any other.
pub proof fn selected_split_is_cheapest(sum: u64, block_n: u64, fsmax: nat, other: nat)
    requires
        sum > 0,
        fsmax < 62,
        other <= fsmax,
        block_n * (fsmax + 1) + sum <= u64::MAX,
    ensures
        block_cost(sum, block_n, (block_code(sum, block_n, fsmax) - 1) as nat) <= block_cost(
            sum,
            block_n,
            other,
        ),
{
    lemma_cheapest_from(sum, block_n, 0, fsmax, other);
}

proof fn lemma_exact_cost(sum: u64, n: u64, fs: nat, fsmax: nat)
    requires
        fs <= fsmax,
        n * (fsmax + 1) + sum <= u64::MAX,
    ensures
        block_cost(sum, n, fs) == n * (fs + 1) + sum as nat / power2::pow2(fs),
        n * (fs + 1) <= n * (fsmax + 1),
        sum as nat / power2::pow2(fs + 1) == (sum as nat / power2::pow2(fs)) / 2,
{
    let p = power2::pow2(fs);
    bs::lemma_pow2_step(fs);
    vstd::arithmetic::div_mod::lemma_div_denominator(sum as int, p as int, 2);
    assert(p * 2 == 2 * p);
    assert(n * (fs + 1) <= n * (fsmax + 1)) by (nonlinear_arith)
        requires
            fs <= fsmax,
            n >= 0,
    ;
    assert(sum as nat / p <= sum) by (nonlinear_arith)
        requires
            p > 0,
    ;
}

/// Once the cost does not fall, it does not fall again.
proof fn lemma_no_fall_later(sum: u64, n: u64, fs: nat, fsmax: nat, other: nat)
    requires
        fs < fsmax,
        fs <= other <= fsmax,
        n * (fsmax + 1) + sum <= u64::MAX,
        block_cost(sum, n, fs + 1) >= block_cost(sum, n, fs),
    ensures
        block_cost(sum, n, fs) <= block_cost(sum, n, other),
    decreases other - fs,
{
    if other > fs {
        let q = sum as nat / power2::pow2(fs);
        lemma_exact_cost(sum, n, fs, fsmax);
        lemma_exact_cost(sum, n, fs + 1, fsmax);
        assert(n * (fs + 2) == n * (fs + 1) + n) by (nonlinear_arith);
        if fs + 1 < fsmax {
            lemma_exact_cost(sum, n, fs + 2, fsmax);
            assert(n * (fs + 3) == n * (fs + 2) + n) by (nonlinear_arith);
            assert(q / 2 - (q / 2) / 2 <= q - q / 2);
            lemma_no_fall_later(sum, n, fs + 1, fsmax, other);
        }
    }
}

proof fn lemma_cheapest_from(sum: u64, n: u64, fs: nat, fsmax: nat, other: nat)
    requires
        fs <= fsmax,
        other <= fsmax,
        n * (fsmax + 1) + sum <= u64::MAX,
        fs > 0 ==> block_cost(sum, n, fs) < block_cost(sum, n, (fs - 1) as nat),
    ensures
        block_cost(sum, n, first_rise(sum, n, fs, fsmax)) <= block_cost(sum, n, other),
    decreases fsmax - fs,
{
    if fs < fsmax && block_cost(sum, n, fs + 1) < block_cost(sum, n, fs) {
        lemma_cheapest_from(sum, n, fs + 1, fsmax, other);
    } else if other >= fs {
        if fs < fsmax {
            lemma_no_fall_later(sum, n, fs, fsmax, other);
        }
    } else {
        lemma_falls_until(sum, n, fs, fsmax, other);
    }
}

/// Where the cost falls to `fs`, it has fallen all the way.
proof fn lemma_falls_until(sum: u64, n: u64, fs: nat, fsmax: nat, other: nat)
    requires
        other < fs <= fsmax,
        n * (fsmax + 1) + sum <= u64::MAX,
        block_cost(sum, n, fs) < block_cost(sum, n, (fs - 1) as nat),
    ensures
        block_cost(sum, n, fs) < block_cost(sum, n, other),
    decreases fs,
{
    if other + 1 < fs {
        let prev = (fs - 1) as nat;
        let pprev = (fs - 2) as nat;
        if block_cost(sum, n, prev) >= block_cost(sum, n, pprev) {
            lemma_no_fall_later(sum, n, pprev, fsmax, fs);
            lemma_exact_cost(sum, n, fs, fsmax);
            lemma_exact_cost(sum, n, prev, fsmax);
            lemma_exact_cost(sum, n, pprev, fsmax);
            let q = sum as nat / power2::pow2(pprev);
            assert(n * (prev + 1) == n * (pprev + 1) + n) by (nonlinear_arith)
                requires
                    prev == pprev + 1,
            ;
            assert(n * (fs + 1) == n * (prev + 1) + n) by (nonlinear_arith)
                requires
                    fs == prev + 1,
            ;
            assert(q / 2 - (q / 2) / 2 <= q - q / 2);
            assert(false);
        }
        lemma_falls_until(sum, n, prev, fsmax, other);
    }
}

/// The samples of a tile have as many bits as their bytes have; the field that says how the
/// differences of a block are split counts up to that number, and there are as many splits as
/// leave it one number more for zeros and one for differences that are stored as they are,
/// but for 26 in samples of four bytes.
pub proof fn widths_of_samples(bytepix: int)
    requires
        bytepix == 1 || bytepix == 2 || bytepix == 4,
    ensures
        ({
            let w = rice_width(bytepix);
            &&& w.standard()
            &&& w.bbits == 8 * bytepix
            &&& w.modulus() == power2::pow2(w.bbits as nat)
            &&& power2::pow2(w.fsbits as nat) == w.bbits
            &&& if bytepix == 4 {
                w.fsmax + 1 == 26
            } else {
                w.fsmax + 2 == power2::pow2(w.fsbits as nat)
            }
        }),
{
    power2::lemma2_to64();
}

} // verus!
