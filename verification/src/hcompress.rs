//! HCOMPRESS_1 decoding: an inverse H-transform of quadtree-coded coefficients.
//!
//! A tile is a header (magic code, dimensions, digitization scale, sum of all
//! pixels, bit-plane counts), the bit planes of the four quadrants of the
//! coefficient array, and the signs of its non-zero elements. Coefficients are
//! multiplied by the scale and transformed back, level by level, in 32- or 64-bit
//! wrapping arithmetic.
use crate::bitstream as bs;
use crate::bitstream::BitReader;
use crate::casts;
use crate::error::{Error, ErrorView, Result};
use crate::htransform as ht;
use vstd::arithmetic::power2;
use vstd::prelude::*;

verus! {

/// The value of a Huffman code at the start of `bits`, and the bits after it.
/// Codes have three to six bits.
pub open spec fn huffman_at(bits: Seq<bool>) -> Option<(nat, Seq<bool>)> {
    let c3 = bs::bits_nat(bits.take(3));
    let c4 = bs::bits_nat(bits.take(4));
    let c5 = bs::bits_nat(bits.take(5));
    let c6 = bs::bits_nat(bits.take(6));
    if bits.len() < 3 {
        None
    } else if c3 < 4 {
        Some(
            (
                if c3 == 0 {
                    1
                } else if c3 == 1 {
                    2
                } else if c3 == 2 {
                    4
                } else {
                    8
                },
                bits.skip(3),
            ),
        )
    } else if bits.len() < 4 {
        None
    } else if c4 <= 12 {
        Some(
            (
                if c4 == 8 {
                    3
                } else if c4 == 9 {
                    5
                } else if c4 == 10 {
                    10
                } else if c4 == 11 {
                    12
                } else {
                    15
                },
                bits.skip(4),
            ),
        )
    } else if bits.len() < 5 {
        None
    } else if c5 <= 30 {
        Some(
            (
                if c5 == 26 {
                    6
                } else if c5 == 27 {
                    7
                } else if c5 == 28 {
                    9
                } else if c5 == 29 {
                    11
                } else {
                    13
                },
                bits.skip(5),
            ),
        )
    } else if bits.len() < 6 {
        None
    } else {
        Some(
            (
                if c6 == 62 {
                    0
                } else {
                    14
                },
                bits.skip(6),
            ),
        )
    }
}

/// `n` four-bit numbers at the start of `bits`, and the bits after them.
pub open spec fn nybbles_at(bits: Seq<bool>, n: nat) -> Option<(Seq<u8>, Seq<bool>)> {
    if bits.len() < 4 * n {
        None
    } else {
        Some(
            (
                Seq::new(n, |i: int| bs::bits_nat(bits.subrange(4 * i, 4 * i + 4)) as u8),
                bits.skip(4 * n as int),
            ),
        )
    }
}

/// The error for a stream that ends before its values do.
pub open spec fn end() -> ErrorView {
    ErrorView::CompressionError("HCOMPRESS: unexpected end of stream"@)
}

/// The error for a stream that ends within its header.
pub open spec fn header_end() -> ErrorView {
    ErrorView::CompressionError("HCOMPRESS: unexpected end of stream (qread)"@)
}

fn stream_end() -> (r: Error)
    ensures
        r@ == end(),
{
    Error::CompressionError("HCOMPRESS: unexpected end of stream".to_owned())
}

fn stream_header_end() -> (r: Error)
    ensures
        r@ == header_end(),
{
    Error::CompressionError("HCOMPRESS: unexpected end of stream (qread)".to_owned())
}

/// Bit/byte reader for the HCOMPRESS stream.
pub struct HcInput<'a> {
    bits: BitReader<'a>,
}

impl<'a> HcInput<'a> {
    /// The bits not yet read.
    pub closed spec fn rest(self) -> Seq<bool> {
        self.bits.rest()
    }

    pub fn new(data: &'a [u8]) -> (r: Self)
        ensures
            r.rest() == bs::byte_bits(data@),
    {
        HcInput { bits: BitReader::new(data) }
    }

    /// Read a big-endian 4-byte int.
    pub fn readint(&mut self) -> (r: Result<i32>)
        ensures
            match r {
                Ok(v) => old(self).rest().len() >= 32 && v == casts::signed_residue(
                    bs::bits_nat(old(self).rest().take(32)) as int,
                    0x1_0000_0000,
                ) && final(self).rest() == old(self).rest().skip(32),
                Err(e) => e@ == header_end() && old(self).rest().len() < 32,
            },
    {
        match self.bits.read_bits(32) {
            Ok(v) => Ok(casts::i32_of_i64(v as i64)),
            Err(_) => Err(stream_header_end()),
        }
    }

    /// Read a number of the header of at most 32 bits.
    fn read_field(&mut self, n: u32) -> (r: Result<u32>)
        requires
            n <= 32,
        ensures
            match r {
                Ok(v) => old(self).rest().len() >= n && v == bs::bits_nat(
                    old(self).rest().take(n as int),
                ) && final(self).rest() == old(self).rest().skip(n as int),
                Err(e) => e@ == header_end() && old(self).rest().len() < n,
            },
    {
        match self.bits.read_bits(n) {
            Ok(v) => Ok(v),
            Err(_) => Err(stream_header_end()),
        }
    }

    /// Read a big-endian 8-byte long long.
    pub fn readlonglong(&mut self) -> (r: Result<i64>)
        ensures
            match r {
                Ok(v) => old(self).rest().len() >= 64 && v == casts::signed_residue(
                    bs::bits_nat(old(self).rest().take(64)) as int,
                    0x1_0000_0000_0000_0000,
                ) && final(self).rest() == old(self).rest().skip(64),
                Err(e) => e@ == header_end() && old(self).rest().len() < 64,
            },
    {
        let ghost start = self.rest();
        let hi: u32 = match self.bits.read_bits(32) {
            Ok(v) => v,
            Err(_) => return Err(stream_header_end()),
        };
        let lo: u32 = match self.bits.read_bits(32) {
            Ok(v) => v,
            Err(_) => return Err(stream_header_end()),
        };
        proof {
            let a = start.take(32);
            let b = start.skip(32).take(32);
            assert(start.take(64) =~= a + b);
            bs::lemma_bits_nat_concat(a, b);
            power2::lemma2_to64();
            assert(start.skip(32).skip(32) =~= start.skip(64));
        }
        Ok(casts::i64_of_u64(hi as u64 * 0x1_0000_0000 + lo as u64))
    }

    /// Start reading bits at the next byte boundary.
    pub fn start_inputing_bits(&mut self)
        ensures
            final(self).rest() == old(self).rest().skip(old(self).rest().len() as int % 8),
    {
        self.bits.align();
    }

    pub fn input_bit(&mut self) -> (r: Result<bool>)
        ensures
            match r {
                Ok(v) => old(self).rest().len() >= 1 && v == old(self).rest()[0] && final(self).rest() == old(self).rest().skip(1),
                Err(e) => e@ == end() && old(self).rest().len() < 1,
            },
    {
        let ghost start = self.rest();
        match self.bits.read_bits(1) {
            Ok(v) => {
                proof {
                    lemma_one_bit(start.take(1));
                }
                Ok(v == 1)
            },
            Err(_) => Err(stream_end()),
        }
    }

    pub fn input_nbits(&mut self, n: u32) -> (r: Result<u32>)
        requires
            n <= 32,
        ensures
            match r {
                Ok(v) => old(self).rest().len() >= n && v == bs::bits_nat(
                    old(self).rest().take(n as int),
                ) && final(self).rest() == old(self).rest().skip(n as int),
                Err(e) => e@ == end() && old(self).rest().len() < n,
            },
    {
        match self.bits.read_bits(n) {
            Ok(v) => Ok(v),
            Err(_) => Err(stream_end()),
        }
    }

    pub fn input_nybble(&mut self) -> (r: Result<u32>)
        ensures
            match r {
                Ok(v) => old(self).rest().len() >= 4 && v == bs::bits_nat(old(self).rest().take(4))
                    && final(self).rest() == old(self).rest().skip(4) && v < 16,
                Err(e) => e@ == end() && old(self).rest().len() < 4,
            },
    {
        proof {
            bs::lemma_bits_nat_bound(self.rest().take(4));
            power2::lemma2_to64();
        }
        self.input_nbits(4)
    }

    /// Read `n` 4-bit nybbles.
    pub fn input_nnybble(&mut self, n: usize) -> (r: Result<Vec<u8>>)
        ensures
            match r {
                Ok(v) => nybbles_at(old(self).rest(), n as nat) == Some((v@, final(self).rest())),
                Err(e) => e@ == end() && nybbles_at(old(self).rest(), n as nat) is None,
            },
    {
        let ghost start = self.rest();
        let mut out: Vec<u8> = Vec::new();
        let mut i: usize = 0;
        assert(start.skip(0) =~= start);
        while i < n
            invariant
                i <= n,
                start == old(self).rest(),
                4 * i <= start.len(),
                self.rest() == start.skip(4 * i),
                out@ == Seq::new(
                    i as nat,
                    |k: int| bs::bits_nat(start.subrange(4 * k, 4 * k + 4)) as u8,
                ),
            decreases n - i,
        {
            let v: u32 = match self.input_nybble() {
                Ok(v) => v,
                Err(e) => return Err(e),
            };
            out.push(v as u8);
            proof {
                assert(start.skip(4 * i).take(4) =~= start.subrange(4 * i, 4 * i + 4));
                assert(start.skip(4 * i).skip(4) =~= start.skip(4 * (i + 1)));
            }
            i += 1;
            assert(out@ =~= Seq::new(
                i as nat,
                |k: int| bs::bits_nat(start.subrange(4 * k, 4 * k + 4)) as u8,
            ));
        }
        Ok(out)
    }

    /// Append one more bit to a code of which `n` bits have been read.
    fn extend_code(&mut self, code: u32, n: u32, Ghost(start): Ghost<Seq<bool>>) -> (r: Result<u32>)
        requires
            n <= 6,
            code < 64,
            n <= start.len(),
            code == bs::bits_nat(start.take(n as int)),
            old(self).rest() == start.skip(n as int),
        ensures
            match r {
                Ok(v) => start.len() > n && v == bs::bits_nat(start.take(n + 1)) && v / 2 == code
                    && final(self).rest() == start.skip(n + 1),
                Err(e) => e@ == end() && start.len() == n,
            },
    {
        let bit: bool = match self.input_bit() {
            Ok(b) => b,
            Err(e) => return Err(e),
        };
        proof {
            assert(start.take(n + 1).drop_last() =~= start.take(n as int));
            assert(start.skip(n as int).skip(1) =~= start.skip(n + 1));
        }
        Ok(
            2 * code + if bit {
                1
            } else {
                0
            },
        )
    }

    /// Huffman decode of a 4-bit code.
    pub fn input_huffman(&mut self) -> (r: Result<u8>)
        ensures
            match r {
                Ok(v) => huffman_at(old(self).rest()) == Some((v as nat, final(self).rest())) && v
                    < 16,
                Err(e) => e@ == end() && huffman_at(old(self).rest()) is None,
            },
    {
        let ghost start = self.rest();
        proof {
            bs::lemma_bits_nat_bound(start.take(3));
            power2::lemma2_to64();
        }
        let c3: u32 = match self.input_nbits(3) {
            Ok(v) => v,
            Err(e) => return Err(e),
        };
        if c3 < 4 {
            return Ok(
                if c3 == 0 {
                    1
                } else if c3 == 1 {
                    2
                } else if c3 == 2 {
                    4
                } else {
                    8
                },
            );
        }
        let c4: u32 = match self.extend_code(c3, 3, Ghost(start)) {
            Ok(v) => v,
            Err(e) => return Err(e),
        };
        if c4 <= 12 {
            return Ok(
                if c4 == 8 {
                    3
                } else if c4 == 9 {
                    5
                } else if c4 == 10 {
                    10
                } else if c4 == 11 {
                    12
                } else {
                    15
                },
            );
        }
        let c5: u32 = match self.extend_code(c4, 4, Ghost(start)) {
            Ok(v) => v,
            Err(e) => return Err(e),
        };
        if c5 <= 30 {
            return Ok(
                if c5 == 26 {
                    6
                } else if c5 == 27 {
                    7
                } else if c5 == 28 {
                    9
                } else if c5 == 29 {
                    11
                } else {
                    13
                },
            );
        }
        let c6: u32 = match self.extend_code(c5, 5, Ghost(start)) {
            Ok(v) => v,
            Err(e) => return Err(e),
        };
        Ok(
            if c6 == 62 {
                0
            } else {
                14
            },
        )
    }
}

proof fn lemma_one_bit(s: Seq<bool>)
    requires
        s.len() == 1,
    ensures
        bs::bits_nat(s) == (if s[0] {
            1nat
        } else {
            0nat
        }),
{
    assert(s.drop_last() =~= Seq::empty());
    assert(bs::bits_nat(s.drop_last()) == 0);
}

/// Bit `3 - 2 * (i % 2) - j % 2` of a 4-bit code: the cell of its 2x2 block at
/// row `i` and column `j`.
pub open spec fn code_bit(code: int, i: int, j: int) -> int {
    if i % 2 == 0 {
        if j % 2 == 0 {
            code / 8 % 2
        } else {
            code / 4 % 2
        }
    } else {
        if j % 2 == 0 {
            code / 2 % 2
        } else {
            code % 2
        }
    }
}

/// The code of the 2x2 block at row `i` and column `j` of a grid with `ny`
/// columns.
pub open spec fn block_code(codes: Seq<u8>, ny: int, i: int, j: int) -> int {
    codes[i / 2 * ht::half_up(ny) + j / 2] as int
}

/// The cells of a grid of `nx` rows and `ny` columns, one bit each, from the
/// codes of its 2x2 blocks.
pub open spec fn spread(codes: Seq<u8>, nx: int, ny: int) -> Seq<u8> {
    Seq::new(
        (nx * ny) as nat,
        |p: int| code_bit(block_code(codes, ny, p / ny, p % ny), p / ny, p % ny) as u8,
    )
}

/// The codes of a grid whose cells are marked, the last cell first: a Huffman
/// code for a marked cell, zero for another.
pub open spec fn refined(bits: Seq<bool>, marks: Seq<u8>) -> Option<(Seq<u8>, Seq<bool>)>
    decreases marks.len(),
{
    if marks.len() == 0 {
        Some((Seq::empty(), bits))
    } else if marks.last() == 0 {
        match refined(bits, marks.drop_last()) {
            None => None,
            Some((front, rest)) => Some((front.push(0), rest)),
        }
    } else {
        match huffman_at(bits) {
            None => None,
            Some((v, mid)) => match refined(mid, marks.drop_last()) {
                None => None,
                Some((front, rest)) => Some((front.push(v as u8), rest)),
            },
        }
    }
}

/// The codes of the finest grid (cells of width 2) of an `nqx` by `nqy`
/// quadrant, from those of the grid with cells of width `c`.
pub open spec fn expanded(bits: Seq<bool>, codes: Seq<u8>, nqx: int, nqy: int, c: int) -> Option<
    (Seq<u8>, Seq<bool>),
>
    decreases c,
{
    if c < 4 {
        Some((codes, bits))
    } else {
        match refined(bits, spread(codes, ht::cells(nqx, c / 2), ht::cells(nqy, c / 2))) {
            None => None,
            Some((finer, rest)) => expanded(rest, finer, nqx, nqy, c / 2),
        }
    }
}

/// The larger of two lengths.
pub open spec fn longer(a: int, b: int) -> int {
    if a < b {
        b
    } else {
        a
    }
}

/// The 2x2 codes of one bit plane: stored as they are behind a zero, or as a
/// quadtree behind a fifteen.
pub open spec fn plane_codes(bits: Seq<bool>, nqx: int, nqy: int) -> Option<(Seq<u8>, Seq<bool>)> {
    if bits.len() < 4 {
        None
    } else {
        let kind = bs::bits_nat(bits.take(4));
        let rest = bits.skip(4);
        if kind == 0 {
            nybbles_at(rest, (ht::half_up(nqx) * ht::half_up(nqy)) as nat)
        } else if kind != 15 {
            None
        } else {
            match huffman_at(rest) {
                None => None,
                Some((v, mid)) => expanded(
                    mid,
                    seq![v as u8],
                    nqx,
                    nqy,
                    ht::power_above(longer(nqx, nqy), 1),
                ),
            }
        }
    }
}

/// Why the codes of a bit plane cannot be read.
pub open spec fn plane_fault(bits: Seq<bool>) -> ErrorView {
    if bits.len() >= 4 && bs::bits_nat(bits.take(4)) != 0 && bs::bits_nat(bits.take(4)) != 15 {
        ErrorView::CompressionError("qtree_decode: bad format code"@)
    } else {
        end()
    }
}

/// Why the bit planes of a quadrant cannot be read: for what the first of them cannot.
pub open spec fn quadrant_fault(bits: Seq<bool>, nqx: int, nqy: int, planes: nat) -> ErrorView
    decreases planes,
{
    if planes == 0 {
        end()
    } else {
        match plane_codes(bits, nqx, nqy) {
            None => plane_fault(bits),
            Some((_, mid)) => quadrant_fault(mid, nqx, nqy, (planes - 1) as nat),
        }
    }
}

/// The values of a quadrant from its `planes` lowest bit planes, the highest
/// first, and the bits after them.
pub open spec fn quadrant(bits: Seq<bool>, nqx: int, nqy: int, planes: nat) -> Option<
    (Seq<int>, Seq<bool>),
>
    decreases planes,
{
    if planes == 0 {
        Some((Seq::new((nqx * nqy) as nat, |p: int| 0int), bits))
    } else {
        match plane_codes(bits, nqx, nqy) {
            None => None,
            Some((codes, mid)) => match quadrant(mid, nqx, nqy, (planes - 1) as nat) {
                None => None,
                Some((low, rest)) => Some(
                    (
                        Seq::new(
                            (nqx * nqy) as nat,
                            |p: int|
                                low[p] + power2::pow2((planes - 1) as nat) * code_bit(
                                    block_code(codes, nqy, p / nqy, p % nqy),
                                    p / nqy,
                                    p % nqy,
                                ),
                        ),
                        rest,
                    ),
                ),
            },
        }
    }
}

/// Magnitudes of the coefficients: the four quadrants side by side.
pub open spec fn joined(
    q1: Seq<int>,
    q2: Seq<int>,
    q3: Seq<int>,
    q4: Seq<int>,
    nx: int,
    ny: int,
) -> Seq<int> {
    Seq::new(
        (nx * ny) as nat,
        |p: int|
            {
                let i = p / ny;
                let j = p % ny;
                if i < ht::half_up(nx) {
                    if j < ht::half_up(ny) {
                        q1[i * ht::half_up(ny) + j]
                    } else {
                        q2[i * (ny / 2) + (j - ht::half_up(ny))]
                    }
                } else {
                    if j < ht::half_up(ny) {
                        q3[(i - ht::half_up(nx)) * ht::half_up(ny) + j]
                    } else {
                        q4[(i - ht::half_up(nx)) * (ny / 2) + (j - ht::half_up(ny))]
                    }
                }
            },
    )
}

/// Coefficients from magnitudes: a sign bit follows for each that is not zero.
pub open spec fn with_signs(bits: Seq<bool>, mags: Seq<int>, wide: bool) -> Option<Seq<int>>
    decreases mags.len(),
{
    if mags.len() == 0 {
        Some(Seq::empty())
    } else if mags[0] == 0 {
        match with_signs(bits, mags.skip(1), wide) {
            None => None,
            Some(t) => Some(seq![0int] + t),
        }
    } else if bits.len() == 0 {
        None
    } else {
        match with_signs(bits.skip(1), mags.skip(1), wide) {
            None => None,
            Some(t) => Some(
                seq![
                    if bits[0] {
                        ht::wrap(-ht::wrap(mags[0], wide), wide)
                    } else {
                        ht::wrap(mags[0], wide)
                    },
                ] + t,
            ),
        }
    }
}

/// The bit of a 4-bit code at a cell of its block.
fn bit_of_code(code: u8, i: usize, j: usize) -> (r: u8)
    requires
        code < 16,
    ensures
        r == code_bit(code as int, i as int, j as int),
        r <= 1,
{
    if i % 2 == 0 {
        if j % 2 == 0 {
            code / 8 % 2
        } else {
            code / 4 % 2
        }
    } else {
        if j % 2 == 0 {
            code / 2 % 2
        } else {
            code % 2
        }
    }
}

/// All values are 4-bit.
pub open spec fn all_codes(codes: Seq<u8>) -> bool {
    forall|i: int| 0 <= i < codes.len() ==> #[trigger] codes[i] < 16
}

/// The bit of the block code at a cell of a grid.
fn cell_bit(codes: &[u8], nx: usize, ny: usize, i: usize, j: usize) -> (r: u8)
    requires
        i < nx,
        j < ny,
        codes@.len() == ht::half_up(nx as int) * ht::half_up(ny as int),
        all_codes(codes@),
    ensures
        r == code_bit(block_code(codes@, ny as int, i as int, j as int), i as int, j as int),
        r <= 1,
{
    let half: usize = ny / 2 + ny % 2;
    let len: usize = codes.len();
    proof {
        ht::lemma_position((i / 2) as int, (j / 2) as int, ht::half_up(nx as int), ht::half_up(ny as int));
    }
    bit_of_code(codes[i / 2 * half + j / 2], i, j)
}

/// Expand 4-bit quadtree values of `(nx+1)/2` by `(ny+1)/2` blocks into the
/// `nx` by `ny` cells (2x2 per value).
fn qtree_copy(codes: &[u8], nx: usize, ny: usize) -> (r: Vec<u8>)
    requires
        nx > 0,
        ny > 0,
        nx * ny <= usize::MAX,
        codes@.len() == ht::half_up(nx as int) * ht::half_up(ny as int),
        all_codes(codes@),
    ensures
        r@ == spread(codes@, nx as int, ny as int),
        r@.len() == nx * ny,
{
    let mut out: Vec<u8> = Vec::new();
    let ghost all = spread(codes@, nx as int, ny as int);
    let n: usize = nx * ny;
    assert(out@ =~= all.take(0));
    while out.len() < n
        invariant
            nx > 0,
            ny > 0,
            n == nx * ny,
            codes@.len() == ht::half_up(nx as int) * ht::half_up(ny as int),
            all_codes(codes@),
            all == spread(codes@, nx as int, ny as int),
            out@.len() <= n,
            out@ == all.take(out@.len() as int),
        decreases n - out@.len(),
    {
        let p: usize = out.len();
        proof {
            ht::lemma_cell_of(p as int, nx as int, ny as int);
        }
        out.push(cell_bit(codes, nx, ny, p / ny, p % ny));
        assert(out@ =~= all.take(out@.len() as int));
    }
    assert(out@ =~= all);
    out
}

/// One quadtree expansion step: copy+expand, then read a fresh Huffman code into
/// every non-zero element (scanning from the end).
fn qtree_expand(input: &mut HcInput<'_>, codes: &[u8], nx: usize, ny: usize) -> (r: Result<Vec<u8>>)
    requires
        nx > 0,
        ny > 0,
        nx * ny <= usize::MAX,
        codes@.len() == ht::half_up(nx as int) * ht::half_up(ny as int),
        all_codes(codes@),
    ensures
        match r {
            Ok(v) => refined(old(input).rest(), spread(codes@, nx as int, ny as int)) == Some(
                (v@, final(input).rest()),
            ) && v@.len() == nx * ny && all_codes(v@),
            Err(e) => e@ == end() && refined(
                old(input).rest(),
                spread(codes@, nx as int, ny as int),
            ) is None,
        },
{
    let mut cells: Vec<u8> = qtree_copy(codes, nx, ny);
    let ghost marks = cells@;
    let ghost whole = refined(input.rest(), marks);
    let mut i: usize = cells.len();
    proof {
        assert(marks.take(i as int) =~= marks);
        if let Some((front, rest)) = whole {
            assert(front + cells@.skip(i as int) =~= front);
        }
    }
    while i > 0
        invariant
            i <= cells@.len(),
            cells@.len() == marks.len(),
            whole == refined(old(input).rest(), marks),
            marks == spread(codes@, nx as int, ny as int),
            forall|k: int| 0 <= k < i ==> cells@[k] == marks[k],
            forall|k: int| i <= k < cells@.len() ==> #[trigger] cells@[k] < 16,
            whole == match refined(input.rest(), marks.take(i as int)) {
                None => None,
                Some((front, rest)) => Some((front + cells@.skip(i as int), rest)),
            },
        decreases i,
    {
        i -= 1;
        let ghost prefix = marks.take(i + 1);
        let ghost done = cells@.skip(i + 1);
        assert(prefix.drop_last() =~= marks.take(i as int));
        if cells[i] != 0 {
            let v: u8 = match input.input_huffman() {
                Ok(v) => v,
                Err(e) => return Err(e),
            };
            cells.set(i, v);
        }
        proof {
            assert(cells@.skip(i as int) =~= seq![cells@[i as int]] + done);
            if let Some((front, rest)) = refined(input.rest(), marks.take(i as int)) {
                assert(front.push(cells@[i as int]) + done =~= front + cells@.skip(i as int));
            }
        }
    }
    proof {
        assert(marks.take(0) =~= Seq::empty());
        assert(Seq::<u8>::empty() + cells@.skip(0) =~= cells@);
    }
    Ok(cells)
}

proof fn lemma_nybbles_are_codes(bits: Seq<bool>, n: nat)
    ensures
        nybbles_at(bits, n) matches Some((v, rest)) ==> v.len() == n && all_codes(v),
{
    if let Some((v, rest)) = nybbles_at(bits, n) {
        assert forall|i: int| 0 <= i < v.len() implies #[trigger] v[i] < 16 by {
            bs::lemma_bits_nat_bound(bits.subrange(4 * i, 4 * i + 4));
            power2::lemma2_to64();
        }
    }
}

/// Expand the codes of a coarse grid down to cells of width 2.
fn expand_codes(
    input: &mut HcInput<'_>,
    first: Vec<u8>,
    nqx: usize,
    nqy: usize,
    top: u64,
) -> (r: Result<Vec<u8>>)
    requires
        (nqx + 1) * (nqy + 1) <= usize::MAX,
        nqx <= 0x8000_0000,
        nqy <= 0x8000_0000,
        ht::is_power(top as int),
        top <= 0x8000_0000,
        top >= nqx,
        top >= nqy,
        first@.len() == 1,
        all_codes(first@),
    ensures
        match r {
            Ok(v) => expanded(
                old(input).rest(),
                first@,
                nqx as int,
                nqy as int,
                top as int,
            ) == Some((v@, final(input).rest())) && all_codes(v@) && v@.len() == (if top == 1 {
                1
            } else {
                ht::cells(nqx as int, 2) * ht::cells(nqy as int, 2)
            }),
            Err(e) => e@ == end() && expanded(
                old(input).rest(),
                first@,
                nqx as int,
                nqy as int,
                top as int,
            ) is None,
        },
{
    let ghost whole = expanded(input.rest(), first@, nqx as int, nqy as int, top as int);
    let mut codes: Vec<u8> = first;
    let mut c: u64 = top;
    proof {
        if top > 1 {
            ht::lemma_cells(nqx as int, top as int);
            ht::lemma_cells(nqy as int, top as int);
        }
    }
    while c >= 4
        invariant
            (nqx + 1) * (nqy + 1) <= usize::MAX,
            nqx <= 0x8000_0000,
            nqy <= 0x8000_0000,
            ht::is_power(c as int),
            1 <= c <= 0x8000_0000,
            top == 1 <==> c == 1,
            all_codes(codes@),
            codes@.len() == (if c == 1 {
                1
            } else {
                ht::cells(nqx as int, c as int) * ht::cells(nqy as int, c as int)
            }),
            whole == expanded(old(input).rest(), first@, nqx as int, nqy as int, top as int),
            whole == expanded(input.rest(), codes@, nqx as int, nqy as int, c as int),
        decreases c,
    {
        let h: u64 = c / 2;
        proof {
            ht::lemma_cells(nqx as int, c as int);
            ht::lemma_cells(nqy as int, c as int);
            assert(ht::is_power(h as int));
            assert(h >= 2 && h % 2 == 0);
            ht::lemma_cells(nqx as int, h as int);
            ht::lemma_cells(nqy as int, h as int);
            let a = ht::cells(nqx as int, h as int);
            let b = ht::cells(nqy as int, h as int);
            assert(a * b <= (nqx + 1) * (nqy + 1)) by (nonlinear_arith)
                requires
                    1 <= a <= nqx + 1,
                    1 <= b <= nqy + 1,
            ;
        }
        let nx: usize = ht::cells_of(nqx, h);
        let ny: usize = ht::cells_of(nqy, h);
        codes =
        match qtree_expand(input, codes.as_slice(), nx, ny) {
            Ok(v) => v,
            Err(e) => return Err(e),
        };
        c = h;
    }
    proof {
        assert(c == 1 || c == 2);
    }
    Ok(codes)
}

/// Read the 2x2 codes of one bit plane.
fn read_plane(input: &mut HcInput<'_>, nqx: usize, nqy: usize) -> (r: Result<Vec<u8>>)
    requires
        (nqx + 1) * (nqy + 1) <= usize::MAX,
        nqx <= 0x8000_0000,
        nqy <= 0x8000_0000,
    ensures
        match r {
            Ok(v) => plane_codes(old(input).rest(), nqx as int, nqy as int) == Some(
                (v@, final(input).rest()),
            ) && all_codes(v@) && (nqx > 0 && nqy > 0 ==> v@.len() == ht::half_up(nqx as int) * ht::half_up(
                nqy as int,
            )),
            Err(e) => e@ == plane_fault(old(input).rest()) && plane_codes(
                old(input).rest(),
                nqx as int,
                nqy as int,
            ) is None,
        },
{
    let kind: u32 = match input.input_nybble() {
        Ok(v) => v,
        Err(e) => return Err(e),
    };
    if kind == 0 {
        let hx: usize = nqx / 2 + nqx % 2;
        let hy: usize = nqy / 2 + nqy % 2;
        proof {
            assert(hx * hy <= (nqx + 1) * (nqy + 1)) by (nonlinear_arith)
                requires
                    0 <= hx <= nqx + 1,
                    0 <= hy <= nqy + 1,
            ;
            assert(hx * hy >= 0) by (nonlinear_arith)
                requires
                    hx >= 0,
                    hy >= 0,
            ;
            lemma_nybbles_are_codes(input.rest(), (hx * hy) as nat);
        }
        return input.input_nnybble(hx * hy);
    }
    if kind != 15 {
        return Err(Error::CompressionError("qtree_decode: bad format code".to_owned()));
    }
    let v: u8 = match input.input_huffman() {
        Ok(v) => v,
        Err(e) => return Err(e),
    };
    let longest: usize = if nqx < nqy {
        nqy
    } else {
        nqx
    };
    let top: u64 = ht::power_above_of(longest);
    let first: Vec<u8> = vec![v];
    proof {
        assert(first@ =~= seq![v]);
        ht::lemma_cells(nqx as int, 2);
        ht::lemma_cells(nqy as int, 2);
        if top == 1 && nqx > 0 && nqy > 0 {
            assert(ht::half_up(1) * ht::half_up(1) == 1);
        }
    }
    expand_codes(input, first, nqx, nqy, top)
}

/// Decode the bit planes of one quadrant.
fn qtree_decode(input: &mut HcInput<'_>, nqx: usize, nqy: usize, planes: u32) -> (r: Result<Vec<u64>>)
    requires
        (nqx + 1) * (nqy + 1) <= usize::MAX,
        nqx <= 0x8000_0000,
        nqy <= 0x8000_0000,
        planes <= 64,
    ensures
        match r {
            Ok(v) => quadrant(old(input).rest(), nqx as int, nqy as int, planes as nat) == Some(
                (values(v@), final(input).rest()),
            ) && v@.len() == nqx * nqy && forall|p: int|
                0 <= p < v@.len() ==> #[trigger] v@[p] < power2::pow2(planes as nat),
            Err(e) => e@ == quadrant_fault(
                old(input).rest(),
                nqx as int,
                nqy as int,
                planes as nat,
            ) && quadrant(old(input).rest(), nqx as int, nqy as int, planes as nat) is None,
        },
{
    proof {
        assert(0 <= nqx * nqy <= (nqx + 1) * (nqy + 1)) by (nonlinear_arith)
            requires
                nqx >= 0,
                nqy >= 0,
        ;
    }
    let n: usize = nqx * nqy;
    let mut acc: Vec<u64> = Vec::new();
    while acc.len() < n
        invariant
            acc@.len() <= n,
            forall|p: int| 0 <= p < acc@.len() ==> #[trigger] acc@[p] == 0,
        decreases n - acc@.len(),
    {
        acc.push(0);
    }
    let ghost whole = quadrant(input.rest(), nqx as int, nqy as int, planes as nat);
    let mut left: u32 = planes;
    proof {
        if let Some((low, rest)) = whole {
            lemma_quadrant_len(input.rest(), nqx as int, nqy as int, planes as nat);
            assert(sums(values(acc@), low) =~= low);
        }
    }
    while left > 0
        invariant
            (nqx + 1) * (nqy + 1) <= usize::MAX,
            nqx <= 0x8000_0000,
            nqy <= 0x8000_0000,
            n == nqx * nqy,
            left <= planes <= 64,
            acc@.len() == n,
            forall|p: int|
                0 <= p < n ==> #[trigger] acc@[p] + power2::pow2(left as nat) <= power2::pow2(
                    planes as nat,
                ),
            whole == quadrant(old(input).rest(), nqx as int, nqy as int, planes as nat),
            quadrant_fault(old(input).rest(), nqx as int, nqy as int, planes as nat)
                == quadrant_fault(input.rest(), nqx as int, nqy as int, left as nat),
            whole == match quadrant(input.rest(), nqx as int, nqy as int, left as nat) {
                None => None,
                Some((low, rest)) => Some((sums(values(acc@), low), rest)),
            },
        decreases left,
    {
        let ghost bits0 = input.rest();
        let codes: Vec<u8> = match read_plane(input, nqx, nqy) {
            Ok(v) => v,
            Err(e) => return Err(e),
        };
        let ghost before = acc@;
        left -= 1;
        let unit: u64 = bs::power_of_two(left);
        let ghost added = Seq::new(
            n as nat,
            |p: int|
                unit * code_bit(
                    block_code(codes@, nqy as int, p / nqy as int, p % nqy as int),
                    p / nqy as int,
                    p % nqy as int,
                ),
        );
        proof {
            bs::lemma_pow2_step(left as nat);
            if planes < 64 {
                power2::lemma_pow2_strictly_increases(planes as nat, 64);
            }
            power2::lemma2_to64_rest();
            assert(values(acc@) =~= sums(values(before), Seq::new(n as nat, |p: int| 0int)));
        }
        add_plane(&mut acc, codes.as_slice(), nqx, nqy, unit);
        proof {
            assert forall|p: int| 0 <= p < n implies #[trigger] acc@[p] + power2::pow2(left as nat)
                <= power2::pow2(planes as nat) by {
                ht::lemma_cell_of(p, nqx as int, nqy as int);
                let b = code_bit(
                    block_code(codes@, nqy as int, p / nqy as int, p % nqy as int),
                    p / nqy as int,
                    p % nqy as int,
                );
                assert(unit * b <= unit) by (nonlinear_arith)
                    requires
                        0 <= b <= 1,
                        unit >= 1,
                ;
                assert(before[p] + power2::pow2((left + 1) as nat) <= power2::pow2(planes as nat));
            }
            if let Some((low, rest)) = quadrant(input.rest(), nqx as int, nqy as int, left as nat) {
                lemma_quadrant_len(input.rest(), nqx as int, nqy as int, left as nat);
                let (high, after) = quadrant(bits0, nqx as int, nqy as int, (left + 1) as nat)->0;
                assert(sums(values(before), high) =~= sums(values(acc@), low)) by {
                    assert forall|p: int| 0 <= p < n implies sums(values(before), high)[p] == sums(
                        values(acc@),
                        low,
                    )[p] by {
                        assert(high[p] == low[p] + added[p]);
                        assert(acc@[p] == before[p] + added[p]);
                    }
                }
            }
        }
    }
    proof {
        let zero = Seq::new((nqx * nqy) as nat, |p: int| 0int);
        assert(sums(values(acc@), zero) =~= values(acc@));
        power2::lemma2_to64();
        assert forall|p: int| 0 <= p < acc@.len() implies #[trigger] acc@[p] < power2::pow2(
            planes as nat,
        ) by {
            assert(acc@[p] + power2::pow2(0) <= power2::pow2(planes as nat));
        }
    }
    Ok(acc)
}

/// The numbers of a vector.
pub open spec fn values(v: Seq<u64>) -> Seq<int> {
    Seq::new(v.len(), |p: int| v[p] as int)
}

/// Element-wise sums.
pub open spec fn sums(a: Seq<int>, b: Seq<int>) -> Seq<int> {
    Seq::new(a.len(), |p: int| a[p] + b[p])
}

proof fn lemma_quadrant_len(bits: Seq<bool>, nqx: int, nqy: int, planes: nat)
    ensures
        quadrant(bits, nqx, nqy, planes) matches Some((v, rest)) ==> v.len() == (nqx * nqy) as nat,
    decreases planes,
{
}

/// Insert a bit plane: add `unit` to every cell whose bit is set.
fn add_plane(acc: &mut Vec<u64>, codes: &[u8], nqx: usize, nqy: usize, unit: u64)
    requires
        old(acc)@.len() == nqx * nqy,
        all_codes(codes@),
        nqx > 0 && nqy > 0 ==> codes@.len() == ht::half_up(nqx as int) * ht::half_up(nqy as int),
        forall|p: int| 0 <= p < old(acc)@.len() ==> #[trigger] old(acc)@[p] + unit <= u64::MAX,
    ensures
        final(acc)@.len() == old(acc)@.len(),
        forall|p: int|
            0 <= p < old(acc)@.len() ==> #[trigger] final(acc)@[p] == old(acc)@[p] + unit
                * code_bit(
                block_code(codes@, nqy as int, p / nqy as int, p % nqy as int),
                p / nqy as int,
                p % nqy as int,
            ) && (code_bit(
                block_code(codes@, nqy as int, p / nqy as int, p % nqy as int),
                p / nqy as int,
                p % nqy as int,
            ) == 0 || code_bit(
                block_code(codes@, nqy as int, p / nqy as int, p % nqy as int),
                p / nqy as int,
                p % nqy as int,
            ) == 1),
{
    let n: usize = acc.len();
    let ghost start = acc@;
    let mut p: usize = 0;
    while p < n
        invariant
            p <= n,
            n == nqx * nqy,
            start.len() == n,
            acc@.len() == n,
            all_codes(codes@),
            nqx > 0 && nqy > 0 ==> codes@.len() == ht::half_up(nqx as int) * ht::half_up(nqy as int),
            forall|k: int| 0 <= k < n ==> #[trigger] start[k] + unit <= u64::MAX,
            forall|k: int| p <= k < n ==> acc@[k] == start[k],
            forall|k: int|
                0 <= k < p ==> #[trigger] acc@[k] == start[k] + unit * code_bit(
                    block_code(codes@, nqy as int, k / nqy as int, k % nqy as int),
                    k / nqy as int,
                    k % nqy as int,
                ) && (code_bit(
                    block_code(codes@, nqy as int, k / nqy as int, k % nqy as int),
                    k / nqy as int,
                    k % nqy as int,
                ) == 0 || code_bit(
                    block_code(codes@, nqy as int, k / nqy as int, k % nqy as int),
                    k / nqy as int,
                    k % nqy as int,
                ) == 1),
        decreases n - p,
    {
        proof {
            assert(nqx > 0 && nqy > 0) by (nonlinear_arith)
                requires
                    0 < n,
                    n == nqx * nqy,
                    nqx >= 0,
                    nqy >= 0,
            ;
            ht::lemma_cell_of(p as int, nqx as int, nqy as int);
        }
        let b: u8 = cell_bit(codes, nqx, nqy, p / nqy, p % nqy);
        let old_value: u64 = acc[p];
        assert(start[p as int] + unit <= u64::MAX);
        assert(unit * b == (if b == 1 {
            unit as int
        } else {
            0
        })) by (nonlinear_arith)
            requires
                b <= 1,
        ;
        if b == 1 {
            acc.set(p, old_value + unit);
        }
        p += 1;
    }
}

/// The coefficient array of an `nx` by `ny` tile: four quadrants of bit planes,
/// a zero nybble, and the signs from the next byte boundary on.
pub open spec fn coefficients(
    bits: Seq<bool>,
    nx: int,
    ny: int,
    planes: (nat, nat, nat),
    wide: bool,
) -> Option<Seq<int>> {
    match quadrant(bits, ht::half_up(nx), ht::half_up(ny), planes.0) {
        None => None,
        Some((q1, r1)) => match quadrant(r1, ht::half_up(nx), ny / 2, planes.1) {
            None => None,
            Some((q2, r2)) => match quadrant(r2, nx / 2, ht::half_up(ny), planes.1) {
                None => None,
                Some((q3, r3)) => match quadrant(r3, nx / 2, ny / 2, planes.2) {
                    None => None,
                    Some((q4, r4)) => if r4.len() < 4 || bs::bits_nat(r4.take(4)) != 0 {
                        None
                    } else {
                        let s = r4.skip(4);
                        with_signs(
                            s.skip(s.len() as int % 8),
                            joined(q1, q2, q3, q4, nx, ny),
                            wide,
                        )
                    },
                },
            },
        },
    }
}

/// Why the coefficient array of a tile cannot be read.
pub open spec fn coefficients_fault(
    bits: Seq<bool>,
    nx: int,
    ny: int,
    planes: (nat, nat, nat),
) -> ErrorView {
    match quadrant(bits, ht::half_up(nx), ht::half_up(ny), planes.0) {
        None => quadrant_fault(bits, ht::half_up(nx), ht::half_up(ny), planes.0),
        Some((_, r1)) => match quadrant(r1, ht::half_up(nx), ny / 2, planes.1) {
            None => quadrant_fault(r1, ht::half_up(nx), ny / 2, planes.1),
            Some((_, r2)) => match quadrant(r2, nx / 2, ht::half_up(ny), planes.1) {
                None => quadrant_fault(r2, nx / 2, ht::half_up(ny), planes.1),
                Some((_, r3)) => match quadrant(r3, nx / 2, ny / 2, planes.2) {
                    None => quadrant_fault(r3, nx / 2, ny / 2, planes.2),
                    Some((_, r4)) => if r4.len() >= 4 && bs::bits_nat(r4.take(4)) != 0 {
                        ErrorView::CompressionError(
                            "dodecode: bad bit plane values (missing EOF)"@,
                        )
                    } else {
                        end()
                    },
                },
            },
        },
    }
}

/// A tile whose dimensions can be decoded: not empty, not a single pixel, and
/// small enough to address.
pub open spec fn valid_size(nx: int, ny: int) -> bool {
    &&& nx >= 1
    &&& ny >= 1
    &&& nx > 1 || ny > 1
    &&& nx * ny + 3 <= usize::MAX
}

proof fn lemma_joined_index(p: int, nx: int, ny: int)
    requires
        nx >= 1,
        ny >= 1,
        0 <= p < nx * ny,
    ensures
        ({
            let i = p / ny;
            let j = p % ny;
            let hx = ht::half_up(nx);
            let hy = ht::half_up(ny);
            &&& 0 <= i < nx
            &&& 0 <= j < ny
            &&& i < hx && j < hy ==> 0 <= i * hy <= i * hy + j < hx * hy
            &&& i < hx && j >= hy ==> 0 <= i * (ny / 2) <= i * (ny / 2) + (j - hy) < hx * (ny / 2)
            &&& i >= hx && j < hy ==> 0 <= (i - hx) * hy <= (i - hx) * hy + j < (nx / 2) * hy
            &&& i >= hx && j >= hy ==> 0 <= (i - hx) * (ny / 2) <= (i - hx) * (ny / 2) + (j - hy) < (
            nx / 2) * (ny / 2)
        }),
{
    ht::lemma_cell_of(p, nx, ny);
    let i = p / ny;
    let j = p % ny;
    let hx = ht::half_up(nx);
    let hy = ht::half_up(ny);
    if i < hx && j < hy {
        ht::lemma_position(i, j, hx, hy);
    } else if i < hx {
        ht::lemma_position(i, j - hy, hx, ny / 2);
    } else if j < hy {
        ht::lemma_position(i - hx, j, nx / 2, hy);
    } else {
        ht::lemma_position(i - hx, j - hy, nx / 2, ny / 2);
    }
}

/// All values are below a bound.
pub open spec fn below(v: Seq<u64>, bound: int) -> bool {
    forall|p: int| 0 <= p < v.len() ==> #[trigger] v[p] < bound
}

/// Put four quadrants side by side.
fn join_quadrants(
    q1: &[u64],
    q2: &[u64],
    q3: &[u64],
    q4: &[u64],
    nx: usize,
    ny: usize,
    Ghost(bound): Ghost<int>,
) -> (r: Vec<u64>)
    requires
        nx >= 1,
        ny >= 1,
        nx * ny <= usize::MAX,
        q1@.len() == ht::half_up(nx as int) * ht::half_up(ny as int),
        q2@.len() == ht::half_up(nx as int) * (ny / 2),
        q3@.len() == (nx / 2) * ht::half_up(ny as int),
        q4@.len() == (nx / 2) * (ny / 2),
        below(q1@, bound),
        below(q2@, bound),
        below(q3@, bound),
        below(q4@, bound),
    ensures
        values(r@) == joined(values(q1@), values(q2@), values(q3@), values(q4@), nx as int, ny as int),
        r@.len() == nx * ny,
        below(r@, bound),
{
    let mut out: Vec<u64> = Vec::new();
    let n: usize = nx * ny;
    let hx: usize = nx / 2 + nx % 2;
    let hy: usize = ny / 2 + ny % 2;
    let fy: usize = ny / 2;
    let l1: usize = q1.len();
    let l2: usize = q2.len();
    let l3: usize = q3.len();
    let l4: usize = q4.len();
    let ghost all = joined(
        values(q1@),
        values(q2@),
        values(q3@),
        values(q4@),
        nx as int,
        ny as int,
    );
    while out.len() < n
        invariant
            nx >= 1,
            ny >= 1,
            n == nx * ny,
            hx == ht::half_up(nx as int),
            hy == ht::half_up(ny as int),
            fy == ny / 2,
            l1 == q1@.len(),
            l2 == q2@.len(),
            l3 == q3@.len(),
            l4 == q4@.len(),
            l1 == hx * hy,
            l2 == hx * fy,
            l3 == (nx / 2) * hy,
            l4 == (nx / 2) * fy,
            below(q1@, bound),
            below(q2@, bound),
            below(q3@, bound),
            below(q4@, bound),
            all == joined(
                values(q1@),
                values(q2@),
                values(q3@),
                values(q4@),
                nx as int,
                ny as int,
            ),
            out@.len() <= n,
            below(out@, bound),
            forall|k: int| 0 <= k < out@.len() ==> #[trigger] out@[k] == all[k],
        decreases n - out@.len(),
    {
        let p: usize = out.len();
        proof {
            lemma_joined_index(p as int, nx as int, ny as int);
        }
        let i: usize = p / ny;
        let j: usize = p % ny;
        let v: u64 = if i < hx {
            if j < hy {
                q1[i * hy + j]
            } else {
                q2[i * fy + (j - hy)]
            }
        } else {
            if j < hy {
                q3[(i - hx) * hy + j]
            } else {
                q4[(i - hx) * fy + (j - hy)]
            }
        };
        assert(v == all[p as int]);
        out.push(v);
    }
    assert(values(out@) =~= all);
    out
}

/// Give the non-zero magnitudes their signs.
fn apply_signs(input: &mut HcInput<'_>, mags: &[u64], wide: bool) -> (r: Result<Vec<i64>>)
    requires
        below(mags@, ht::modulus(wide)),
    ensures
        match r {
            Ok(v) => with_signs(old(input).rest(), values(mags@), wide) == Some(ht::ints(v@))
                && v@.len() == mags@.len() && ht::all_fit(v@, wide),
            Err(e) => e@ == end() && with_signs(old(input).rest(), values(mags@), wide)
                is None,
        },
{
    let ghost all = values(mags@);
    let ghost whole = with_signs(input.rest(), all, wide);
    let mut out: Vec<i64> = Vec::new();
    let mut i: usize = 0;
    proof {
        assert(all.skip(0) =~= all);
        if let Some(t) = whole {
            assert(ht::ints(out@) + t =~= t);
        }
    }
    while i < mags.len()
        invariant
            i <= mags@.len(),
            all == values(mags@),
            below(mags@, ht::modulus(wide)),
            out@.len() == i,
            ht::all_fit(out@, wide),
            whole == with_signs(old(input).rest(), all, wide),
            whole == match with_signs(input.rest(), all.skip(i as int), wide) {
                None => None,
                Some(t) => Some(ht::ints(out@) + t),
            },
        decreases mags@.len() - i,
    {
        let ghost rest = all.skip(i as int);
        let ghost before = ht::ints(out@);
        let m: u64 = mags[i];
        let ghost bits0 = input.rest();
        let mut v: i64 = 0;
        proof {
            assert(rest[0] == m);
            assert(rest.skip(1) =~= all.skip(i + 1));
            ht::lemma_wrap_fits(m as int, wide);
            ht::lemma_wrap_fits(0, wide);
            ht::lemma_wrap_fits(-ht::wrap(m as int, wide), wide);
        }
        if m != 0 {
            let negative: bool = match input.input_bit() {
                Ok(b) => b,
                Err(e) => return Err(e),
            };
            v =
            if wide {
                casts::i64_of_u64(m)
            } else {
                casts::i32_of_i64(m as i64) as i64
            };
            if negative {
                v = ht::wrapping_sub(0, v, wide);
            }
        }
        out.push(v);
        i += 1;
        proof {
            assert(ht::ints(out@) =~= before.push(v as int));
            if let Some(t) = with_signs(input.rest(), rest.skip(1), wide) {
                assert(before + (seq![v as int] + t) =~= ht::ints(out@) + t);
            }
        }
    }
    proof {
        assert(all.skip(i as int) =~= Seq::empty());
        assert(ht::ints(out@) + Seq::<int>::empty() =~= ht::ints(out@));
    }
    Ok(out)
}

proof fn lemma_quadrant_sizes(nx: int, ny: int)
    requires
        valid_size(nx, ny),
        nx < 0x8000_0000,
        ny < 0x8000_0000,
    ensures
        (ht::half_up(nx) + 1) * (ht::half_up(ny) + 1) <= usize::MAX,
        (ht::half_up(nx) + 1) * (ny / 2 + 1) <= usize::MAX,
        (nx / 2 + 1) * (ht::half_up(ny) + 1) <= usize::MAX,
        (nx / 2 + 1) * (ny / 2 + 1) <= usize::MAX,
{
    let a = ht::half_up(nx) + 1;
    let b = ht::half_up(ny) + 1;
    assert((2 * a) * (2 * b) <= (nx + 3) * (ny + 3)) by (nonlinear_arith)
        requires
            0 <= 2 * a <= nx + 3,
            0 <= 2 * b <= ny + 3,
    ;
    assert((nx + 3) * (ny + 3) == nx * ny + 3 * nx + 3 * ny + 9) by (nonlinear_arith);
    assert(nx + ny <= nx * ny + 1) by (nonlinear_arith)
        requires
            nx >= 1,
            ny >= 1,
    ;
    assert((2 * a) * (2 * b) == 4 * (a * b)) by (nonlinear_arith);
    let c = nx / 2 + 1;
    let d = ny / 2 + 1;
    assert(a * d <= a * b && c * b <= a * b && c * d <= a * b) by (nonlinear_arith)
        requires
            0 <= c <= a,
            0 <= d <= b,
    ;
}

/// Decode the four quadrants and the signs into the coefficient array.
fn dodecode(
    input: &mut HcInput<'_>,
    nx: usize,
    ny: usize,
    n1: u32,
    n2: u32,
    n3: u32,
    wide: bool,
) -> (r: Result<Vec<i64>>)
    requires
        valid_size(nx as int, ny as int),
        nx < 0x8000_0000,
        ny < 0x8000_0000,
        n1 <= 32 || wide && n1 <= 64,
        n2 <= 32 || wide && n2 <= 64,
        n3 <= 32 || wide && n3 <= 64,
    ensures
        match r {
            Ok(v) => coefficients(
                old(input).rest(),
                nx as int,
                ny as int,
                (n1 as nat, n2 as nat, n3 as nat),
                wide,
            ) == Some(ht::ints(v@)) && v@.len() == nx * ny && ht::all_fit(v@, wide),
            Err(e) => e@ == coefficients_fault(
                old(input).rest(),
                nx as int,
                ny as int,
                (n1 as nat, n2 as nat, n3 as nat),
            ) && coefficients(
                old(input).rest(),
                nx as int,
                ny as int,
                (n1 as nat, n2 as nat, n3 as nat),
                wide,
            ) is None,
        },
{
    let hx: usize = nx / 2 + nx % 2;
    let hy: usize = ny / 2 + ny % 2;
    let ghost bound = ht::modulus(wide);
    proof {
        lemma_quadrant_sizes(nx as int, ny as int);
        lemma_plane_bound(n1 as nat, wide);
        lemma_plane_bound(n2 as nat, wide);
        lemma_plane_bound(n3 as nat, wide);
    }
    let q1: Vec<u64> = match qtree_decode(input, hx, hy, n1) {
        Ok(v) => v,
        Err(e) => return Err(e),
    };
    let q2: Vec<u64> = match qtree_decode(input, hx, ny / 2, n2) {
        Ok(v) => v,
        Err(e) => return Err(e),
    };
    let q3: Vec<u64> = match qtree_decode(input, nx / 2, hy, n2) {
        Ok(v) => v,
        Err(e) => return Err(e),
    };
    let q4: Vec<u64> = match qtree_decode(input, nx / 2, ny / 2, n3) {
        Ok(v) => v,
        Err(e) => return Err(e),
    };
    let end: u32 = match input.input_nybble() {
        Ok(v) => v,
        Err(e) => return Err(e),
    };
    if end != 0 {
        return Err(
            Error::CompressionError("dodecode: bad bit plane values (missing EOF)".to_owned()),
        );
    }
    input.start_inputing_bits();
    let mags: Vec<u64> = join_quadrants(
        q1.as_slice(),
        q2.as_slice(),
        q3.as_slice(),
        q4.as_slice(),
        nx,
        ny,
        Ghost(bound),
    );
    apply_signs(input, mags.as_slice(), wide)
}

proof fn lemma_plane_bound(n: nat, wide: bool)
    requires
        n <= 32 || wide && n <= 64,
    ensures
        power2::pow2(n) <= ht::modulus(wide),
{
    power2::lemma2_to64();
    power2::lemma2_to64_rest();
    if n < 32 {
        power2::lemma_pow2_strictly_increases(n, 32);
    } else if n < 64 {
        power2::lemma_pow2_strictly_increases(n, 64);
    }
}

/// The number of `n` bits from `start` on.
pub open spec fn field(bits: Seq<bool>, start: int, n: int) -> int {
    bs::bits_nat(bits.subrange(start, start + n)) as int
}

/// A 32-bit field as a signed number.
pub open spec fn signed_field(bits: Seq<bool>, start: int) -> int {
    casts::signed_residue(field(bits, start, 32), 0x1_0000_0000)
}

/// A plane count that the coefficients can hold.
pub open spec fn planes_fit(n: int, wide: bool) -> bool {
    n <= 32 || wide && n <= 64
}

/// The coefficients of a tile and its dimensions, slow axis first; `None` where
/// the stream is not valid. The header is the magic code, the two dimensions,
/// the scale, the sum of all pixels and three plane counts.
pub open spec fn tile_coefficients(src: Seq<u8>, wide: bool) -> Option<(Seq<int>, int, int)> {
    let bits = bs::byte_bits(src);
    let nx = signed_field(bits, 16);
    let ny = signed_field(bits, 48);
    let n1 = field(bits, 176, 8);
    let n2 = field(bits, 184, 8);
    let n3 = field(bits, 192, 8);
    if bits.len() < 200 || field(bits, 0, 16) != 0xDD99 || !valid_size(nx, ny) || !planes_fit(
        n1,
        wide,
    ) || !planes_fit(n2, wide) || !planes_fit(n3, wide) {
        None
    } else {
        match coefficients(bits.skip(200), nx, ny, (n1 as nat, n2 as nat, n3 as nat), wide) {
            None => None,
            Some(a) => Some((a, nx, ny)),
        }
    }
}

/// The pixels of a tile from its coefficients: the first is replaced by the sum
/// of all pixels, all are multiplied by a scale above one, and transformed back.
pub open spec fn tile_pixels(src: Seq<u8>, a: Seq<int>, nx: int, ny: int, wide: bool) -> Seq<int> {
    let bits = bs::byte_bits(src);
    let scale = signed_field(bits, 80);
    let sum = casts::signed_residue(field(bits, 112, 64), 0x1_0000_0000_0000_0000);
    let b = a.update(0, ht::wrap(sum, wide));
    ht::inverse(scaled(b, scale, wide), nx, ny, wide)
}

/// Coefficients times the digitization scale, where it is above one.
pub open spec fn scaled(a: Seq<int>, scale: int, wide: bool) -> Seq<int> {
    if scale <= 1 {
        a
    } else {
        Seq::new(a.len(), |p: int| ht::wrap(a[p] * scale, wide))
    }
}

/// Multiply every coefficient by the digitization scale.
fn undigitize(a: Vec<i64>, scale: i32, wide: bool) -> (r: Vec<i64>)
    requires
        ht::all_fit(a@, wide),
    ensures
        ht::ints(r@) == scaled(ht::ints(a@), scale as int, wide),
        r@.len() == a@.len(),
        ht::all_fit(r@, wide),
{
    if scale <= 1 {
        return a;
    }
    let mut out: Vec<i64> = Vec::new();
    let mut i: usize = 0;
    let ghost all = scaled(ht::ints(a@), scale as int, wide);
    while i < a.len()
        invariant
            i <= a@.len(),
            scale > 1,
            ht::all_fit(a@, wide),
            all == scaled(ht::ints(a@), scale as int, wide),
            out@.len() == i,
            ht::all_fit(out@, wide),
            forall|k: int| 0 <= k < i ==> #[trigger] out@[k] == all[k],
        decreases a@.len() - i,
    {
        let v: i64 = ht::wrapping_mul(a[i], scale as i64, wide);
        out.push(v);
        i += 1;
    }
    assert(ht::ints(out@) =~= all);
    out
}

/// Read three plane counts.
fn read_planes(input: &mut HcInput<'_>) -> (r: Result<(u32, u32, u32)>)
    ensures
        match r {
            Ok((n1, n2, n3)) => old(input).rest().len() >= 24 && n1 == field(
                old(input).rest(),
                0,
                8,
            ) && n2 == field(old(input).rest(), 8, 8) && n3 == field(old(input).rest(), 16, 8)
                && final(input).rest() == old(input).rest().skip(24),
            Err(e) => e@ == header_end() && old(input).rest().len() < 24,
        },
{
    let ghost start = input.rest();
    let n1: u32 = match input.read_field(8) {
        Ok(v) => v,
        Err(e) => return Err(e),
    };
    let n2: u32 = match input.read_field(8) {
        Ok(v) => v,
        Err(e) => return Err(e),
    };
    let n3: u32 = match input.read_field(8) {
        Ok(v) => v,
        Err(e) => return Err(e),
    };
    proof {
        assert(start.take(8) =~= start.subrange(0, 8));
        assert(start.skip(8).take(8) =~= start.subrange(8, 16));
        assert(start.skip(8).skip(8) =~= start.skip(16));
        assert(start.skip(16).take(8) =~= start.subrange(16, 24));
        assert(start.skip(16).skip(8) =~= start.skip(24));
    }
    Ok((n1, n2, n3))
}

/// Why a stream is not that of a tile. The header is read before the planes; a header whose
/// dimensions or plane counts cannot be decoded is not valid.
pub open spec fn tile_fault(src: Seq<u8>, wide: bool) -> ErrorView {
    let bits = bs::byte_bits(src);
    let nx = signed_field(bits, 16);
    let ny = signed_field(bits, 48);
    let n1 = field(bits, 176, 8);
    let n2 = field(bits, 184, 8);
    let n3 = field(bits, 192, 8);
    if bits.len() < 16 {
        header_end()
    } else if field(bits, 0, 16) != 0xDD99 {
        ErrorView::CompressionError("HCOMPRESS: bad magic code"@)
    } else if bits.len() < 112 {
        header_end()
    } else if casts::size_of(nx) * casts::size_of(ny) > usize::MAX {
        ErrorView::CompressionError("HCOMPRESS: dimension overflow"@)
    } else if bits.len() < 200 {
        header_end()
    } else if !valid_size(nx, ny) || !planes_fit(n1, wide) || !planes_fit(n2, wide) || !planes_fit(
        n3,
        wide,
    ) {
        ErrorView::CompressionError("HCOMPRESS: invalid tile header"@)
    } else {
        coefficients_fault(bits.skip(200), nx, ny, (n1 as nat, n2 as nat, n3 as nat))
    }
}

fn bad_stream() -> (r: Error)
    ensures
        r@ == ErrorView::CompressionError("HCOMPRESS: invalid tile header"@),
{
    Error::CompressionError("HCOMPRESS: invalid tile header".to_owned())
}

/// The error for a tile that is to be smoothed.
pub open spec fn unsmoothed() -> ErrorView {
    ErrorView::UnsupportedCompression("HCOMPRESS_1 SMOOTH != 0 is not supported"@)
}

/// Full HCOMPRESS decode. Returns the pixel array (axis-1 fastest) along with
/// `(nx_slow, ny_fast)`.
pub fn hdecode(src: &[u8], wide: bool, smooth: i32) -> (r: Result<(Vec<i64>, usize, usize)>)
    ensures
        match (r, tile_coefficients(src@, wide)) {
            (Ok((v, nx, ny)), Some((a, nx2, ny2))) => smooth == 0 && nx == nx2 && ny == ny2
                && ht::ints(v@) == tile_pixels(src@, a, nx2, ny2, wide) && v@.len() == nx * ny,
            (Err(e), Some(_)) => smooth != 0 && e@ == unsmoothed(),
            (Err(e), None) => e@ == tile_fault(src@, wide),
            _ => false,
        },
{
    let mut input = HcInput::new(src);
    let ghost bits = bs::byte_bits(src@);
    let magic: u32 = match input.read_field(16) {
        Ok(v) => v,
        Err(e) => return Err(e),
    };
    assert(bits.take(16) =~= bits.subrange(0, 16));
    if magic != 0xDD99 {
        return Err(Error::CompressionError("HCOMPRESS: bad magic code".to_owned()));
    }
    let nxi: i32 = match input.readint() {
        Ok(v) => v,
        Err(e) => return Err(e),
    };
    let nyi: i32 = match input.readint() {
        Ok(v) => v,
        Err(e) => return Err(e),
    };
    let scale: i32 = match input.readint() {
        Ok(v) => v,
        Err(e) => return Err(e),
    };
    proof {
        assert(bits.skip(16).take(32) =~= bits.subrange(16, 48));
        assert(bits.skip(16).skip(32) =~= bits.skip(48));
        assert(bits.skip(48).take(32) =~= bits.subrange(48, 80));
        assert(bits.skip(48).skip(32) =~= bits.skip(80));
        assert(bits.skip(80).take(32) =~= bits.subrange(80, 112));
        assert(bits.skip(80).skip(32) =~= bits.skip(112));
    }
    let nx: usize = casts::usize_of_i64(nxi as i64);
    let ny: usize = casts::usize_of_i64(nyi as i64);
    let n: usize = match nx.checked_mul(ny) {
        Some(n) => n,
        None => {
            return Err(Error::CompressionError("HCOMPRESS: dimension overflow".to_owned()));
        },
    };
    let sumall: i64 = match input.readlonglong() {
        Ok(v) => v,
        Err(e) => return Err(e),
    };
    let ghost before_planes = input.rest();
    proof {
        assert(bits.skip(112).take(64) =~= bits.subrange(112, 176));
        assert(bits.skip(112).skip(64) =~= bits.skip(176));
    }
    let (n1, n2, n3) = match read_planes(&mut input) {
        Ok(v) => v,
        Err(e) => return Err(e),
    };
    proof {
        assert(before_planes.subrange(0, 8) =~= bits.subrange(176, 184));
        assert(before_planes.subrange(8, 16) =~= bits.subrange(184, 192));
        assert(before_planes.subrange(16, 24) =~= bits.subrange(192, 200));
        assert(before_planes.skip(24) =~= bits.skip(200));
    }
    if nxi < 1 || nyi < 1 || (nxi == 1 && nyi == 1) {
        return Err(bad_stream());
    }
    if n > usize::MAX - 3 {
        return Err(bad_stream());
    }
    let limit: u32 = if wide {
        64
    } else {
        32
    };
    if n1 > limit || n2 > limit || n3 > limit {
        return Err(bad_stream());
    }
    let mut a: Vec<i64> = match dodecode(&mut input, nx, ny, n1, n2, n3, wide) {
        Ok(v) => v,
        Err(e) => return Err(e),
    };
    if smooth != 0 {
        return Err(
            Error::UnsupportedCompression("HCOMPRESS_1 SMOOTH != 0 is not supported".to_owned()),
        );
    }
    let first: i64 = if wide {
        sumall
    } else {
        casts::i32_of_i64(sumall) as i64
    };
    let ghost coefs = ht::ints(a@);
    proof {
        ht::lemma_wrap_fits(sumall as int, wide);
        assert(a@.len() >= 1) by (nonlinear_arith)
            requires
                a@.len() == nx * ny,
                nx >= 1,
                ny >= 1,
        ;
    }
    a.set(0, first);
    assert(ht::ints(a@) =~= coefs.update(0, ht::wrap(sumall as int, wide)));
    let b: Vec<i64> = undigitize(a, scale, wide);
    let v: Vec<i64> = ht::hinv(b, nx, ny, wide);
    Ok((v, nx, ny))
}

/// Decompress one HCOMPRESS_1 tile.
///
/// `wide` selects the 64-bit transform (used for ZBITPIX 32 and quantized
/// -32/-64 floats; the 32-bit transform is for ZBITPIX 8/16). Returns the decoded
/// integer samples (axis-1 fastest) and the `(nx_slow, ny_fast)` dimensions read
/// from the stream. A stream that declares no pixels, a single pixel, or more bit
/// planes than the samples have bits is not valid.
pub fn hcompress_decompress(src: &[u8], wide: bool, smooth: i32) -> (r: Result<
    (Vec<i64>, usize, usize),
>)
    ensures
        match (r, tile_coefficients(src@, wide)) {
            (Ok((v, nx, ny)), Some((a, nx2, ny2))) => smooth == 0 && nx == nx2 && ny == ny2
                && ht::ints(v@) == tile_pixels(src@, a, nx2, ny2, wide) && v@.len() == nx * ny,
            (Err(e), Some(_)) => smooth != 0 && e@ == unsmoothed(),
            (Err(e), None) => e@ == tile_fault(src@, wide),
            _ => false,
        },
{
    hdecode(src, wide, smooth)
}

} // verus!
