//! Writing an image as an HCOMPRESS stream, and that decoding gives the image back.
use crate::bitstream as bs;
use crate::casts;
use crate::hcompress as hc;
use crate::hforward;
use crate::htransform as ht;
use crate::tile_compress;
use crate::tile_compress::CompressedView;
use vstd::arithmetic::div_mod::*;
use vstd::arithmetic::power2;
use vstd::prelude::*;

verus! {

/// The Huffman code of a four-bit number, and its length in bits.
pub open spec fn huffman_code(v: u8) -> (nat, nat) {
    match v {
        0 => (0b111110, 6),
        1 => (0b000, 3),
        2 => (0b001, 3),
        3 => (0b1000, 4),
        4 => (0b010, 3),
        5 => (0b1001, 4),
        6 => (0b11010, 5),
        7 => (0b11011, 5),
        8 => (0b011, 3),
        9 => (0b11100, 5),
        10 => (0b1010, 4),
        11 => (0b11101, 5),
        12 => (0b1011, 4),
        13 => (0b11110, 5),
        14 => (0b111111, 6),
        _ => (0b1100, 4),
    }
}

/// The bits of the Huffman code of a four-bit number.
pub open spec fn huffman_bits(v: u8) -> Seq<bool> {
    bs::nat_bits(huffman_code(v).0, huffman_code(v).1)
}

/// Numbers of four bits.
pub open spec fn four_bits(codes: Seq<u8>) -> bool {
    forall|k: int| 0 <= k < codes.len() ==> #[trigger] codes[k] < 16
}

/// Numbers of four bits, one behind the other.
pub open spec fn nybble_bits(codes: Seq<u8>) -> Seq<bool>
    decreases codes.len(),
{
    if codes.len() == 0 {
        Seq::empty()
    } else {
        nybble_bits(codes.drop_last()) + bs::nat_bits(codes.last() as nat, 4)
    }
}

/// The Huffman codes of those numbers of a grid that are not zero, the last first.
pub open spec fn grid_bits(codes: Seq<u8>) -> Seq<bool>
    decreases codes.len(),
{
    if codes.len() == 0 {
        Seq::empty()
    } else if codes.last() == 0 {
        grid_bits(codes.drop_last())
    } else {
        huffman_bits(codes.last()) + grid_bits(codes.drop_last())
    }
}

/// One where a number of a grid is not zero.
pub open spec fn marks(codes: Seq<u8>) -> Seq<u8> {
    Seq::new(
        codes.len(),
        |k: int|
            if codes[k] != 0 {
                1
            } else {
                0
            },
    )
}

/// Four flags as a number: those of the upper row of a 2x2 block, then those of the lower row.
pub open spec fn flags(a: bool, b: bool, c: bool, d: bool) -> u8 {
    ((if a {
        8int
    } else {
        0
    }) + (if b {
        4int
    } else {
        0
    }) + (if c {
        2int
    } else {
        0
    }) + (if d {
        1int
    } else {
        0
    })) as u8
}

/// Whether the number at row `i` and column `j` of a grid is not zero. Beyond its edge all are.
pub open spec fn marked(codes: Seq<u8>, nx: int, ny: int, i: int, j: int) -> bool {
    i < nx && j < ny && codes[i * ny + j] != 0
}

/// The grid whose numbers say where those of an `nx` by `ny` grid are not zero, block by block.
pub open spec fn coarser(codes: Seq<u8>, nx: int, ny: int) -> Seq<u8> {
    let w = ht::half_up(ny);
    Seq::new(
        (ht::half_up(nx) * w) as nat,
        |k: int|
            flags(
                marked(codes, nx, ny, 2 * (k / w), 2 * (k % w)),
                marked(codes, nx, ny, 2 * (k / w), 2 * (k % w) + 1),
                marked(codes, nx, ny, 2 * (k / w) + 1, 2 * (k % w)),
                marked(codes, nx, ny, 2 * (k / w) + 1, 2 * (k % w) + 1),
            ),
    )
}

/// The grid with cells of width `c` of the quadtree over the codes of a bit plane.
pub open spec fn grid_at(codes: Seq<u8>, nqx: int, nqy: int, c: int) -> Seq<u8>
    decreases c,
{
    if c < 4 {
        codes
    } else {
        coarser(
            grid_at(codes, nqx, nqy, c / 2),
            ht::cells(nqx, c / 2),
            ht::cells(nqy, c / 2),
        )
    }
}

/// The grids below that with cells of width `c`, the coarsest first.
pub open spec fn tree_bits(codes: Seq<u8>, nqx: int, nqy: int, c: int) -> Seq<bool>
    decreases c,
{
    if c < 4 {
        Seq::empty()
    } else {
        grid_bits(grid_at(codes, nqx, nqy, c / 2)) + tree_bits(codes, nqx, nqy, c / 2)
    }
}

/// The codes of a bit plane: as they are, or as a quadtree.
pub open spec fn plane_bits(codes: Seq<u8>, nqx: int, nqy: int, tree: bool) -> Seq<bool> {
    if tree && nqx > 0 && nqy > 0 {
        let top = ht::power_above(hc::longer(nqx, nqy), 1);
        bs::nat_bits(15, 4) + (huffman_bits(grid_at(codes, nqx, nqy, top)[0]) + tree_bits(
            codes,
            nqx,
            nqy,
            top,
        ))
    } else {
        bs::nat_bits(0, 4) + nybble_bits(codes)
    }
}

/// Whether the value at row `i` and column `j` of a quadrant has a bit. Beyond its edge none has.
pub open spec fn has_bit(q: Seq<int>, nqx: int, nqy: int, b: nat, i: int, j: int) -> bool {
    i < nqx && j < nqy && q[i * nqy + j] / power2::pow2(b) as int % 2 == 1
}

/// A bit plane of a quadrant: the bits of each 2x2 block as a number.
pub open spec fn plane_of(q: Seq<int>, nqx: int, nqy: int, b: nat) -> Seq<u8> {
    let w = ht::half_up(nqy);
    Seq::new(
        (ht::half_up(nqx) * w) as nat,
        |k: int|
            flags(
                has_bit(q, nqx, nqy, b, 2 * (k / w), 2 * (k % w)),
                has_bit(q, nqx, nqy, b, 2 * (k / w), 2 * (k % w) + 1),
                has_bit(q, nqx, nqy, b, 2 * (k / w) + 1, 2 * (k % w)),
                has_bit(q, nqx, nqy, b, 2 * (k / w) + 1, 2 * (k % w) + 1),
            ),
    )
}

/// The lowest bit planes of a quadrant, the highest first; `trees` says which are written as
/// quadtrees.
pub open spec fn quadrant_bits(
    q: Seq<int>,
    nqx: int,
    nqy: int,
    planes: nat,
    trees: Seq<bool>,
) -> Seq<bool>
    decreases planes,
{
    if planes == 0 {
        Seq::empty()
    } else {
        let b = (planes - 1) as nat;
        plane_bits(plane_of(q, nqx, nqy, b), nqx, nqy, trees[b as int]) + quadrant_bits(
            q,
            nqx,
            nqy,
            b,
            trees,
        )
    }
}

/// The size of a number.
pub open spec fn magnitude(x: int) -> int {
    if x < 0 {
        -x
    } else {
        x
    }
}

/// The sizes of numbers.
pub open spec fn magnitudes(a: Seq<int>) -> Seq<int> {
    Seq::new(a.len(), |k: int| magnitude(a[k]))
}

/// The sizes in the part of an array with `ny` columns that starts at row `i0` and column `j0`
/// and has `h` rows and `w` columns.
pub open spec fn part(a: Seq<int>, ny: int, i0: int, j0: int, h: int, w: int) -> Seq<int> {
    Seq::new((h * w) as nat, |k: int| magnitude(a[(i0 + k / w) * ny + (j0 + k % w)]))
}

/// A bit for each number that is not zero: set where it is negative.
pub open spec fn sign_bits(a: Seq<int>) -> Seq<bool>
    decreases a.len(),
{
    if a.len() == 0 {
        Seq::empty()
    } else if a[0] == 0 {
        sign_bits(a.skip(1))
    } else {
        seq![a[0] < 0] + sign_bits(a.skip(1))
    }
}

/// The bit planes of the four quadrants of a coefficient array, and a zero behind them.
pub open spec fn array_bits(
    a: Seq<int>,
    nx: int,
    ny: int,
    planes: (nat, nat, nat),
    trees: Seq<bool>,
) -> Seq<bool> {
    let hx = ht::half_up(nx);
    let hy = ht::half_up(ny);
    quadrant_bits(part(a, ny, 0, 0, hx, hy), hx, hy, planes.0, trees) + (quadrant_bits(
        part(a, ny, 0, hy, hx, ny / 2),
        hx,
        ny / 2,
        planes.1,
        trees,
    ) + (quadrant_bits(part(a, ny, hx, 0, nx / 2, hy), nx / 2, hy, planes.1, trees) + (
    quadrant_bits(
        part(a, ny, hx, hy, nx / 2, ny / 2),
        nx / 2,
        ny / 2,
        planes.2,
        trees,
    ) + bs::nat_bits(0, 4))))
}

/// The header of a tile: the magic code, the rows, the columns, the scale, the sum of all
/// pixels and three plane counts.
pub open spec fn header_bits(
    nx: int,
    ny: int,
    scale: int,
    sum: int,
    planes: (nat, nat, nat),
) -> Seq<bool> {
    bs::nat_bits(0xDD99, 16) + (bs::nat_bits(nx as nat, 32) + (bs::nat_bits(ny as nat, 32) + (
    bs::nat_bits(scale as nat, 32) + (bs::nat_bits(
        (sum % 0x1_0000_0000_0000_0000) as nat,
        64,
    ) + (bs::nat_bits(planes.0, 8) + (bs::nat_bits(planes.1, 8) + bs::nat_bits(planes.2, 8)))))))
}

/// A prefix of the bits of a number is the bits of its upper part.
proof fn lemma_prefix(v: nat, n: nat, rest: Seq<bool>)
    requires
        n >= 1,
    ensures
        (bs::nat_bits(v, n) + rest).take(n as int) == bs::nat_bits(v, n),
        (bs::nat_bits(v, n) + rest).take(n - 1) == bs::nat_bits(v / 2, (n - 1) as nat),
        (bs::nat_bits(v, n) + rest).skip(n as int) == rest,
        (bs::nat_bits(v, n) + rest).len() == n + rest.len(),
{
    bs::lemma_nat_bits_len(v, n);
    bs::lemma_nat_bits_len(v / 2, (n - 1) as nat);
    let s = bs::nat_bits(v, n) + rest;
    assert(s.take(n as int) =~= bs::nat_bits(v, n));
    assert(bs::nat_bits(v, n) == bs::nat_bits(v / 2, (n - 1) as nat).push(v % 2 == 1));
    assert(s.take(n - 1) =~= bs::nat_bits(v / 2, (n - 1) as nat));
    assert(s.skip(n as int) =~= rest);
}

/// The number that the first bits of a number spell.
proof fn lemma_lead(v: nat, n: nat, k: nat, rest: Seq<bool>)
    requires
        k <= n,
    ensures
        bs::bits_nat((bs::nat_bits(v, n) + rest).take(k as int)) == (v / power2::pow2(
            (n - k) as nat,
        )) % power2::pow2(k),
        (bs::nat_bits(v, n) + rest).skip(n as int) == rest,
        (bs::nat_bits(v, n) + rest).len() == n + rest.len(),
    decreases n - k,
{
    bs::lemma_nat_bits_len(v, n);
    let s = bs::nat_bits(v, n) + rest;
    assert(s.skip(n as int) =~= rest);
    if k == n {
        power2::lemma2_to64();
        assert(v / 1 == v);
        bs::lemma_bits_nat_of_nat_bits(v, n);
        assert(s.take(k as int) =~= bs::nat_bits(v, n));
    } else {
        lemma_prefix(v, n, rest);
        let m = (n - 1) as nat;
        lemma_lead(v / 2, m, k, Seq::empty());
        assert(bs::nat_bits(v / 2, m) + Seq::<bool>::empty() =~= bs::nat_bits(v / 2, m));
        assert(s.take(k as int) =~= s.take(n - 1).take(k as int));
        bs::lemma_pow2_step((m - k) as nat);
        let p = power2::pow2((m - k) as nat) as int;
        lemma_div_denominator(v as int, 2, p);
        assert((v as int / 2) / p == v as int / (2 * p));
    }
}

/// A Huffman code is read as the number that it stands for.
proof fn lemma_huffman(v: u8, rest: Seq<bool>)
    requires
        v < 16,
    ensures
        hc::huffman_at(huffman_bits(v) + rest) == Some((v as nat, rest)),
{
    let (c, n) = huffman_code(v);
    let s = huffman_bits(v) + rest;
    power2::lemma2_to64();
    lemma_lead(c, n, 3, rest);
    if n == 3 {
        assert(bs::bits_nat(s.take(3)) == c / 1 % 8);
        assert(c / 1 % 8 == c);
    } else if n == 4 {
        lemma_lead(c, n, 4, rest);
        assert(bs::bits_nat(s.take(3)) == c / 2 % 8);
        assert(bs::bits_nat(s.take(4)) == c / 1 % 16);
        assert(c / 1 % 16 == c);
    } else if n == 5 {
        lemma_lead(c, n, 4, rest);
        lemma_lead(c, n, 5, rest);
        assert(bs::bits_nat(s.take(3)) == c / 4 % 8);
        assert(bs::bits_nat(s.take(4)) == c / 2 % 16);
        assert(bs::bits_nat(s.take(5)) == c / 1 % 32);
        assert(c / 1 % 32 == c);
    } else {
        lemma_lead(c, n, 4, rest);
        lemma_lead(c, n, 5, rest);
        lemma_lead(c, n, 6, rest);
        assert(bs::bits_nat(s.take(3)) == c / 8 % 8);
        assert(bs::bits_nat(s.take(4)) == c / 4 % 16);
        assert(bs::bits_nat(s.take(5)) == c / 2 % 32);
        assert(bs::bits_nat(s.take(6)) == c / 1 % 64);
        assert(c / 1 % 64 == c);
    }
}

proof fn lemma_nybble_bits(codes: Seq<u8>)
    requires
        four_bits(codes),
    ensures
        nybble_bits(codes).len() == 4 * codes.len(),
        forall|k: int|
            0 <= k < codes.len() ==> bs::bits_nat(
                #[trigger] nybble_bits(codes).subrange(4 * k, 4 * k + 4),
            ) == codes[k],
    decreases codes.len(),
{
    if codes.len() > 0 {
        let front = codes.drop_last();
        let n = front.len() as int;
        assert forall|k: int| 0 <= k < front.len() implies #[trigger] front[k] < 16 by {
            assert(front[k] == codes[k]);
        }
        lemma_nybble_bits(front);
        let all = nybble_bits(codes);
        let last = bs::nat_bits(codes.last() as nat, 4);
        bs::lemma_bits_nat_of_nat_bits(codes.last() as nat, 4);
        power2::lemma2_to64();
        assert(codes[n] < 16);
        assert(all.len() == 4 * codes.len());
        assert forall|k: int| 0 <= k < codes.len() implies bs::bits_nat(
            #[trigger] all.subrange(4 * k, 4 * k + 4),
        ) == codes[k] by {
            if k < n {
                assert(all.subrange(4 * k, 4 * k + 4) =~= nybble_bits(front).subrange(
                    4 * k,
                    4 * k + 4,
                ));
                assert(front[k] == codes[k]);
            } else {
                assert(all.subrange(4 * k, 4 * k + 4) =~= last);
            }
        }
    }
}

/// Codes that are written as they are are read back.
proof fn lemma_nybbles(codes: Seq<u8>, rest: Seq<bool>)
    requires
        four_bits(codes),
    ensures
        hc::nybbles_at(nybble_bits(codes) + rest, codes.len()) == Some((codes, rest)),
{
    lemma_nybble_bits(codes);
    let s = nybble_bits(codes) + rest;
    let n = codes.len() as int;
    assert(s.skip(4 * n) =~= rest);
    let read = Seq::new(codes.len(), |i: int| bs::bits_nat(s.subrange(4 * i, 4 * i + 4)) as u8);
    assert forall|k: int| 0 <= k < n implies read[k] == codes[k] by {
        assert(s.subrange(4 * k, 4 * k + 4) =~= nybble_bits(codes).subrange(4 * k, 4 * k + 4));
    }
    assert(read =~= codes);
}

/// The numbers of a grid are read back where they are marked.
proof fn lemma_grid(codes: Seq<u8>, rest: Seq<bool>)
    requires
        four_bits(codes),
    ensures
        hc::refined(grid_bits(codes) + rest, marks(codes)) == Some((codes, rest)),
    decreases codes.len(),
{
    if codes.len() == 0 {
        assert(grid_bits(codes) + rest =~= rest);
        assert(codes =~= Seq::empty());
    } else {
        let front = codes.drop_last();
        assert forall|k: int| 0 <= k < front.len() implies #[trigger] front[k] < 16 by {
            assert(front[k] == codes[k]);
        }
        assert(marks(codes).drop_last() =~= marks(front));
        assert(codes[codes.len() - 1] < 16);
        lemma_grid(front, rest);
        assert(front.push(codes.last()) =~= codes);
        if codes.last() != 0 {
            lemma_huffman(codes.last(), grid_bits(front) + rest);
            assert(grid_bits(codes) + rest =~= huffman_bits(codes.last()) + (grid_bits(front)
                + rest));
        }
    }
}

/// The flags of a block.
proof fn lemma_flags(a: bool, b: bool, c: bool, d: bool, i: int, j: int)
    ensures
        flags(a, b, c, d) < 16,
        hc::code_bit(flags(a, b, c, d) as int, i, j) == (if if i % 2 == 0 {
            if j % 2 == 0 {
                a
            } else {
                b
            }
        } else {
            if j % 2 == 0 {
                c
            } else {
                d
            }
        } {
            1int
        } else {
            0
        }),
{
}

/// Where the code of the block of a cell stands.
proof fn lemma_block(nx: int, ny: int, i: int, j: int)
    requires
        0 <= i < nx,
        0 <= j < ny,
    ensures
        ({
            let w = ht::half_up(ny);
            let k = i / 2 * w + j / 2;
            &&& 0 <= k < ht::half_up(nx) * w
            &&& k / w == i / 2
            &&& k % w == j / 2
        }),
{
    ht::lemma_position(i / 2, j / 2, ht::half_up(nx), ht::half_up(ny));
}

/// A coarser grid marks the cells of the finer.
proof fn lemma_coarser(codes: Seq<u8>, nx: int, ny: int)
    requires
        nx >= 1,
        ny >= 1,
        codes.len() == nx * ny,
    ensures
        hc::spread(coarser(codes, nx, ny), nx, ny) == marks(codes),
        four_bits(coarser(codes, nx, ny)),
        coarser(codes, nx, ny).len() == ht::half_up(nx) * ht::half_up(ny),
{
    let g = coarser(codes, nx, ny);
    let w = ht::half_up(ny);
    assert(ht::half_up(nx) * w >= 0) by (nonlinear_arith)
        requires
            ht::half_up(nx) >= 0,
            w >= 0,
    ;
    assert forall|k: int| 0 <= k < g.len() implies #[trigger] g[k] < 16 by {
        lemma_flags(
            marked(codes, nx, ny, 2 * (k / w), 2 * (k % w)),
            marked(codes, nx, ny, 2 * (k / w), 2 * (k % w) + 1),
            marked(codes, nx, ny, 2 * (k / w) + 1, 2 * (k % w)),
            marked(codes, nx, ny, 2 * (k / w) + 1, 2 * (k % w) + 1),
            0,
            0,
        );
    }
    let s = hc::spread(g, nx, ny);
    let m = marks(codes);
    assert forall|p: int| 0 <= p < codes.len() implies s[p] == m[p] by {
        ht::lemma_cell_of(p, nx, ny);
        let i = p / ny;
        let j = p % ny;
        lemma_block(nx, ny, i, j);
        let k = i / 2 * w + j / 2;
        lemma_flags(
            marked(codes, nx, ny, 2 * (k / w), 2 * (k % w)),
            marked(codes, nx, ny, 2 * (k / w), 2 * (k % w) + 1),
            marked(codes, nx, ny, 2 * (k / w) + 1, 2 * (k % w)),
            marked(codes, nx, ny, 2 * (k / w) + 1, 2 * (k % w) + 1),
            i,
            j,
        );
        assert(marked(codes, nx, ny, i, j) == (codes[p] != 0));
    }
    assert(s =~= m);
}

/// The grids of a quadtree have a number for each cell.
proof fn lemma_grid_at(codes: Seq<u8>, nqx: int, nqy: int, c: int)
    requires
        nqx >= 1,
        nqy >= 1,
        ht::is_power(c),
        c >= 2,
        codes.len() == ht::half_up(nqx) * ht::half_up(nqy),
        four_bits(codes),
    ensures
        grid_at(codes, nqx, nqy, c).len() == ht::cells(nqx, c) * ht::cells(nqy, c),
        four_bits(grid_at(codes, nqx, nqy, c)),
    decreases c,
{
    ht::lemma_cells(nqx, c);
    ht::lemma_cells(nqy, c);
    if c >= 4 {
        assert(ht::is_power(c / 2));
        lemma_grid_at(codes, nqx, nqy, c / 2);
        ht::lemma_cells(nqx, c / 2);
        ht::lemma_cells(nqy, c / 2);
        lemma_coarser(
            grid_at(codes, nqx, nqy, c / 2),
            ht::cells(nqx, c / 2),
            ht::cells(nqy, c / 2),
        );
    } else {
        assert(c == 2);
    }
}

/// The quadtree below a grid is read back.
proof fn lemma_tree(codes: Seq<u8>, nqx: int, nqy: int, c: int, rest: Seq<bool>)
    requires
        nqx >= 1,
        nqy >= 1,
        ht::is_power(c),
        codes.len() == ht::half_up(nqx) * ht::half_up(nqy),
        four_bits(codes),
    ensures
        hc::expanded(
            tree_bits(codes, nqx, nqy, c) + rest,
            grid_at(codes, nqx, nqy, c),
            nqx,
            nqy,
            c,
        ) == Some((codes, rest)),
    decreases c,
{
    if c < 4 {
        assert(tree_bits(codes, nqx, nqy, c) + rest =~= rest);
    } else {
        let h = c / 2;
        assert(ht::is_power(h));
        lemma_grid_at(codes, nqx, nqy, h);
        ht::lemma_cells(nqx, h);
        ht::lemma_cells(nqy, h);
        let finer = grid_at(codes, nqx, nqy, h);
        lemma_coarser(finer, ht::cells(nqx, h), ht::cells(nqy, h));
        let next = tree_bits(codes, nqx, nqy, h) + rest;
        lemma_grid(finer, next);
        assert(tree_bits(codes, nqx, nqy, c) + rest =~= grid_bits(finer) + next);
        lemma_tree(codes, nqx, nqy, h, rest);
    }
}

/// The format code of a bit plane.
proof fn lemma_format(v: nat, rest: Seq<bool>)
    requires
        v < 16,
    ensures
        ({
            let s = bs::nat_bits(v, 4) + rest;
            &&& s.len() >= 4
            &&& bs::bits_nat(s.take(4)) == v
            &&& s.skip(4) == rest
        }),
{
    power2::lemma2_to64();
    lemma_lead(v, 4, 4, rest);
    assert(v / 1 == v);
}

/// The codes of a bit plane are read back.
proof fn lemma_plane(codes: Seq<u8>, nqx: int, nqy: int, tree: bool, rest: Seq<bool>)
    requires
        nqx >= 0,
        nqy >= 0,
        codes.len() == ht::half_up(nqx) * ht::half_up(nqy),
        four_bits(codes),
    ensures
        hc::plane_codes(plane_bits(codes, nqx, nqy, tree) + rest, nqx, nqy) == Some((codes, rest)),
{
    let s = plane_bits(codes, nqx, nqy, tree) + rest;
    if tree && nqx > 0 && nqy > 0 {
        let n = hc::longer(nqx, nqy);
        let top = ht::power_above(n, 1);
        hforward::lemma_power_above(n, 1);
        let g = grid_at(codes, nqx, nqy, top);
        if top >= 2 {
            lemma_grid_at(codes, nqx, nqy, top);
            ht::lemma_cells(nqx, top);
            ht::lemma_cells(nqy, top);
            assert(ht::cells(nqx, top) == 1 && ht::cells(nqy, top) == 1);
        } else {
            assert(nqx == 1 && nqy == 1);
            assert(ht::half_up(nqx) == 1 && ht::half_up(nqy) == 1);
        }
        assert(g.len() == 1);
        assert(g[0] < 16);
        assert(seq![g[0]] =~= g);
        let below = tree_bits(codes, nqx, nqy, top) + rest;
        let mid = huffman_bits(g[0]) + below;
        assert(s =~= bs::nat_bits(15, 4) + mid);
        lemma_format(15, mid);
        lemma_huffman(g[0], below);
        assert(g[0] as nat as u8 == g[0]);
        lemma_tree(codes, nqx, nqy, top, rest);
    } else {
        let mid = nybble_bits(codes) + rest;
        assert(s =~= bs::nat_bits(0, 4) + mid);
        lemma_format(0, mid);
        lemma_nybbles(codes, rest);
    }
}

/// A bit plane has the bits of its quadrant.
proof fn lemma_plane_of(q: Seq<int>, nqx: int, nqy: int, b: nat)
    requires
        nqx >= 0,
        nqy >= 0,
    ensures
        plane_of(q, nqx, nqy, b).len() == ht::half_up(nqx) * ht::half_up(nqy),
        four_bits(plane_of(q, nqx, nqy, b)),
        forall|p: int|
            0 <= p < nqx * nqy ==> #[trigger] hc::code_bit(
                hc::block_code(plane_of(q, nqx, nqy, b), nqy, p / nqy, p % nqy),
                p / nqy,
                p % nqy,
            ) == q[p] / power2::pow2(b) as int % 2,
{
    let g = plane_of(q, nqx, nqy, b);
    let w = ht::half_up(nqy);
    assert(ht::half_up(nqx) * w >= 0) by (nonlinear_arith)
        requires
            ht::half_up(nqx) >= 0,
            w >= 0,
    ;
    assert forall|k: int| 0 <= k < g.len() implies #[trigger] g[k] < 16 by {
        lemma_flags(
            has_bit(q, nqx, nqy, b, 2 * (k / w), 2 * (k % w)),
            has_bit(q, nqx, nqy, b, 2 * (k / w), 2 * (k % w) + 1),
            has_bit(q, nqx, nqy, b, 2 * (k / w) + 1, 2 * (k % w)),
            has_bit(q, nqx, nqy, b, 2 * (k / w) + 1, 2 * (k % w) + 1),
            0,
            0,
        );
    }
    assert forall|p: int| 0 <= p < nqx * nqy implies #[trigger] hc::code_bit(
        hc::block_code(g, nqy, p / nqy, p % nqy),
        p / nqy,
        p % nqy,
    ) == q[p] / power2::pow2(b) as int % 2 by {
        assert(nqy > 0) by (nonlinear_arith)
            requires
                0 < nqx * nqy,
                nqx >= 0,
                nqy >= 0,
        ;
        ht::lemma_cell_of(p, nqx, nqy);
        let i = p / nqy;
        let j = p % nqy;
        lemma_block(nqx, nqy, i, j);
        let k = i / 2 * w + j / 2;
        lemma_flags(
            has_bit(q, nqx, nqy, b, 2 * (k / w), 2 * (k % w)),
            has_bit(q, nqx, nqy, b, 2 * (k / w), 2 * (k % w) + 1),
            has_bit(q, nqx, nqy, b, 2 * (k / w) + 1, 2 * (k % w)),
            has_bit(q, nqx, nqy, b, 2 * (k / w) + 1, 2 * (k % w) + 1),
            i,
            j,
        );
        assert(has_bit(q, nqx, nqy, b, i, j) == (q[p] / power2::pow2(b) as int % 2 == 1));
    }
}

/// The low bits of numbers.
spec fn low_bits(q: Seq<int>, planes: nat) -> Seq<int> {
    Seq::new(q.len(), |p: int| q[p] % power2::pow2(planes) as int)
}

/// The low bits of the values of a quadrant are read back from its bit planes.
proof fn lemma_quadrant(
    q: Seq<int>,
    nqx: int,
    nqy: int,
    planes: nat,
    trees: Seq<bool>,
    rest: Seq<bool>,
)
    requires
        nqx >= 0,
        nqy >= 0,
        q.len() == nqx * nqy,
    ensures
        hc::quadrant(quadrant_bits(q, nqx, nqy, planes, trees) + rest, nqx, nqy, planes) == Some(
            (low_bits(q, planes), rest),
        ),
    decreases planes,
{
    if planes == 0 {
        power2::lemma2_to64();
        assert(quadrant_bits(q, nqx, nqy, planes, trees) + rest =~= rest);
        assert(low_bits(q, 0) =~= Seq::new((nqx * nqy) as nat, |p: int| 0int));
    } else {
        let b = (planes - 1) as nat;
        let codes = plane_of(q, nqx, nqy, b);
        let next = quadrant_bits(q, nqx, nqy, b, trees) + rest;
        assert(codes.len() == ht::half_up(nqx) * ht::half_up(nqy) && four_bits(codes)) by {
            lemma_plane_of(q, nqx, nqy, b);
        }
        lemma_plane(codes, nqx, nqy, trees[b as int], next);
        lemma_behind(
            plane_bits(codes, nqx, nqy, trees[b as int]),
            quadrant_bits(q, nqx, nqy, b, trees),
            rest,
        );
        lemma_quadrant(q, nqx, nqy, b, trees, rest);
        lemma_one_more(q, nqx, nqy, b);
    }
}

proof fn lemma_behind(a: Seq<bool>, b: Seq<bool>, c: Seq<bool>)
    ensures
        (a + b) + c == a + (b + c),
{
    assert((a + b) + c =~= a + (b + c));
}

/// One more bit plane gives one more bit of each value.
proof fn lemma_one_more(q: Seq<int>, nqx: int, nqy: int, b: nat)
    requires
        nqx >= 0,
        nqy >= 0,
        q.len() == nqx * nqy,
    ensures
        ({
            let codes = plane_of(q, nqx, nqy, b);
            let low = low_bits(q, b);
            Seq::new(
                (nqx * nqy) as nat,
                |p: int|
                    low[p] + power2::pow2(b) * hc::code_bit(
                        hc::block_code(codes, nqy, p / nqy, p % nqy),
                        p / nqy,
                        p % nqy,
                    ),
            ) == low_bits(q, b + 1)
        }),
{
    let codes = plane_of(q, nqx, nqy, b);
    let low = low_bits(q, b);
    let read = Seq::new(
        (nqx * nqy) as nat,
        |p: int|
            low[p] + power2::pow2(b) * hc::code_bit(
                hc::block_code(codes, nqy, p / nqy, p % nqy),
                p / nqy,
                p % nqy,
            ),
    );
    bs::lemma_pow2_step(b);
    lemma_plane_of(q, nqx, nqy, b);
    let m = power2::pow2(b) as int;
    assert forall|p: int| 0 <= p < q.len() implies read[p] == low_bits(q, b + 1)[p] by {
        assert(hc::code_bit(
            hc::block_code(codes, nqy, p / nqy, p % nqy),
            p / nqy,
            p % nqy,
        ) == q[p] / m % 2);
        lemma_mod_breakdown_any(q[p], m);
    }
    assert(read =~= low_bits(q, b + 1));
}

/// A remainder by twice a number, from the remainder by the number and one more bit.
proof fn lemma_mod_breakdown_any(x: int, m: int)
    requires
        m > 0,
    ensures
        x % (2 * m) == x % m + m * (x / m % 2),
{
    lemma_fundamental_div_mod(x, m);
    let k = x / m;
    let r = x % m;
    let h = k / 2;
    let e = k % 2;
    assert(x == (2 * m) * h + (m * e + r)) by (nonlinear_arith)
        requires
            x == m * k + r,
            k == 2 * h + e,
    ;
    assert(0 <= m * e + r < 2 * m) by (nonlinear_arith)
        requires
            0 <= e < 2,
            0 <= r < m,
            m > 0,
    ;
    assert((2 * m) * h == h * (2 * m)) by (nonlinear_arith);
    lemma_fundamental_div_mod_converse(x, 2 * m, h, m * e + r);
}

/// Signs are read back.
proof fn lemma_signs(a: Seq<int>, rest: Seq<bool>, wide: bool)
    requires
        forall|k: int| 0 <= k < a.len() ==> 2 * magnitude(#[trigger] a[k]) < ht::modulus(wide),
    ensures
        hc::with_signs(sign_bits(a) + rest, magnitudes(a), wide) == Some(a),
    decreases a.len(),
{
    if a.len() == 0 {
        assert(a =~= Seq::empty());
    } else {
        let tail = a.skip(1);
        assert forall|k: int| 0 <= k < tail.len() implies 2 * magnitude(#[trigger] tail[k])
            < ht::modulus(wide) by {
            assert(tail[k] == a[k + 1]);
        }
        lemma_signs(tail, rest, wide);
        assert(magnitudes(a).skip(1) =~= magnitudes(tail));
        assert(2 * magnitude(a[0]) < ht::modulus(wide));
        ht::lemma_wrap_fits(magnitude(a[0]), wide);
        ht::lemma_wrap_fits(-magnitude(a[0]), wide);
        assert(seq![a[0]] + tail =~= a);
        if a[0] != 0 {
            let s = sign_bits(a) + rest;
            assert(s[0] == (a[0] < 0));
            assert(s.skip(1) =~= sign_bits(tail) + rest);
        }
    }
}

/// Whether the quadrants of a coefficient array hold no more bits than are written.
pub open spec fn planes_hold(
    a: Seq<int>,
    nx: int,
    ny: int,
    planes: (nat, nat, nat),
) -> bool {
    let hx = ht::half_up(nx);
    let hy = ht::half_up(ny);
    forall|i: int, j: int|
        0 <= i < nx && 0 <= j < ny ==> magnitude(#[trigger] a[i * ny + j]) < power2::pow2(
            if i < hx && j < hy {
                planes.0
            } else if i >= hx && j >= hy {
                planes.2
            } else {
                planes.1
            },
        )
}

/// The values of a part of an array are those of their planes.
proof fn lemma_part(
    a: Seq<int>,
    nx: int,
    ny: int,
    planes: (nat, nat, nat),
    i0: int,
    j0: int,
    h: int,
    w: int,
    n: nat,
)
    requires
        planes_hold(a, nx, ny, planes),
        0 <= i0,
        0 <= j0,
        0 <= h,
        0 <= w,
        i0 + h <= nx,
        j0 + w <= ny,
        i0 == 0 && h == ht::half_up(nx) || i0 == ht::half_up(nx),
        j0 == 0 && w == ht::half_up(ny) || j0 == ht::half_up(ny),
        n == (if i0 == 0 && j0 == 0 {
            planes.0
        } else if i0 > 0 && j0 > 0 {
            planes.2
        } else {
            planes.1
        }),
        nx >= 1,
        ny >= 1,
    ensures
        part(a, ny, i0, j0, h, w).len() == h * w,
        low_bits(part(a, ny, i0, j0, h, w), n) == part(a, ny, i0, j0, h, w),
{
    let q = part(a, ny, i0, j0, h, w);
    assert(h * w >= 0) by (nonlinear_arith)
        requires
            h >= 0,
            w >= 0,
    ;
    assert forall|k: int| 0 <= k < q.len() implies #[trigger] low_bits(q, n)[k] == q[k] by {
        assert(w > 0) by (nonlinear_arith)
            requires
                0 < h * w,
                h >= 0,
                w >= 0,
        ;
        ht::lemma_cell_of(k, h, w);
        let i = i0 + k / w;
        let j = j0 + k % w;
        assert(magnitude(a[i * ny + j]) < power2::pow2(n));
        lemma_small_mod(q[k] as nat, power2::pow2(n));
    }
    assert(low_bits(q, n) =~= q);
}

/// The four quadrants side by side are the sizes of the coefficients.
proof fn lemma_joined(a: Seq<int>, nx: int, ny: int)
    requires
        nx >= 1,
        ny >= 1,
        a.len() == nx * ny,
    ensures
        ({
            let hx = ht::half_up(nx);
            let hy = ht::half_up(ny);
            hc::joined(
                part(a, ny, 0, 0, hx, hy),
                part(a, ny, 0, hy, hx, ny / 2),
                part(a, ny, hx, 0, nx / 2, hy),
                part(a, ny, hx, hy, nx / 2, ny / 2),
                nx,
                ny,
            ) == magnitudes(a)
        }),
{
    let hx = ht::half_up(nx);
    let hy = ht::half_up(ny);
    let r = hc::joined(
        part(a, ny, 0, 0, hx, hy),
        part(a, ny, 0, hy, hx, ny / 2),
        part(a, ny, hx, 0, nx / 2, hy),
        part(a, ny, hx, hy, nx / 2, ny / 2),
        nx,
        ny,
    );
    assert forall|p: int| 0 <= p < a.len() implies r[p] == magnitudes(a)[p] by {
        ht::lemma_cell_of(p, nx, ny);
        let i = p / ny;
        let j = p % ny;
        if i < hx && j < hy {
            ht::lemma_position(i, j, hx, hy);
        } else if i < hx {
            ht::lemma_position(i, j - hy, hx, ny / 2);
        } else if j < hy {
            ht::lemma_position(i - hx, j, nx / 2, hy);
        } else {
            ht::lemma_position(i - hx, j - hy, nx / 2, ny / 2);
        }
    }
    assert(r =~= magnitudes(a));
}

proof fn lemma_joined_bits(
    a: Seq<bool>,
    b: Seq<bool>,
    c: Seq<bool>,
    d: Seq<bool>,
    e: Seq<bool>,
    f: Seq<bool>,
)
    ensures
        (a + (b + (c + (d + e)))) + f == a + (b + (c + (d + (e + f)))),
{
    assert((a + (b + (c + (d + e)))) + f =~= a + (b + (c + (d + (e + f)))));
}

/// A coefficient array that is written as bit planes and signs is read back. The signs start
/// at the next byte; `pad` are the bits up to it, and `tail` those behind the signs.
#[verifier::spinoff_prover]
#[verifier::rlimit(50)]
pub proof fn array_round_trip(
    a: Seq<int>,
    nx: int,
    ny: int,
    planes: (nat, nat, nat),
    trees: Seq<bool>,
    pad: Seq<bool>,
    tail: Seq<bool>,
    wide: bool,
)
    requires
        nx >= 1,
        ny >= 1,
        a.len() == nx * ny,
        planes_hold(a, nx, ny, planes),
        forall|k: int| 0 <= k < a.len() ==> 2 * magnitude(#[trigger] a[k]) < ht::modulus(wide),
        pad.len() < 8,
        (sign_bits(a).len() + tail.len()) % 8 == 0,
    ensures
        hc::coefficients(
            array_bits(a, nx, ny, planes, trees) + (pad + (sign_bits(a) + tail)),
            nx,
            ny,
            planes,
            wide,
        ) == Some(a),
{
    let hx = ht::half_up(nx);
    let hy = ht::half_up(ny);
    let (p1, p2, p3, p4) = (
        part(a, ny, 0, 0, hx, hy),
        part(a, ny, 0, hy, hx, ny / 2),
        part(a, ny, hx, 0, nx / 2, hy),
        part(a, ny, hx, hy, nx / 2, ny / 2),
    );
    lemma_part(a, nx, ny, planes, 0, 0, hx, hy, planes.0);
    lemma_part(a, nx, ny, planes, 0, hy, hx, ny / 2, planes.1);
    lemma_part(a, nx, ny, planes, hx, 0, nx / 2, hy, planes.1);
    lemma_part(a, nx, ny, planes, hx, hy, nx / 2, ny / 2, planes.2);
    let signs = sign_bits(a) + tail;
    let s4 = pad + signs;
    let r4 = bs::nat_bits(0, 4) + s4;
    let r3 = quadrant_bits(p4, nx / 2, ny / 2, planes.2, trees) + r4;
    let r2 = quadrant_bits(p3, nx / 2, hy, planes.1, trees) + r3;
    let r1 = quadrant_bits(p2, hx, ny / 2, planes.1, trees) + r2;
    let bits = array_bits(a, nx, ny, planes, trees) + s4;
    lemma_joined_bits(
        quadrant_bits(p1, hx, hy, planes.0, trees),
        quadrant_bits(p2, hx, ny / 2, planes.1, trees),
        quadrant_bits(p3, nx / 2, hy, planes.1, trees),
        quadrant_bits(p4, nx / 2, ny / 2, planes.2, trees),
        bs::nat_bits(0, 4),
        s4,
    );
    assert(bits == quadrant_bits(p1, hx, hy, planes.0, trees) + r1);
    lemma_quadrant(p1, hx, hy, planes.0, trees, r1);
    lemma_quadrant(p2, hx, ny / 2, planes.1, trees, r2);
    lemma_quadrant(p3, nx / 2, hy, planes.1, trees, r3);
    lemma_quadrant(p4, nx / 2, ny / 2, planes.2, trees, r4);
    lemma_format(0, s4);
    lemma_pad(pad.len() as int, signs.len() as int);
    assert(s4.skip(s4.len() as int % 8) =~= signs);
    lemma_joined(a, nx, ny);
    lemma_signs(a, tail, wide);
}

proof fn lemma_pad(pad: int, n: int)
    requires
        0 <= pad < 8,
        n >= 0,
        n % 8 == 0,
    ensures
        (pad + n) % 8 == pad,
{
}

/// A field of bits between others.
proof fn lemma_field(front: Seq<bool>, v: nat, n: nat, rest: Seq<bool>)
    ensures
        hc::field(front + (bs::nat_bits(v, n) + rest), front.len() as int, n as int) == v
            % power2::pow2(n),
        front + (bs::nat_bits(v, n) + rest) == (front + bs::nat_bits(v, n)) + rest,
        (front + bs::nat_bits(v, n)).len() == front.len() + n,
{
    bs::lemma_bits_nat_of_nat_bits(v, n);
    let s = front + (bs::nat_bits(v, n) + rest);
    let a = front.len() as int;
    assert(s.subrange(a, a + n) =~= bs::nat_bits(v, n));
    assert(s =~= (front + bs::nat_bits(v, n)) + rest);
}

/// The fields of a header are read back.
proof fn lemma_header(
    nx: int,
    ny: int,
    scale: int,
    sum: int,
    planes: (nat, nat, nat),
    rest: Seq<bool>,
)
    requires
        0 <= nx <= i32::MAX,
        0 <= ny <= i32::MAX,
        0 <= scale <= i32::MAX,
        i64::MIN <= sum <= i64::MAX,
        planes.0 < 256,
        planes.1 < 256,
        planes.2 < 256,
    ensures
        ({
            let s = header_bits(nx, ny, scale, sum, planes) + rest;
            &&& s.len() == 200 + rest.len()
            &&& s.skip(200) == rest
            &&& hc::field(s, 0, 16) == 0xDD99
            &&& hc::signed_field(s, 16) == nx
            &&& hc::signed_field(s, 48) == ny
            &&& hc::signed_field(s, 80) == scale
            &&& casts::signed_residue(hc::field(s, 112, 64), 0x1_0000_0000_0000_0000) == sum
            &&& hc::field(s, 176, 8) == planes.0
            &&& hc::field(s, 184, 8) == planes.1
            &&& hc::field(s, 192, 8) == planes.2
        }),
{
    power2::lemma2_to64();
    power2::lemma2_to64_rest();
    let u = (sum % 0x1_0000_0000_0000_0000) as nat;
    let e = Seq::<bool>::empty();
    let f7 = bs::nat_bits(planes.2, 8) + rest;
    let f6 = bs::nat_bits(planes.1, 8) + f7;
    let f5 = bs::nat_bits(planes.0, 8) + f6;
    let f4 = bs::nat_bits(u, 64) + f5;
    let f3 = bs::nat_bits(scale as nat, 32) + f4;
    let f2 = bs::nat_bits(ny as nat, 32) + f3;
    let f1 = bs::nat_bits(nx as nat, 32) + f2;
    let f0 = bs::nat_bits(0xDD99, 16) + f1;
    let s = header_bits(nx, ny, scale, sum, planes) + rest;
    assert(s =~= f0);
    assert(e + f0 =~= f0);
    lemma_field(e, 0xDD99, 16, f1);
    let g0 = e + bs::nat_bits(0xDD99, 16);
    lemma_field(g0, nx as nat, 32, f2);
    let g1 = g0 + bs::nat_bits(nx as nat, 32);
    lemma_field(g1, ny as nat, 32, f3);
    let g2 = g1 + bs::nat_bits(ny as nat, 32);
    lemma_field(g2, scale as nat, 32, f4);
    let g3 = g2 + bs::nat_bits(scale as nat, 32);
    lemma_field(g3, u, 64, f5);
    let g4 = g3 + bs::nat_bits(u, 64);
    lemma_field(g4, planes.0, 8, f6);
    let g5 = g4 + bs::nat_bits(planes.0, 8);
    lemma_field(g5, planes.1, 8, f7);
    let g6 = g5 + bs::nat_bits(planes.1, 8);
    lemma_field(g6, planes.2, 8, rest);
    let g7 = g6 + bs::nat_bits(planes.2, 8);
    assert(s == g7 + rest);
    assert(s.skip(200) =~= rest);
    casts::lemma_signed_residue_small(nx, 0x1_0000_0000);
    casts::lemma_signed_residue_small(ny, 0x1_0000_0000);
    casts::lemma_signed_residue_small(scale, 0x1_0000_0000);
    lemma_signed_again(sum);
}

/// A signed number from its low 64 bits.
proof fn lemma_signed_again(sum: int)
    requires
        i64::MIN <= sum <= i64::MAX,
    ensures
        casts::signed_residue(sum % 0x1_0000_0000_0000_0000, 0x1_0000_0000_0000_0000) == sum,
        0 <= sum % 0x1_0000_0000_0000_0000 < 0x1_0000_0000_0000_0000,
{
    let m = 0x1_0000_0000_0000_0000;
    casts::lemma_signed_residue_small(sum, m);
    lemma_mod_twice(sum, m);
}

/// Whether bytes are an HCOMPRESS stream of an image: a header, the bit planes of the
/// coefficients of the forward H-transform, each divided by the scale, and their signs. The
/// sum of all pixels stands in the header, and counts as zero in the planes.
pub open spec fn writes_tile(
    src: Seq<u8>,
    pixels: Seq<int>,
    nx: int,
    ny: int,
    scale: int,
    a: Seq<int>,
    sum: int,
    planes: (nat, nat, nat),
    trees: Seq<bool>,
    pad: Seq<bool>,
    tail: Seq<bool>,
) -> bool {
    let f = hforward::forward(pixels, nx, ny);
    &&& bs::byte_bits(src) == header_bits(nx, ny, scale, sum, planes) + (array_bits(
        a,
        nx,
        ny,
        planes,
        trees,
    ) + (pad + (sign_bits(a) + tail)))
    &&& a.len() == nx * ny
    &&& sum * scale == f[0]
    &&& forall|k: int| 1 <= k < a.len() ==> #[trigger] a[k] * scale == f[k]
    &&& planes_hold(a, nx, ny, planes)
    &&& pad.len() < 8
    &&& (sign_bits(a).len() + tail.len()) % 8 == 0
}

/// An image that is written as an HCOMPRESS stream is decoded as it was: rows and columns, and
/// every pixel, where the arithmetic of 32 or 64 bits holds the sums of the pixels and no
/// smoothing is asked for. Coefficients that the scale divides lose nothing.
pub proof fn hcompress_round_trip(
    src: Seq<u8>,
    pixels: Seq<int>,
    nx: int,
    ny: int,
    scale: int,
    a: Seq<int>,
    sum: int,
    planes: (nat, nat, nat),
    trees: Seq<bool>,
    pad: Seq<bool>,
    tail: Seq<bool>,
    b: int,
    wide: bool,
)
    requires
        1 <= nx <= i32::MAX,
        1 <= ny <= i32::MAX,
        hc::valid_size(nx, ny),
        1 <= scale <= i32::MAX,
        pixels.len() == nx * ny,
        b >= 0,
        forall|k: int| 0 <= k < pixels.len() ==> -b <= #[trigger] pixels[k] <= b,
        4 * hforward::top_of(nx, ny) * (b + 1) < ht::modulus(wide),
        writes_tile(src, pixels, nx, ny, scale, a, sum, planes, trees, pad, tail),
        planes.0 <= 31 || wide && planes.0 <= 63,
        planes.1 <= 31 || wide && planes.1 <= 63,
        planes.2 <= 31 || wide && planes.2 <= 63,
        ht::fits(sum, wide),
        forall|k: int|
            0 <= k < pixels.len() ==> ht::fits(
                #[trigger] hforward::forward(pixels, nx, ny)[k],
                wide,
            ),
    ensures
        hc::tile_coefficients(src, wide) == Some((a, nx, ny)),
        hc::tile_pixels(src, a, nx, ny, wide) == pixels,
{
    let rest = array_bits(a, nx, ny, planes, trees) + (pad + (sign_bits(a) + tail));
    lemma_header(nx, ny, scale, sum, planes, rest);
    assert forall|k: int| 0 <= k < a.len() implies 2 * magnitude(#[trigger] a[k]) < ht::modulus(
        wide,
    ) by {
        ht::lemma_cell_of(k, nx, ny);
        assert(magnitude(a[(k / ny) * ny + k % ny]) == magnitude(a[k]));
        lemma_plane_bound(planes.0, wide);
        lemma_plane_bound(planes.1, wide);
        lemma_plane_bound(planes.2, wide);
    }
    array_round_trip(a, nx, ny, planes, trees, pad, tail, wide);
    let f = hforward::forward(pixels, nx, ny);
    let c = a.update(0, ht::wrap(sum, wide));
    ht::lemma_wrap_fits(sum, wide);
    assert(nx * ny >= 1) by (nonlinear_arith)
        requires
            nx >= 1,
            ny >= 1,
    ;
    lemma_forward_len(pixels, nx, ny, hforward::top_of(nx, ny) / 2);
    assert forall|k: int| 0 <= k < f.len() implies hc::scaled(c, scale, wide)[k] == f[k] by {
        assert(c[k] * scale == f[k]);
        assert(ht::fits(f[k], wide));
        ht::lemma_wrap_fits(f[k], wide);
        if scale == 1 {
            assert(c[k] * scale == c[k]) by (nonlinear_arith)
                requires
                    scale == 1,
            ;
        }
    }
    assert(hc::scaled(c, scale, wide) =~= f);
    hforward::inverse_undoes_forward(pixels, nx, ny, b, wide);
}

proof fn lemma_plane_bound(n: nat, wide: bool)
    requires
        n <= 31 || wide && n <= 63,
    ensures
        2 * power2::pow2(n) <= ht::modulus(wide),
{
    power2::lemma2_to64();
    power2::lemma2_to64_rest();
    if n < 31 {
        power2::lemma_pow2_strictly_increases(n, 31);
    } else if 31 < n < 63 {
        power2::lemma_pow2_strictly_increases(n, 63);
    }
}

proof fn lemma_forward_len(a: Seq<int>, nx: int, ny: int, p: int)
    ensures
        hforward::forward_levels(a, nx, ny, p).len() == a.len(),
    decreases p,
{
    if p >= 1 {
        lemma_forward_len(a, nx, ny, p / 2);
    }
}

/// A tile that holds an image as an HCOMPRESS stream gives the pixels of the image.
pub proof fn hcompress_tile_round_trip(
    image: CompressedView,
    src: Seq<u8>,
    pixels: Seq<int>,
    nx: int,
    ny: int,
    scale: int,
    a: Seq<int>,
    sum: int,
    planes: (nat, nat, nat),
    trees: Seq<bool>,
    pad: Seq<bool>,
    tail: Seq<bool>,
    b: int,
)
    requires
        image.ctype == tile_compress::CompressionType::Hcompress1,
        image.params.smooth == 0,
        1 <= nx <= i32::MAX,
        1 <= ny <= i32::MAX,
        hc::valid_size(nx, ny),
        1 <= scale <= i32::MAX,
        pixels.len() == nx * ny,
        b >= 0,
        forall|k: int| 0 <= k < pixels.len() ==> -b <= #[trigger] pixels[k] <= b,
        ({
            // Images of 8 and 16 bits are transformed in 32 bits, all others in 64.
            let wide = image.zbitpix != 8 && image.zbitpix != 16;
            &&& 4 * hforward::top_of(nx, ny) * (b + 1) < ht::modulus(wide)
            &&& planes.0 <= 31 || wide && planes.0 <= 63
            &&& planes.1 <= 31 || wide && planes.1 <= 63
            &&& planes.2 <= 31 || wide && planes.2 <= 63
            &&& ht::fits(sum, wide)
            &&& forall|k: int|
                0 <= k < pixels.len() ==> ht::fits(
                    #[trigger] hforward::forward(pixels, nx, ny)[k],
                    wide,
                )
        }),
        writes_tile(src, pixels, nx, ny, scale, a, sum, planes, trees, pad, tail),
    ensures
        tile_compress::stream_samples(image, src, pixels.len()) == Ok::<
            Seq<int>,
            crate::error::ErrorView,
        >(pixels),
{
    let wide = !(image.zbitpix == 8 || image.zbitpix == 16);
    hcompress_round_trip(
        src,
        pixels,
        nx,
        ny,
        scale,
        a,
        sum,
        planes,
        trees,
        pad,
        tail,
        b,
        wide,
    );
    reveal(tile_compress::hcompress_tile);
}

} // verus!
