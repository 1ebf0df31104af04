//! The inverse H-transform, in 32- or 64-bit wrapping arithmetic.
use crate::casts;
use vstd::prelude::*;

verus! {

/// `2^32` or `2^64`: coefficients are determined modulo this.
pub open spec fn modulus(wide: bool) -> int {
    if wide {
        0x1_0000_0000_0000_0000
    } else {
        0x1_0000_0000
    }
}

/// A number in 32- or 64-bit wrapping arithmetic.
pub open spec fn wrap(x: int, wide: bool) -> int {
    casts::signed_residue(x, modulus(wide))
}

/// A number that 32 or 64 bits hold.
pub open spec fn fits(x: int, wide: bool) -> bool {
    -modulus(wide) <= 2 * x < modulus(wide)
}

pub proof fn lemma_wrap_fits(x: int, wide: bool)
    ensures
        fits(wrap(x, wide), wide),
        fits(x, wide) ==> wrap(x, wide) == x,
{
    if fits(x, wide) {
        casts::lemma_signed_residue_small(x, modulus(wide));
    }
}

pub fn wrapping_add(a: i64, b: i64, wide: bool) -> (r: i64)
    requires
        fits(a as int, wide),
        fits(b as int, wide),
    ensures
        r == wrap(a + b, wide),
        fits(r as int, wide),
{
    proof {
        lemma_wrap_fits(a + b, wide);
        casts::lemma_signed_residue_turn(a + b, modulus(wide));
    }
    if wide {
        a.wrapping_add(b)
    } else {
        casts::i32_of_i64(a + b) as i64
    }
}

pub fn wrapping_sub(a: i64, b: i64, wide: bool) -> (r: i64)
    requires
        fits(a as int, wide),
        fits(b as int, wide),
    ensures
        r == wrap(a - b, wide),
        fits(r as int, wide),
{
    proof {
        lemma_wrap_fits(a - b, wide);
        casts::lemma_signed_residue_turn(a - b, modulus(wide));
    }
    if wide {
        a.wrapping_sub(b)
    } else {
        casts::i32_of_i64(a - b) as i64
    }
}

pub fn wrapping_mul(a: i64, b: i64, wide: bool) -> (r: i64)
    requires
        fits(a as int, wide),
        fits(b as int, wide),
    ensures
        r == wrap(a * b, wide),
        fits(r as int, wide),
{
    proof {
        lemma_wrap_fits(a * b, wide);
    }
    if wide {
        a.wrapping_mul(b)
    } else {
        proof {
            assert(-0x4000_0000_0000_0000 <= a * b <= 0x4000_0000_0000_0000) by (nonlinear_arith)
                requires
                    -0x8000_0000 <= a <= 0x8000_0000,
                    -0x8000_0000 <= b <= 0x8000_0000,
            ;
        }
        casts::i32_of_i64(a * b) as i64
    }
}

/// Half of a length, rounded up.
pub open spec fn half_up(n: int) -> int {
    (n + 1) / 2
}

/// How many cells of width `c` cover a length (at least one).
pub open spec fn cells(n: int, c: int) -> int {
    if n <= 0 {
        1
    } else {
        (n + c - 1) / c
    }
}

/// The least power of two that is not below `n` (one for zero).
pub open spec fn power_above(n: int, c: int) -> int
    decreases
            if c < n {
                n - c
            } else {
                0
            },
{
    if c <= 0 || c >= n {
        c
    } else {
        power_above(n, 2 * c)
    }
}

/// Row and column of a position in a grid of `ny` columns.
pub proof fn lemma_cell_of(p: int, nx: int, ny: int)
    requires
        0 <= p < nx * ny,
        ny > 0,
    ensures
        0 <= p / ny < nx,
        0 <= p % ny < ny,
        p == (p / ny) * ny + p % ny,
{
    vstd::arithmetic::div_mod::lemma_fundamental_div_mod(p, ny);
    let q = p / ny;
    assert(ny * q == q * ny) by (nonlinear_arith);
    assert(0 <= q < nx) by (nonlinear_arith)
        requires
            0 <= p < nx * ny,
            p == q * ny + p % ny,
            0 <= p % ny < ny,
    ;
}

/// A row and column have a position in the grid.
pub proof fn lemma_position(i: int, j: int, nx: int, ny: int)
    requires
        0 <= i < nx,
        0 <= j < ny,
    ensures
        0 <= i * ny <= i * ny + j < nx * ny,
        (i * ny + j) / ny == i,
        (i * ny + j) % ny == j,
{
    assert(0 <= i * ny <= i * ny + j < nx * ny) by (nonlinear_arith)
        requires
            0 <= i < nx,
            0 <= j < ny,
    ;
    vstd::arithmetic::div_mod::lemma_fundamental_div_mod_converse(i * ny + j, ny, i, j);
}

pub proof fn lemma_cells(n: int, c: int)
    requires
        n >= 0,
        c >= 2,
        c % 2 == 0,
    ensures
        1 <= cells(n, c) <= n + 1,
        cells(n, c) == half_up(cells(n, c / 2)),
        c == 2 && n > 0 ==> cells(n, c) == half_up(n),
        c >= n ==> cells(n, c) == 1,
{
    if n > 0 {
        let h = c / 2;
        assert(c == 2 * h);
        let a = n + h - 1;
        vstd::arithmetic::div_mod::lemma_fundamental_div_mod(a, h);
        let q = a / h;
        let r = a % h;
        // (n + 2h - 1) / 2h == (q + 1) / 2
        vstd::arithmetic::div_mod::lemma_fundamental_div_mod(q + 1, 2);
        let u = (q + 1) / 2;
        let v = (q + 1) % 2;
        assert(h * q + h == 2 * h * u + v * h) by (nonlinear_arith)
            requires
                q + 1 == 2 * u + v,
        ;
        assert(n + c - 1 == u * c + (v * h + r)) by (nonlinear_arith)
            requires
                n + c - 1 == h * q + r + h,
                h * q + h == 2 * h * u + v * h,
                c == 2 * h,
        ;
        assert(0 <= v * h + r < c) by (nonlinear_arith)
            requires
                0 <= v < 2,
                0 <= r < h,
                c == 2 * h,
        ;
        vstd::arithmetic::div_mod::lemma_fundamental_div_mod_converse(
            n + c - 1,
            c,
            u,
            v * h + r,
        );
        assert(1 <= u <= n + 1) by (nonlinear_arith)
            requires
                n + c - 1 == u * c + (v * h + r),
                0 <= v * h + r < c,
                n >= 1,
                c >= 2,
        ;
        if c >= n {
            assert(u == 1) by (nonlinear_arith)
                requires
                    n + c - 1 == u * c + (v * h + r),
                    0 <= v * h + r < c,
                    1 <= n <= c,
            ;
        }
    }
}

/// The least power of two that is not below `n`.
pub fn power_above_of(n: usize) -> (r: u64)
    requires
        n <= 0x8000_0000,
    ensures
        r == power_above(n as int, 1),
        r >= 1,
        r >= n,
        r <= 0x8000_0000,
        is_power(r as int),
{
    let mut c: u64 = 1;
    while c < n as u64
        invariant
            1 <= c <= 0x8000_0000,
            n <= 0x8000_0000,
            is_power(c as int),
            power_above(n as int, c as int) == power_above(n as int, 1),
        decreases 0x1_0000_0000 - c,
    {
        proof {
            lemma_power_double(c as int);
        }
        c = c * 2;
    }
    c
}

/// One, or twice a power of two.
pub open spec fn is_power(c: int) -> bool
    decreases c,
{
    c == 1 || c > 1 && c % 2 == 0 && is_power(c / 2)
}

proof fn lemma_power_double(c: int)
    requires
        is_power(c),
    ensures
        is_power(2 * c),
        c < 0x8000_0000 ==> 2 * c <= 0x8000_0000,
{
    assert((2 * c) / 2 == c);
    if c < 0x8000_0000 {
        reveal_with_fuel(is_power, 33);
        lemma_power_bound(c, 0x8000_0000);
    }
}

/// A power of two below another is at most its half.
proof fn lemma_power_bound(c: int, d: int)
    requires
        is_power(c),
        is_power(d),
        c < d,
    ensures
        2 * c <= d,
    decreases c,
{
    if c > 1 {
        lemma_power_bound(c / 2, d / 2);
    }
}

pub fn cells_of(n: usize, c: u64) -> (r: usize)
    requires
        n <= 0x8000_0000,
        2 <= c <= 0x8000_0000,
        c % 2 == 0,
    ensures
        r == cells(n as int, c as int),
        1 <= r,
{
    proof {
        lemma_cells(n as int, c as int);
    }
    if n == 0 {
        1
    } else {
        ((n as u64 + c - 1) / c) as usize
    }
}

/// The numbers of a coefficient vector.
pub open spec fn ints(v: Seq<i64>) -> Seq<int> {
    Seq::new(v.len(), |p: int| v[p] as int)
}

/// All coefficients are in range.
pub open spec fn all_fit(v: Seq<i64>, wide: bool) -> bool {
    forall|p: int| 0 <= p < v.len() ==> fits(#[trigger] v[p] as int, wide)
}

/// Where the element at `j` of an interleaved line of length `n` comes from:
/// even places from the first half, odd places from the second.
pub open spec fn source(j: int, n: int) -> int {
    if j % 2 == 0 {
        j / 2
    } else {
        half_up(n) + j / 2
    }
}

/// `x` rounded down to a multiple of `p`, a power of two (zero where `p` is out
/// of range).
pub open spec fn floor_to(x: int, p: int, wide: bool) -> int {
    if p >= modulus(wide) {
        0
    } else {
        x - x % p
    }
}

/// `x` rounded to a multiple of `p`: half of `p` is added before rounding down,
/// or `below` where `x` is negative.
pub open spec fn rounded(x: int, p: int, below: int, wide: bool) -> int {
    floor_to(
        wrap(
            x + (if x >= 0 {
                wrap(p, wide) / 2
            } else {
                below
            }),
            wide,
        ),
        p,
        wide,
    )
}

/// The bit of `x` at `p`, a power of two, in its place.
pub open spec fn bit_at(x: int, p: int, wide: bool) -> int {
    if p < modulus(wide) && x / p % 2 == 1 {
        wrap(p, wide)
    } else {
        0
    }
}

/// `x` moved towards zero by `d`.
pub open spec fn nearer(x: int, d: int, wide: bool) -> int {
    if x >= 0 {
        wrap(x - d, wide)
    } else {
        wrap(x + d, wide)
    }
}

/// Rounding of a negative coefficient at `p`: one less than half, but zero for
/// the diagonal coefficient at the finest level.
pub open spec fn below_half(p: int, wide: bool) -> int {
    if p == 1 {
        0
    } else {
        wrap(p, wide) / 2 - 1
    }
}

/// Whether an odd number of three coefficients have the bit at `p`.
pub open spec fn odd_bits(a: int, b: int, c: int, p: int, wide: bool) -> bool {
    p < modulus(wide) && (a / p + b / p + c / p) % 2 == 1
}

/// The coefficient `h0` of a block, corrected by the low bits of the others.
pub open spec fn corrected(h0: int, low0: int, low1: int, wide: bool) -> int {
    if h0 >= 0 {
        wrap(wrap(h0 + low0, wide) - low1, wide)
    } else if low0 == 0 {
        wrap(h0 + low1, wide)
    } else {
        wrap(h0 + wrap(low0 - low1, wide), wide)
    }
}

/// A coefficient of a block with its sign in the sum for a pixel.
pub open spec fn signed(x: int, plus: bool) -> int {
    if plus {
        x
    } else {
        -x
    }
}

/// The pixel at row `i`, column `j` (each 0 or 1) of a 2x2 block with
/// coefficients `h0`, `hx`, `hy` and `hc`, at the level of `p`.
pub open spec fn pixel_of_four(
    h0: int,
    hx: int,
    hy: int,
    hc: int,
    p: int,
    i: int,
    j: int,
    wide: bool,
) -> int {
    let rx = rounded(hx, 2 * p, wrap(2 * p, wide) / 2 - 1, wide);
    let ry = rounded(hy, 2 * p, wrap(2 * p, wide) / 2 - 1, wide);
    let c = rounded(hc, p, below_half(p, wide), wide);
    let low0 = bit_at(c, p, wide);
    let x = nearer(rx, low0, wide);
    let y = nearer(ry, low0, wide);
    let low1 = if odd_bits(c, x, y, 2 * p, wide) {
        wrap(2 * p, wide)
    } else {
        0
    };
    let h = corrected(h0, low0, low1, wide);
    wrap(h + signed(x, i == 1) + signed(y, j == 1) + signed(c, i == j), wide) / step_of(p)
}

/// The pixel at `i` (0 or 1) of a pair with coefficients `h0` and `hd`.
pub open spec fn pixel_of_two(h0: int, hd: int, p: int, i: int, wide: bool) -> int {
    let d = rounded(hd, 2 * p, wrap(2 * p, wide) / 2 - 1, wide);
    let h = nearer(h0, bit_at(d, 2 * p, wide), wide);
    wrap(h + signed(d, i == 1), wide) / step_of(p)
}

/// Each level halves its sums; the finest quarters them.
pub open spec fn step_of(p: int) -> int {
    if p == 1 {
        4
    } else {
        2
    }
}

/// The interleaved coefficient at row `i` and column `j` of the top left
/// `nxt` by `nyt` corner.
pub open spec fn coefficient(a: Seq<int>, ny: int, nxt: int, nyt: int, i: int, j: int) -> int {
    a[source(i, nxt) * ny + source(j, nyt)]
}

/// The pixel at row `i` and column `j` of the corner after one level.
pub open spec fn level_pixel(
    a: Seq<int>,
    ny: int,
    nxt: int,
    nyt: int,
    p: int,
    i: int,
    j: int,
    wide: bool,
) -> int {
    let i0 = i - i % 2;
    let j0 = j - j % 2;
    let h0 = coefficient(a, ny, nxt, nyt, i0, j0);
    if i0 + 1 < nxt {
        let hx = coefficient(a, ny, nxt, nyt, i0 + 1, j0);
        if j0 + 1 < nyt {
            let hy = coefficient(a, ny, nxt, nyt, i0, j0 + 1);
            let hc = coefficient(a, ny, nxt, nyt, i0 + 1, j0 + 1);
            pixel_of_four(h0, hx, hy, hc, p, i % 2, j % 2, wide)
        } else {
            pixel_of_two(h0, hx, p, i % 2, wide)
        }
    } else {
        if j0 + 1 < nyt {
            let hy = coefficient(a, ny, nxt, nyt, i0, j0 + 1);
            pixel_of_two(h0, hy, p, j % 2, wide)
        } else {
            h0 / step_of(p)
        }
    }
}

/// One level of the inverse transform: the top left corner of cells of width
/// `p` is interleaved and each 2x2 block is turned into pixels.
pub open spec fn level(a: Seq<int>, nx: int, ny: int, p: int, wide: bool) -> Seq<int> {
    let nxt = cells(nx, p);
    let nyt = cells(ny, p);
    Seq::new(
        a.len(),
        |k: int|
            if k / ny < nxt && k % ny < nyt {
                level_pixel(a, ny, nxt, nyt, p, k / ny, k % ny, wide)
            } else {
                a[k]
            },
    )
}

/// The levels from `p` down to the finest.
pub open spec fn levels(a: Seq<int>, nx: int, ny: int, p: int, wide: bool) -> Seq<int>
    decreases p,
{
    if p < 1 {
        a
    } else {
        levels(level(a, nx, ny, p, wide), nx, ny, p / 2, wide)
    }
}

/// The inverse H-transform of an `nx` by `ny` coefficient array: the sum of all
/// pixels is rounded, then the levels from the coarsest to the finest.
pub open spec fn inverse(a: Seq<int>, nx: int, ny: int, wide: bool) -> Seq<int> {
    let top = power_above(
        if nx < ny {
            ny
        } else {
            nx
        },
        1,
    );
    levels(
        a.update(0, rounded(a[0], 2 * top, wrap(2 * top, wide) / 2 - 1, wide)),
        nx,
        ny,
        top / 2,
        wide,
    )
}

/// A wrapped addend can be replaced by what it stands for.
proof fn lemma_wrap_absorbs(x: int, y: int, wide: bool)
    ensures
        wrap(wrap(x, wide) + y, wide) == wrap(x + y, wide),
        wrap(y - wrap(x, wide), wide) == wrap(y - x, wide),
{
    let m = modulus(wide);
    let w = wrap(x, wide);
    vstd::arithmetic::div_mod::lemma_fundamental_div_mod(x, m);
    let q = x / m;
    let t = if w == x % m {
        -q
    } else {
        -q - 1
    };
    assert(w == x + m * t) by (nonlinear_arith)
        requires
            x == m * q + x % m,
            w == x % m && t == -q || w == x % m - m && t == -q - 1,
    ;
    vstd::arithmetic::div_mod::lemma_mod_multiples_vanish(t, x + y, m);
    vstd::arithmetic::div_mod::lemma_mod_multiples_vanish(-t, y - x, m);
    assert(m * (-t) == -(m * t)) by (nonlinear_arith);
}

/// Floor division by a positive number.
fn floor_div(x: i64, d: i64) -> (r: i64)
    requires
        d > 0,
    ensures
        r == x as int / d as int,
{
    if x >= 0 {
        x / d
    } else {
        let y: i64 = -(x + 1);
        let q: i64 = y / d;
        proof {
            let yi = y as int;
            let di = d as int;
            vstd::arithmetic::div_mod::lemma_fundamental_div_mod(yi, di);
            let qi = yi / di;
            let ri = yi % di;
            assert(x == (-qi - 1) * di + (di - 1 - ri)) by (nonlinear_arith)
                requires
                    yi == di * qi + ri,
                    x == -yi - 1,
            ;
            vstd::arithmetic::div_mod::lemma_fundamental_div_mod_converse(
                x as int,
                di,
                -qi - 1,
                di - 1 - ri,
            );
            assert(qi <= yi) by (nonlinear_arith)
                requires
                    yi == di * qi + ri,
                    0 <= ri,
                    di >= 1,
                    yi >= 0,
                    qi >= 0,
            ;
        }
        -q - 1
    }
}

/// The remainder of a floor division.
fn floor_mod(x: i64, d: i64) -> (r: i64)
    requires
        d > 0,
    ensures
        r == x as int % d as int,
{
    if x >= 0 {
        x % d
    } else {
        let y: i64 = -(x + 1);
        proof {
            let yi = y as int;
            let di = d as int;
            vstd::arithmetic::div_mod::lemma_fundamental_div_mod(yi, di);
            let qi = yi / di;
            let ri = yi % di;
            assert(x == (-qi - 1) * di + (di - 1 - ri)) by (nonlinear_arith)
                requires
                    yi == di * qi + ri,
                    x == -yi - 1,
            ;
            vstd::arithmetic::div_mod::lemma_fundamental_div_mod_converse(
                x as int,
                di,
                -qi - 1,
                di - 1 - ri,
            );
        }
        d - 1 - y % d
    }
}

/// A power of two in wrapping arithmetic.
fn wrapped_power(p: i64, wide: bool) -> (r: i64)
    requires
        1 <= p <= 0x1_0000_0000,
    ensures
        r == wrap(p as int, wide),
        fits(r as int, wide),
{
    proof {
        lemma_wrap_fits(p as int, wide);
    }
    if wide {
        p
    } else {
        casts::i32_of_i64(p) as i64
    }
}

fn round_to(x: i64, p: i64, below: i64, wide: bool) -> (r: i64)
    requires
        1 <= p <= 0x1_0000_0000,
        is_power(p as int),
        fits(x as int, wide),
        fits(below as int, wide),
    ensures
        r == rounded(x as int, p as int, below as int, wide),
        fits(r as int, wide),
{
    let half: i64 = floor_div(wrapped_power(p, wide), 2);
    let moved: i64 = if x >= 0 {
        wrapping_add(x, half, wide)
    } else {
        wrapping_add(x, below, wide)
    };
    if !wide && p == 0x1_0000_0000 {
        return 0;
    }
    let m: i64 = floor_mod(moved, p);
    proof {
        lemma_floor_fits(moved as int, p as int, wide);
    }
    moved - m
}

/// A power of two divides every larger one.
proof fn lemma_power_divides(p: int, q: int)
    requires
        is_power(p),
        is_power(q),
        p <= q,
    ensures
        q % p == 0,
    decreases p,
{
    if p > 1 {
        let a = p / 2;
        let b = q / 2;
        lemma_power_divides(a, b);
        vstd::arithmetic::div_mod::lemma_fundamental_div_mod(b, a);
        let t = b / a;
        assert(q == p * t + 0) by (nonlinear_arith)
            requires
                b == a * t,
                p == 2 * a,
                q == 2 * b,
        ;
        vstd::arithmetic::div_mod::lemma_mod_multiples_basic(t, p);
    }
}

proof fn lemma_double_is_power(c: int)
    requires
        is_power(c),
    ensures
        is_power(2 * c),
{
    assert((2 * c) / 2 == c);
}

proof fn lemma_times_256(c: int)
    requires
        is_power(c),
    ensures
        is_power(0x100 * c),
{
    lemma_double_is_power(c);
    lemma_double_is_power(2 * c);
    lemma_double_is_power(4 * c);
    lemma_double_is_power(8 * c);
    lemma_double_is_power(0x10 * c);
    lemma_double_is_power(0x20 * c);
    lemma_double_is_power(0x40 * c);
    lemma_double_is_power(0x80 * c);
}

proof fn lemma_half_modulus(wide: bool)
    ensures
        is_power(modulus(wide) / 2),
{
    lemma_times_256(1);
    lemma_times_256(0x100);
    lemma_times_256(0x1_0000);
    assert(is_power(0x80_0000)) by {
        assert(is_power(0x100_0000));
    }
    lemma_times_256(0x80_0000);
    lemma_times_256(0x8000_0000);
    lemma_times_256(0x80_0000_0000);
    lemma_times_256(0x8000_0000_0000);
    lemma_times_256(0x80_0000_0000_0000);
}

/// Rounding down to a multiple of a power of two in range stays in range.
proof fn lemma_floor_fits(x: int, p: int, wide: bool)
    requires
        fits(x, wide),
        is_power(p),
        1 <= p < modulus(wide),
    ensures
        fits(x - x % p, wide),
{
    let half = modulus(wide) / 2;
    lemma_half_modulus(wide);
    if p > half {
        lemma_power_bound(half, p);
    }
    lemma_power_divides(p, half);
    vstd::arithmetic::div_mod::lemma_fundamental_div_mod(half, p);
    vstd::arithmetic::div_mod::lemma_fundamental_div_mod(x, p);
    let t = half / p;
    let q = x / p;
    assert(-half == p * (-t)) by (nonlinear_arith)
        requires
            half == p * t,
    ;
    vstd::arithmetic::div_mod::lemma_div_multiples_vanish(-t, p);
    vstd::arithmetic::div_mod::lemma_div_is_ordered(-half, x, p);
    assert(p * q >= p * (-t)) by (nonlinear_arith)
        requires
            q >= -t,
            p >= 1,
    ;
}

/// The bit at a power of two.
fn bit_of(x: i64, p: i64, wide: bool) -> (r: bool)
    requires
        1 <= p <= 0x1_0000_0000,
    ensures
        r <==> p < modulus(wide) && x as int / p as int % 2 == 1,
{
    if !wide && p == 0x1_0000_0000 {
        return false;
    }
    floor_mod(floor_div(x, p), 2) == 1
}

fn towards_zero(x: i64, d: i64, wide: bool) -> (r: i64)
    requires
        fits(x as int, wide),
        fits(d as int, wide),
    ensures
        r == nearer(x as int, d as int, wide),
        fits(r as int, wide),
{
    if x >= 0 {
        wrapping_sub(x, d, wide)
    } else {
        wrapping_add(x, d, wide)
    }
}

fn parity(a: i64, b: i64, c: i64, p: i64, wide: bool) -> (r: bool)
    requires
        1 <= p <= 0x1_0000_0000,
    ensures
        r == odd_bits(a as int, b as int, c as int, p as int, wide),
{
    let x: bool = bit_of(a, p, wide);
    let y: bool = bit_of(b, p, wide);
    let z: bool = bit_of(c, p, wide);
    proof {
        let qa = a as int / p as int;
        let qb = b as int / p as int;
        let qc = c as int / p as int;
        assert((qa + qb + qc) % 2 == (qa % 2 + qb % 2 + qc % 2) % 2);
    }
    (x != y) != z
}

fn correct(h0: i64, low0: i64, low1: i64, wide: bool) -> (r: i64)
    requires
        fits(h0 as int, wide),
        fits(low0 as int, wide),
        fits(low1 as int, wide),
    ensures
        r == corrected(h0 as int, low0 as int, low1 as int, wide),
        fits(r as int, wide),
{
    if h0 >= 0 {
        wrapping_sub(wrapping_add(h0, low0, wide), low1, wide)
    } else if low0 == 0 {
        wrapping_add(h0, low1, wide)
    } else {
        wrapping_add(h0, wrapping_sub(low0, low1, wide), wide)
    }
}

/// Add a coefficient with its sign to a wrapped sum.
fn add_signed(s: i64, x: i64, plus: bool, wide: bool, Ghost(exact): Ghost<int>) -> (r: i64)
    requires
        s == wrap(exact, wide),
        fits(s as int, wide),
        fits(x as int, wide),
    ensures
        r == wrap(exact + signed(x as int, plus), wide),
        fits(r as int, wide),
{
    proof {
        lemma_wrap_absorbs(exact, signed(x as int, plus), wide);
    }
    if plus {
        wrapping_add(s, x, wide)
    } else {
        wrapping_sub(s, x, wide)
    }
}

fn half_step(s: i64, p: i64, wide: bool) -> (r: i64)
    requires
        p >= 1,
        fits(s as int, wide),
    ensures
        r == s as int / step_of(p as int),
        fits(r as int, wide),
{
    if p == 1 {
        floor_div(s, 4)
    } else {
        floor_div(s, 2)
    }
}

fn fourth_pixel(
    h0: i64,
    hx: i64,
    hy: i64,
    hc: i64,
    p: i64,
    i: usize,
    j: usize,
    wide: bool,
) -> (r: i64)
    requires
        1 <= p <= 0x8000_0000,
        is_power(p as int),
        i < 2,
        j < 2,
        fits(h0 as int, wide),
        fits(hx as int, wide),
        fits(hy as int, wide),
        fits(hc as int, wide),
    ensures
        r == pixel_of_four(
            h0 as int,
            hx as int,
            hy as int,
            hc as int,
            p as int,
            i as int,
            j as int,
            wide,
        ),
        fits(r as int, wide),
{
    let p1: i64 = 2 * p;
    proof {
        lemma_power_double(p as int);
        lemma_wrap_fits(0, wide);
    }
    let unit0: i64 = wrapped_power(p, wide);
    let unit1: i64 = wrapped_power(p1, wide);
    let below1: i64 = floor_div(unit1, 2) - 1;
    let below0: i64 = if p == 1 {
        0
    } else {
        floor_div(unit0, 2) - 1
    };
    let rx: i64 = round_to(hx, p1, below1, wide);
    let ry: i64 = round_to(hy, p1, below1, wide);
    let c: i64 = round_to(hc, p, below0, wide);
    let low0: i64 = if bit_of(c, p, wide) {
        unit0
    } else {
        0
    };
    let x: i64 = towards_zero(rx, low0, wide);
    let y: i64 = towards_zero(ry, low0, wide);
    let low1: i64 = if parity(c, x, y, p1, wide) {
        unit1
    } else {
        0
    };
    let h: i64 = correct(h0, low0, low1, wide);
    proof {
        lemma_wrap_fits(h as int, wide);
    }
    let s1: i64 = add_signed(h, x, i == 1, wide, Ghost(h as int));
    let ghost e1 = h + signed(x as int, i == 1);
    let s2: i64 = add_signed(s1, y, j == 1, wide, Ghost(e1));
    let ghost e2 = e1 + signed(y as int, j == 1);
    let s3: i64 = add_signed(s2, c, i == j, wide, Ghost(e2));
    half_step(s3, p, wide)
}

fn second_pixel(h0: i64, hd: i64, p: i64, i: usize, wide: bool) -> (r: i64)
    requires
        1 <= p <= 0x8000_0000,
        is_power(p as int),
        i < 2,
        fits(h0 as int, wide),
        fits(hd as int, wide),
    ensures
        r == pixel_of_two(h0 as int, hd as int, p as int, i as int, wide),
        fits(r as int, wide),
{
    let p1: i64 = 2 * p;
    proof {
        lemma_power_double(p as int);
        lemma_wrap_fits(0, wide);
    }
    let unit1: i64 = wrapped_power(p1, wide);
    let below1: i64 = floor_div(unit1, 2) - 1;
    let d: i64 = round_to(hd, p1, below1, wide);
    let low1: i64 = if bit_of(d, p1, wide) {
        unit1
    } else {
        0
    };
    let h: i64 = towards_zero(h0, low1, wide);
    proof {
        lemma_wrap_fits(h as int, wide);
    }
    let s: i64 = add_signed(h, d, i == 1, wide, Ghost(h as int));
    half_step(s, p, wide)
}

/// An interleaved place lies in the line.
proof fn lemma_source(j: int, n: int)
    requires
        0 <= j < n,
    ensures
        0 <= source(j, n) < n,
{
}

/// The interleaved coefficient at row `i` and column `j` of a corner.
fn coefficient_at(a: &[i64], nx: usize, ny: usize, nxt: usize, nyt: usize, i: usize, j: usize) -> (r:
    i64)
    requires
        i < nxt <= nx,
        j < nyt <= ny,
        a@.len() == nx * ny,
    ensures
        r == coefficient(ints(a@), ny as int, nxt as int, nyt as int, i as int, j as int),
        exists|k: int| 0 <= k < a@.len() && r == #[trigger] a@[k],
{
    let len: usize = a.len();
    let si: usize = if i % 2 == 0 {
        i / 2
    } else {
        (nxt / 2 + nxt % 2) + i / 2
    };
    let sj: usize = if j % 2 == 0 {
        j / 2
    } else {
        (nyt / 2 + nyt % 2) + j / 2
    };
    proof {
        lemma_source(i as int, nxt as int);
        lemma_source(j as int, nyt as int);
        lemma_position(si as int, sj as int, nx as int, ny as int);
    }
    a[si * ny + sj]
}

/// The pixel at row `i` and column `j` of a corner after one level.
fn pixel_at(
    a: &[i64],
    nx: usize,
    ny: usize,
    nxt: usize,
    nyt: usize,
    p: i64,
    i: usize,
    j: usize,
    wide: bool,
) -> (r: i64)
    requires
        i < nxt <= nx,
        j < nyt <= ny,
        a@.len() == nx * ny,
        all_fit(a@, wide),
        1 <= p <= 0x8000_0000,
        is_power(p as int),
    ensures
        r == level_pixel(
            ints(a@),
            ny as int,
            nxt as int,
            nyt as int,
            p as int,
            i as int,
            j as int,
            wide,
        ),
        fits(r as int, wide),
{
    let i0: usize = i - i % 2;
    let j0: usize = j - j % 2;
    let h0: i64 = coefficient_at(a, nx, ny, nxt, nyt, i0, j0);
    if nxt - i0 > 1 {
        let hx: i64 = coefficient_at(a, nx, ny, nxt, nyt, i0 + 1, j0);
        if nyt - j0 > 1 {
            let hy: i64 = coefficient_at(a, nx, ny, nxt, nyt, i0, j0 + 1);
            let hc: i64 = coefficient_at(a, nx, ny, nxt, nyt, i0 + 1, j0 + 1);
            fourth_pixel(h0, hx, hy, hc, p, i % 2, j % 2, wide)
        } else {
            second_pixel(h0, hx, p, i % 2, wide)
        }
    } else {
        if nyt - j0 > 1 {
            let hy: i64 = coefficient_at(a, nx, ny, nxt, nyt, i0, j0 + 1);
            second_pixel(h0, hy, p, j % 2, wide)
        } else {
            half_step(h0, p, wide)
        }
    }
}

/// Cells of a width of at least one.
proof fn lemma_cells_bound(n: int, p: int)
    requires
        n >= 1,
        p >= 1,
    ensures
        1 <= cells(n, p) <= n,
{
    let q = (n + p - 1) / p;
    vstd::arithmetic::div_mod::lemma_fundamental_div_mod(n + p - 1, p);
    assert(1 <= q <= n) by (nonlinear_arith)
        requires
            n + p - 1 == p * q + (n + p - 1) % p,
            0 <= (n + p - 1) % p < p,
            n >= 1,
            p >= 1,
    ;
}

/// One level of the inverse transform.
fn transform_level(a: &[i64], nx: usize, ny: usize, p: i64, wide: bool) -> (r: Vec<i64>)
    requires
        1 <= nx < 0x8000_0000,
        1 <= ny < 0x8000_0000,
        a@.len() == nx * ny,
        all_fit(a@, wide),
        1 <= p <= 0x8000_0000,
        is_power(p as int),
    ensures
        ints(r@) == level(ints(a@), nx as int, ny as int, p as int, wide),
        r@.len() == a@.len(),
        all_fit(r@, wide),
{
    proof {
        lemma_cells_bound(nx as int, p as int);
        lemma_cells_bound(ny as int, p as int);
    }
    let nxt: usize = ((nx as u64 + p as u64 - 1) / p as u64) as usize;
    let nyt: usize = ((ny as u64 + p as u64 - 1) / p as u64) as usize;
    let mut out: Vec<i64> = Vec::new();
    let ghost all = level(ints(a@), nx as int, ny as int, p as int, wide);
    let n: usize = a.len();
    while out.len() < n
        invariant
            1 <= nx < 0x8000_0000,
            1 <= ny < 0x8000_0000,
            nxt == cells(nx as int, p as int),
            nyt == cells(ny as int, p as int),
            nxt <= nx,
            nyt <= ny,
            n == a@.len(),
            n == nx * ny,
            all_fit(a@, wide),
            1 <= p <= 0x8000_0000,
            is_power(p as int),
            all == level(ints(a@), nx as int, ny as int, p as int, wide),
            out@.len() <= n,
            all_fit(out@, wide),
            forall|k: int| 0 <= k < out@.len() ==> #[trigger] out@[k] == all[k],
        decreases n - out@.len(),
    {
        let k: usize = out.len();
        proof {
            lemma_cell_of(k as int, nx as int, ny as int);
        }
        let i: usize = k / ny;
        let j: usize = k % ny;
        let v: i64 = if i < nxt && j < nyt {
            pixel_at(a, nx, ny, nxt, nyt, p, i, j, wide)
        } else {
            a[k]
        };
        out.push(v);
    }
    assert(ints(out@) =~= all);
    out
}

/// Inverse H-transform of an `nx` by `ny` coefficient array.
pub fn hinv(a: Vec<i64>, nx: usize, ny: usize, wide: bool) -> (r: Vec<i64>)
    requires
        1 <= nx < 0x8000_0000,
        1 <= ny < 0x8000_0000,
        a@.len() == nx * ny,
        all_fit(a@, wide),
    ensures
        ints(r@) == inverse(ints(a@), nx as int, ny as int, wide),
        r@.len() == a@.len(),
        all_fit(r@, wide),
{
    let longest: usize = if nx < ny {
        ny
    } else {
        nx
    };
    let top: u64 = power_above_of(longest);
    let p2: i64 = 2 * top as i64;
    proof {
        lemma_power_double(top as int);
        assert(a@.len() >= 1) by (nonlinear_arith)
            requires
                a@.len() == nx * ny,
                nx >= 1,
                ny >= 1,
        ;
    }
    let unit2: i64 = wrapped_power(p2, wide);
    let below: i64 = floor_div(unit2, 2) - 1;
    let first: i64 = round_to(a[0], p2, below, wide);
    let ghost start = ints(a@);
    let mut cur: Vec<i64> = a;
    cur.set(0, first);
    proof {
        assert(ints(cur@) =~= start.update(0, first as int));
    }
    let ghost whole = inverse(start, nx as int, ny as int, wide);
    let mut p: u64 = top / 2;
    while p >= 1
        invariant
            1 <= nx < 0x8000_0000,
            1 <= ny < 0x8000_0000,
            cur@.len() == nx * ny,
            all_fit(cur@, wide),
            p <= 0x8000_0000,
            p == 0 || is_power(p as int),
            whole == levels(ints(cur@), nx as int, ny as int, p as int, wide),
        decreases p,
    {
        cur = transform_level(cur.as_slice(), nx, ny, p as i64, wide);
        p = p / 2;
    }
    cur
}

} // verus!
