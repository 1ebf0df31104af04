//! The forward H-transform, and that the inverse undoes it.
use crate::htransform as ht;
use vstd::arithmetic::div_mod::*;
use vstd::prelude::*;

verus! {

/// The multiple of `m` that is nearest to `x`, the one farther from zero of two.
pub open spec fn nearest(x: int, m: int) -> int {
    if x >= 0 {
        m * ((x + m / 2) / m)
    } else {
        -(m * ((-x + m / 2) / m))
    }
}

/// A sum or difference of the pixels of a block as a coefficient. Where a block lacks
/// pixels at the edge of the image, those that it has count `copies` times. Behind the first
/// level, sums and differences are halved.
pub open spec fn weighed(x: int, copies: int, p: int) -> int {
    if p == 1 {
        x * copies
    } else {
        x * copies / 2
    }
}

/// The four coefficients of a 2x2 block with rows `a00`, `a01` and `a10`, `a11`: its sum, and
/// the differences between its rows, its columns and its diagonals.
pub open spec fn four(a00: int, a01: int, a10: int, a11: int, p: int) -> (int, int, int, int) {
    (
        nearest(weighed(a00 + a01 + a10 + a11, 1, p), 4 * p),
        nearest(weighed(a10 + a11 - a00 - a01, 1, p), 2 * p),
        nearest(weighed(a01 + a11 - a00 - a10, 1, p), 2 * p),
        weighed(a00 + a11 - a01 - a10, 1, p),
    )
}

/// The two coefficients of a pair of pixels: their sum and their difference.
pub open spec fn two(a: int, b: int, p: int) -> (int, int) {
    (nearest(weighed(a + b, 2, p), 4 * p), nearest(weighed(b - a, 2, p), 2 * p))
}

/// The coefficient of a pixel that stands alone.
pub open spec fn one(a: int, p: int) -> int {
    nearest(weighed(a, 4, p), 4 * p)
}

/// The coefficient in the place of the pixel at row `i` and column `j` of the `nxt` by `nyt`
/// corner of an image with `ny` columns.
pub open spec fn block_coefficient(
    a: Seq<int>,
    ny: int,
    nxt: int,
    nyt: int,
    p: int,
    i: int,
    j: int,
) -> int {
    let i0 = i - i % 2;
    let j0 = j - j % 2;
    let a00 = a[i0 * ny + j0];
    let a01 = a[i0 * ny + (j0 + 1)];
    let a10 = a[(i0 + 1) * ny + j0];
    let a11 = a[(i0 + 1) * ny + (j0 + 1)];
    if i0 + 1 < nxt && j0 + 1 < nyt {
        let (h0, hx, hy, hc) = four(a00, a01, a10, a11, p);
        if i % 2 == 0 && j % 2 == 0 {
            h0
        } else if j % 2 == 0 {
            hx
        } else if i % 2 == 0 {
            hy
        } else {
            hc
        }
    } else if i0 + 1 < nxt {
        if i % 2 == 0 {
            two(a00, a10, p).0
        } else {
            two(a00, a10, p).1
        }
    } else if j0 + 1 < nyt {
        if j % 2 == 0 {
            two(a00, a01, p).0
        } else {
            two(a00, a01, p).1
        }
    } else {
        one(a00, p)
    }
}

/// The place before sorting of the element that comes to `r` in a line of length `n`: the
/// even places come first.
pub open spec fn unsorted(r: int, n: int) -> int {
    if r < ht::half_up(n) {
        2 * r
    } else {
        2 * (r - ht::half_up(n)) + 1
    }
}

/// One level of the forward transform: each 2x2 block of the corner of cells of width `p` is
/// turned into coefficients, and these are sorted, the sums first.
pub open spec fn forward_level(a: Seq<int>, nx: int, ny: int, p: int) -> Seq<int> {
    let nxt = ht::cells(nx, p);
    let nyt = ht::cells(ny, p);
    Seq::new(
        a.len(),
        |k: int|
            if k / ny < nxt && k % ny < nyt {
                block_coefficient(
                    a,
                    ny,
                    nxt,
                    nyt,
                    p,
                    unsorted(k / ny, nxt),
                    unsorted(k % ny, nyt),
                )
            } else {
                a[k]
            },
    )
}

/// The levels of the forward transform up to `p`, a power of two.
pub open spec fn forward_levels(a: Seq<int>, nx: int, ny: int, p: int) -> Seq<int>
    decreases p,
{
    if p < 1 {
        a
    } else {
        forward_level(forward_levels(a, nx, ny, p / 2), nx, ny, p)
    }
}

/// The width of the coarsest cells: the least power of two that covers the image.
pub open spec fn top_of(nx: int, ny: int) -> int {
    ht::power_above(
        if nx < ny {
            ny
        } else {
            nx
        },
        1,
    )
}

/// The forward H-transform of an image of `nx` rows and `ny` columns: sums and differences of
/// its 2x2 blocks, then of the sums, and so on until one sum is left.
pub open spec fn forward(pixels: Seq<int>, nx: int, ny: int) -> Seq<int> {
    forward_levels(pixels, nx, ny, top_of(nx, ny) / 2)
}

/// What the numbers of a level are multiples of.
pub open spec fn grain(p: int) -> int {
    if p == 1 {
        1
    } else {
        2 * p
    }
}

/// Whether `x` is `k` times `g`, and `k` at most `b`.
spec fn counts(x: int, g: int, k: int, b: int) -> bool {
    x == g * k && -b <= k <= b
}

/// How many times `g` a number is.
spec fn count_of(x: int, g: int, b: int) -> int {
    choose|k: int| #[trigger] counts(x, g, k, b)
}

/// A number of a level, for pixels of at most `b`.
spec fn held(x: int, p: int, b: int) -> bool {
    exists|k: int| #[trigger] counts(x, grain(p), k, b)
}

/// Whether the numbers of the corner of cells of width `p` are those of a level.
#[verifier::opaque]
spec fn ready(a: Seq<int>, nx: int, ny: int, p: int, b: int) -> bool {
    forall|i: int, j: int|
        0 <= i < ht::cells(nx, p) && 0 <= j < ht::cells(ny, p) ==> held(
            #[trigger] a[i * ny + j],
            p,
            b,
        )
}

proof fn lemma_ready_at(a: Seq<int>, nx: int, ny: int, p: int, b: int, i: int, j: int) -> (k: int)
    requires
        ready(a, nx, ny, p, b),
        0 <= i < ht::cells(nx, p),
        0 <= j < ht::cells(ny, p),
    ensures
        a[i * ny + j] == grain(p) * k,
        -b <= k <= b,
{
    reveal(ready);
    let x = a[i * ny + j];
    assert(held(x, p, b));
    let k = count_of(x, grain(p), b);
    assert(counts(x, grain(p), k, b));
    k
}

/// Whether arithmetic at a level does not wrap.
pub open spec fn roomy(p: int, b: int, wide: bool) -> bool {
    &&& p >= 1
    &&& p == 1 || p % 2 == 0
    &&& b >= 0
    &&& 8 * p * (b + 1) < ht::modulus(wide)
}

pub proof fn lemma_multiple(m: int, k: int, d: int)
    requires
        m > 0,
        0 <= d < m,
    ensures
        (m * k + d) / m == k,
        (m * k + d) % m == d,
{
    assert(m * k == k * m) by (nonlinear_arith);
    lemma_fundamental_div_mod_converse(m * k + d, m, k, d);
}

/// Rounding to a multiple keeps multiples.
proof fn lemma_rounded_multiple(m: int, k: int, below: int, wide: bool)
    requires
        m >= 1,
        m == 1 || m % 2 == 0,
        0 <= below < m,
        2 * m < ht::modulus(wide),
        -ht::modulus(wide) < 2 * (m * k) && 2 * (m * k) + 2 * m < ht::modulus(wide),
    ensures
        ht::rounded(m * k, m, below, wide) == m * k,
{
    ht::lemma_wrap_fits(m, wide);
    let x = m * k;
    let d = if x >= 0 {
        m / 2
    } else {
        below
    };
    ht::lemma_wrap_fits(x + d, wide);
    lemma_multiple(m, k, d);
}

/// The nearest multiple of a number within bounds is within them.
proof fn lemma_nearest_bound(x: int, m: int, b: int)
    requires
        m > 0,
        b >= 0,
        -(m * b) <= x <= m * b,
    ensures
        exists|k: int| #[trigger] counts(nearest(x, m), m, k, b),
        -(m * b) <= nearest(x, m) <= m * b,
{
    let y = if x >= 0 {
        x
    } else {
        -x
    };
    let q = (y + m / 2) / m;
    lemma_fundamental_div_mod(y + m / 2, m);
    assert(0 <= q <= b) by (nonlinear_arith)
        requires
            y + m / 2 == m * q + (y + m / 2) % m,
            0 <= (y + m / 2) % m < m,
            0 <= y <= m * b,
            m > 0,
            0 <= m / 2 < m,
    ;
    assert(m * q <= m * b) by (nonlinear_arith)
        requires
            0 <= q <= b,
            m > 0,
    ;
    assert(0 <= m * q) by (nonlinear_arith)
        requires
            0 <= q,
            m > 0,
    ;
    let k = if x >= 0 {
        q
    } else {
        -q
    };
    assert(m * (-q) == -(m * q)) by (nonlinear_arith);
    assert(counts(nearest(x, m), m, k, b));
}

/// The nearest multiple of `2p` of a multiple of `p`.
proof fn lemma_nearest_two(p: int, u: int)
    requires
        p >= 1,
    ensures
        u % 2 == 0 ==> nearest(p * u, 2 * p) == p * u,
        u % 2 == 1 && u >= 0 ==> nearest(p * u, 2 * p) == p * u + p,
        u % 2 == 1 && u < 0 ==> nearest(p * u, 2 * p) == p * u - p,
        u >= 0 ==> p * u >= 0,
        u < 0 ==> p * u < 0,
{
    assert(u >= 0 ==> p * u >= 0) by (nonlinear_arith)
        requires
            p >= 1,
    ;
    assert(u < 0 ==> p * u < 0) by (nonlinear_arith)
        requires
            p >= 1,
    ;
    let v = if u >= 0 {
        u
    } else {
        -u
    };
    assert(p * (-u) == -(p * u)) by (nonlinear_arith);
    let h = v / 2;
    let m = 2 * p;
    assert((2 * p) / 2 == p);
    if v % 2 == 0 {
        assert(p * v == m * h) by (nonlinear_arith)
            requires
                v == 2 * h,
                m == 2 * p,
        ;
        lemma_multiple(m, h, p);
    } else {
        assert(p * v + p == m * (h + 1)) by (nonlinear_arith)
            requires
                v == 2 * h + 1,
                m == 2 * p,
        ;
        lemma_multiple(m, h + 1, 0);
    }
}

/// The nearest multiple of `4p` of a multiple of `p`, by the remainder.
proof fn lemma_nearest_four(p: int, u: int)
    requires
        p >= 1,
    ensures
        u % 4 == 0 ==> nearest(p * u, 4 * p) == p * u,
        u % 4 == 1 ==> nearest(p * u, 4 * p) == p * u - p,
        u % 4 == 2 && u >= 0 ==> nearest(p * u, 4 * p) == p * u + 2 * p,
        u % 4 == 2 && u < 0 ==> nearest(p * u, 4 * p) == p * u - 2 * p,
        u % 4 == 3 ==> nearest(p * u, 4 * p) == p * u + p,
        u >= 0 ==> p * u >= 0,
        u < 0 ==> p * u <= -p,
        u <= -2 ==> p * u <= -(2 * p),
        u <= -3 ==> p * u <= -(3 * p),
{
    assert(u >= 0 ==> p * u >= 0) by (nonlinear_arith)
        requires
            p >= 1,
    ;
    assert(u < 0 ==> p * u <= -p) by (nonlinear_arith)
        requires
            p >= 1,
    ;
    assert(u <= -2 ==> p * u <= -(2 * p)) by (nonlinear_arith)
        requires
            p >= 1,
    ;
    assert(u <= -3 ==> p * u <= -(3 * p)) by (nonlinear_arith)
        requires
            p >= 1,
    ;
    let v = if u >= 0 {
        u
    } else {
        -u
    };
    assert(p * (-u) == -(p * u)) by (nonlinear_arith);
    let h = v / 4;
    let r = v % 4;
    let m = 4 * p;
    assert((4 * p) / 2 == 2 * p);
    assert(p * v == m * h + p * r) by (nonlinear_arith)
        requires
            v == 4 * h + r,
            m == 4 * p,
    ;
    assert(m * (h + 1) == m * h + m) by (nonlinear_arith);
    if r == 0 {
        assert(p * r == 0) by (nonlinear_arith)
            requires
                r == 0,
        ;
        lemma_multiple(m, h, 2 * p);
    } else if r == 1 {
        assert(p * r == p) by (nonlinear_arith)
            requires
                r == 1,
        ;
        lemma_multiple(m, h, 3 * p);
    } else if r == 2 {
        assert(p * r == 2 * p) by (nonlinear_arith)
            requires
                r == 2,
        ;
        lemma_multiple(m, h + 1, 0);
    } else {
        assert(p * r == 3 * p) by (nonlinear_arith)
            requires
                r == 3,
        ;
        lemma_multiple(m, h + 1, p);
    }
}

/// Quotients of a multiple of `p`.
proof fn lemma_quotients(p: int, u: int)
    requires
        p >= 1,
    ensures
        (p * u) / p == u,
        (p * u) / (2 * p) == u / 2,
{
    lemma_multiple(p, u, 0);
    let h = u / 2;
    let r = u % 2;
    assert(p * u == (2 * p) * h + p * r) by (nonlinear_arith)
        requires
            u == 2 * h + r,
    ;
    assert(0 <= p * r < 2 * p) by (nonlinear_arith)
        requires
            0 <= r < 2,
            p >= 1,
    ;
    lemma_multiple(2 * p, h, p * r);
}

/// A difference that was rounded is rounded no further, and loses what was added to it.
proof fn lemma_difference_back(p: int, u: int, e: int, n: int, wide: bool)
    requires
        p >= 1,
        e == u % 2,
        n >= 0,
        -n <= p * u <= n,
        2 * (n + 4 * p) < ht::modulus(wide),
    ensures
        ({
            let m = 2 * p;
            let r = ht::rounded(nearest(p * u, m), m, ht::wrap(m, wide) / 2 - 1, wide);
            &&& r == nearest(p * u, m)
            &&& ht::nearer(
                r,
                if e == 1 {
                    p
                } else {
                    0
                },
                wide,
            ) == p * u
        }),
{
    let m = 2 * p;
    lemma_nearest_two(p, u);
    let x = nearest(p * u, m);
    ht::lemma_wrap_fits(m, wide);
    let k = if e == 0 {
        u / 2
    } else if u >= 0 {
        (u + 1) / 2
    } else {
        (u - 1) / 2
    };
    assert(x == m * k) by (nonlinear_arith)
        requires
            m == 2 * p,
            e == 0 && x == p * u && u == 2 * k || e == 1 && x == p * u + p && u + 1 == 2 * k || e
                == 1 && x == p * u - p && u - 1 == 2 * k,
    ;
    lemma_rounded_multiple(m, k, p - 1, wide);
    ht::lemma_wrap_fits(p * u, wide);
    if e == 1 && u < 0 {
        assert(x < 0);
    }
}

/// A sum that was rounded is corrected by the low bits of the differences.
proof fn lemma_sum_back(p: int, u: int, n: int, wide: bool)
    requires
        p >= 1,
        n >= 0,
        -n <= p * u <= n,
        2 * (n + 4 * p) < ht::modulus(wide),
    ensures
        ({
            let low0 = if u % 2 == 1 {
                p
            } else {
                0
            };
            let low1 = if u % 4 >= 2 {
                2 * p
            } else {
                0
            };
            ht::corrected(nearest(p * u, 4 * p), low0, low1, wide) == p * u
        }),
{
    lemma_nearest_four(p, u);
    let h0 = nearest(p * u, 4 * p);
    let low0 = if u % 2 == 1 {
        p
    } else {
        0
    };
    let low1 = if u % 4 >= 2 {
        2 * p
    } else {
        0
    };
    ht::lemma_wrap_fits(h0 + low0, wide);
    ht::lemma_wrap_fits(h0 + low0 - low1, wide);
    ht::lemma_wrap_fits(h0 + low1, wide);
    ht::lemma_wrap_fits(low0 - low1, wide);
    ht::lemma_wrap_fits(p * u, wide);
}

/// What four numbers of a level give, in units of `p`.
proof fn lemma_units_four(k00: int, k01: int, k10: int, k11: int, p: int, b: int)
    requires
        p == 1 || p % 2 == 0,
        p >= 1,
        -b <= k00 <= b,
        -b <= k01 <= b,
        -b <= k10 <= b,
        -b <= k11 <= b,
    ensures
        ({
            let g = grain(p);
            let (a00, a01, a10, a11) = (g * k00, g * k01, g * k10, g * k11);
            let (s, x, y, c) = (
                k00 + k01 + k10 + k11,
                k10 + k11 - k00 - k01,
                k01 + k11 - k00 - k10,
                k00 + k11 - k01 - k10,
            );
            &&& weighed(a00 + a01 + a10 + a11, 1, p) == p * s
            &&& weighed(a10 + a11 - a00 - a01, 1, p) == p * x
            &&& weighed(a01 + a11 - a00 - a10, 1, p) == p * y
            &&& weighed(a00 + a11 - a01 - a10, 1, p) == p * c
            &&& -(4 * p * b) <= p * s <= 4 * p * b
            &&& -(4 * p * b) <= p * x <= 4 * p * b
            &&& -(4 * p * b) <= p * y <= 4 * p * b
            &&& -(4 * p * b) <= p * c <= 4 * p * b
        }),
{
    let g = grain(p);
    let (a00, a01, a10, a11) = (g * k00, g * k01, g * k10, g * k11);
    let (s, x, y, c) = (
        k00 + k01 + k10 + k11,
        k10 + k11 - k00 - k01,
        k01 + k11 - k00 - k10,
        k00 + k11 - k01 - k10,
    );
    lemma_unit(a00 + a01 + a10 + a11, s, p, b, a00, a01, a10, a11, k00, k01, k10, k11, (1, 1, 1, 1));
    lemma_unit(a10 + a11 - a00 - a01, x, p, b, a00, a01, a10, a11, k00, k01, k10, k11, (-1, -1, 1, 1));
    lemma_unit(a01 + a11 - a00 - a10, y, p, b, a00, a01, a10, a11, k00, k01, k10, k11, (-1, 1, -1, 1));
    lemma_unit(a00 + a11 - a01 - a10, c, p, b, a00, a01, a10, a11, k00, k01, k10, k11, (1, -1, -1, 1));
}

/// A signed sum of multiples.
proof fn lemma_unit(
    total: int,
    units: int,
    p: int,
    b: int,
    a00: int,
    a01: int,
    a10: int,
    a11: int,
    k00: int,
    k01: int,
    k10: int,
    k11: int,
    sign: (int, int, int, int),
)
    requires
        p == 1 || p % 2 == 0,
        p >= 1,
        a00 == grain(p) * k00,
        a01 == grain(p) * k01,
        a10 == grain(p) * k10,
        a11 == grain(p) * k11,
        -1 <= sign.0 <= 1,
        -1 <= sign.1 <= 1,
        -1 <= sign.2 <= 1,
        -1 <= sign.3 <= 1,
        sign.0 != 0 && sign.1 != 0 && sign.2 != 0 && sign.3 != 0,
        -b <= k00 <= b,
        -b <= k01 <= b,
        -b <= k10 <= b,
        -b <= k11 <= b,
        total == (if sign.0 == 1 {
            a00
        } else {
            -a00
        }) + (if sign.1 == 1 {
            a01
        } else {
            -a01
        }) + (if sign.2 == 1 {
            a10
        } else {
            -a10
        }) + (if sign.3 == 1 {
            a11
        } else {
            -a11
        }),
        units == (if sign.0 == 1 {
            k00
        } else {
            -k00
        }) + (if sign.1 == 1 {
            k01
        } else {
            -k01
        }) + (if sign.2 == 1 {
            k10
        } else {
            -k10
        }) + (if sign.3 == 1 {
            k11
        } else {
            -k11
        }),
    ensures
        weighed(total, 1, p) == p * units,
        -(4 * p * b) <= p * units <= 4 * p * b,
{
    let g = grain(p);
    let s0 = if sign.0 == 1 {
        k00
    } else {
        -k00
    };
    let s1 = if sign.1 == 1 {
        k01
    } else {
        -k01
    };
    let s2 = if sign.2 == 1 {
        k10
    } else {
        -k10
    };
    let s3 = if sign.3 == 1 {
        k11
    } else {
        -k11
    };
    assert(g * (-k00) == -(g * k00) && g * (-k01) == -(g * k01) && g * (-k10) == -(g * k10) && g * (
    -k11) == -(g * k11)) by (nonlinear_arith);
    assert(total == g * s0 + g * s1 + g * s2 + g * s3);
    assert(total == g * units) by (nonlinear_arith)
        requires
            total == g * s0 + g * s1 + g * s2 + g * s3,
            units == s0 + s1 + s2 + s3,
    ;
    if p != 1 {
        assert(total == 2 * (p * units)) by (nonlinear_arith)
            requires
                total == g * units,
                g == 2 * p,
        ;
    } else {
        assert(g * units == units) by (nonlinear_arith)
            requires
                g == 1,
        ;
        assert(p * units == units) by (nonlinear_arith)
            requires
                p == 1,
        ;
    }
    assert(-(4 * p * b) <= p * units <= 4 * p * b) by (nonlinear_arith)
        requires
            -(4 * b) <= units <= 4 * b,
            p >= 1,
    ;
}

/// A pixel of a block from its coefficients, once these are rounded and corrected.
proof fn lemma_pixel_from(
    h0: int,
    hx: int,
    hy: int,
    hc: int,
    h: int,
    x: int,
    y: int,
    p: int,
    i: int,
    j: int,
    wide: bool,
)
    requires
        ht::rounded(hc, p, ht::below_half(p, wide), wide) == hc,
        ht::nearer(
            ht::rounded(hx, 2 * p, ht::wrap(2 * p, wide) / 2 - 1, wide),
            ht::bit_at(hc, p, wide),
            wide,
        ) == x,
        ht::nearer(
            ht::rounded(hy, 2 * p, ht::wrap(2 * p, wide) / 2 - 1, wide),
            ht::bit_at(hc, p, wide),
            wide,
        ) == y,
        ht::corrected(
            h0,
            ht::bit_at(hc, p, wide),
            if ht::odd_bits(hc, x, y, 2 * p, wide) {
                ht::wrap(2 * p, wide)
            } else {
                0
            },
            wide,
        ) == h,
    ensures
        ht::pixel_of_four(h0, hx, hy, hc, p, i, j, wide) == ht::wrap(
            h + ht::signed(x, i == 1) + ht::signed(y, j == 1) + ht::signed(hc, i == j),
            wide,
        ) / ht::step_of(p),
{
}

/// The low bits of a sum are those of its differences.
proof fn lemma_low_bits(s: int, x: int, y: int, c: int, k11: int)
    requires
        s + x + y + c == 4 * k11,
        x % 2 == c % 2,
        y % 2 == c % 2,
    ensures
        s % 2 == c % 2,
        ((c / 2 + x / 2 + y / 2) % 2 == 1) == (s % 4 >= 2),
{
    let f = c / 2 + x / 2 + y / 2;
    let e = c % 2;
    assert(x + y + c == 2 * f + 3 * e);
    assert(s == 4 * k11 - 2 * f - 3 * e);
}

/// The bits that the inverse transform takes from the differences.
pub proof fn lemma_bits(c: int, x: int, y: int, p: int, wide: bool)
    requires
        p >= 1,
        4 * p < ht::modulus(wide),
    ensures
        ht::wrap(2 * p, wide) == 2 * p,
        ht::bit_at(p * c, p, wide) == if c % 2 == 1 {
            p
        } else {
            0
        },
        ht::odd_bits(p * c, p * x, p * y, 2 * p, wide) == ((c / 2 + x / 2 + y / 2) % 2 == 1),
{
    ht::lemma_wrap_fits(p, wide);
    ht::lemma_wrap_fits(2 * p, wide);
    lemma_quotients(p, c);
    lemma_quotients(p, x);
    lemma_quotients(p, y);
}

/// A signed sum of coefficients is a multiple of a pixel.
pub proof fn lemma_pixel_sum(
    p: int,
    b: int,
    s: int,
    x: int,
    y: int,
    c: int,
    k: int,
    i: int,
    j: int,
    wide: bool,
)
    requires
        roomy(p, b, wide),
        -b <= k <= b,
        s + ht::signed(x, i == 1) + ht::signed(y, j == 1) + ht::signed(c, i == j) == 4 * k,
    ensures
        ht::wrap(
            p * s + ht::signed(p * x, i == 1) + ht::signed(p * y, j == 1) + ht::signed(
                p * c,
                i == j,
            ),
            wide,
        ) / ht::step_of(p) == grain(p) * k,
{
    let g = grain(p);
    let (sx, sy, sc) = (
        ht::signed(x, i == 1),
        ht::signed(y, j == 1),
        ht::signed(c, i == j),
    );
    assert(p * (-x) == -(p * x) && p * (-y) == -(p * y) && p * (-c) == -(p * c))
        by (nonlinear_arith);
    let t = p * s + ht::signed(p * x, i == 1) + ht::signed(p * y, j == 1) + ht::signed(
        p * c,
        i == j,
    );
    assert(t == p * s + p * sx + p * sy + p * sc);
    assert(t == 4 * (p * k)) by (nonlinear_arith)
        requires
            t == p * s + p * sx + p * sy + p * sc,
            s + sx + sy + sc == 4 * k,
    ;
    lemma_pixel_size(p, k, b, t, wide);
    if p == 1 {
        assert(p * k == k && g * k == k) by (nonlinear_arith)
            requires
                p == 1,
                g == 1,
        ;
    } else {
        assert(g * k == 2 * (p * k)) by (nonlinear_arith)
            requires
                g == 2 * p,
        ;
    }
}

/// Four times a number of a level does not wrap.
proof fn lemma_pixel_size(p: int, k: int, b: int, t: int, wide: bool)
    requires
        roomy(p, b, wide),
        -b <= k <= b,
        t == 4 * (p * k),
    ensures
        ht::wrap(t, wide) == t,
{
    assert(-(8 * p * (b + 1)) < 2 * t < 8 * p * (b + 1)) by (nonlinear_arith)
        requires
            t == 4 * (p * k),
            -b <= k <= b,
            p >= 1,
    ;
    ht::lemma_wrap_fits(t, wide);
}

/// What a level needs does not wrap.
proof fn lemma_room(p: int, b: int, wide: bool)
    requires
        roomy(p, b, wide),
    ensures
        4 * p * b >= 0,
        2 * (4 * p * b + 4 * p) < ht::modulus(wide),
        8 * p < ht::modulus(wide),
{
    assert(2 * (4 * p * b + 4 * p) == 8 * p * (b + 1)) by (nonlinear_arith);
    assert(4 * p * b >= 0) by (nonlinear_arith)
        requires
            p >= 1,
            b >= 0,
    ;
}

/// The pixels of a 2x2 block come back from its coefficients.
proof fn lemma_four_back(
    k00: int,
    k01: int,
    k10: int,
    k11: int,
    p: int,
    b: int,
    i: int,
    j: int,
    wide: bool,
)
    requires
        roomy(p, b, wide),
        -b <= k00 <= b,
        -b <= k01 <= b,
        -b <= k10 <= b,
        -b <= k11 <= b,
        0 <= i <= 1,
        0 <= j <= 1,
    ensures
        ({
            let g = grain(p);
            let (h0, hx, hy, hc) = four(g * k00, g * k01, g * k10, g * k11, p);
            ht::pixel_of_four(h0, hx, hy, hc, p, i, j, wide) == g * (if i == 0 {
                if j == 0 {
                    k00
                } else {
                    k01
                }
            } else {
                if j == 0 {
                    k10
                } else {
                    k11
                }
            })
        }),
{
    let g = grain(p);
    let (s, x, y, c) = (
        k00 + k01 + k10 + k11,
        k10 + k11 - k00 - k01,
        k01 + k11 - k00 - k10,
        k00 + k11 - k01 - k10,
    );
    let n = 4 * p * b;
    let k = if i == 0 {
        if j == 0 {
            k00
        } else {
            k01
        }
    } else {
        if j == 0 {
            k10
        } else {
            k11
        }
    };
    lemma_units_four(k00, k01, k10, k11, p, b);
    lemma_room(p, b, wide);
    lemma_low_bits(s, x, y, c, k11);
    lemma_bits(c, x, y, p, wide);
    lemma_exact(p, c, n, wide);
    lemma_difference_back(p, x, c % 2, n, wide);
    lemma_difference_back(p, y, c % 2, n, wide);
    lemma_sum_back(p, s, n, wide);
    lemma_pixel_from(
        nearest(p * s, 4 * p),
        nearest(p * x, 2 * p),
        nearest(p * y, 2 * p),
        p * c,
        p * s,
        p * x,
        p * y,
        p,
        i,
        j,
        wide,
    );
    lemma_pixel_sum(p, b, s, x, y, c, k, i, j, wide);
}

/// The difference between the diagonals is rounded no further.
proof fn lemma_exact(p: int, c: int, n: int, wide: bool)
    requires
        p >= 1,
        p == 1 || p % 2 == 0,
        -n <= p * c <= n,
        2 * (n + 4 * p) < ht::modulus(wide),
    ensures
        ht::rounded(p * c, p, ht::below_half(p, wide), wide) == p * c,
{
    ht::lemma_wrap_fits(p, wide);
    lemma_rounded_multiple(p, c, ht::below_half(p, wide), wide);
}

/// What a pair gives, in units of `2p`.
proof fn lemma_units_two(ka: int, kb: int, p: int, b: int)
    requires
        p >= 1,
        p == 1 || p % 2 == 0,
        -b <= ka <= b,
        -b <= kb <= b,
    ensures
        weighed(grain(p) * ka + grain(p) * kb, 2, p) == (2 * p) * (ka + kb),
        weighed(grain(p) * kb - grain(p) * ka, 2, p) == (2 * p) * (kb - ka),
        -(4 * p * b) <= (2 * p) * (ka + kb) <= 4 * p * b,
        -(4 * p * b) <= (2 * p) * (kb - ka) <= 4 * p * b,
{
    let g = grain(p);
    let q = 2 * p;
    let (s, d) = (ka + kb, kb - ka);
    assert(g * ka + g * kb == g * s) by (nonlinear_arith)
        requires
            s == ka + kb,
    ;
    assert(g * kb - g * ka == g * d) by (nonlinear_arith)
        requires
            d == kb - ka,
    ;
    if p == 1 {
        assert(g * s == s && g * d == d && q * s == 2 * s && q * d == 2 * d) by (nonlinear_arith)
            requires
                g == 1,
                q == 2,
        ;
    }
    assert(-(4 * p * b) <= q * s <= 4 * p * b && -(4 * p * b) <= q * d <= 4 * p * b)
        by (nonlinear_arith)
        requires
            q == 2 * p,
            -(2 * b) <= s <= 2 * b,
            -(2 * b) <= d <= 2 * b,
            p >= 1,
    ;
}

/// The difference of a pair is rounded no further, and the sum is corrected by it.
proof fn lemma_pair_back(q: int, s: int, d: int, n: int, wide: bool)
    requires
        q >= 2,
        q % 2 == 0,
        s % 2 == d % 2,
        n >= 0,
        -n <= q * s <= n,
        -n <= q * d <= n,
        2 * (n + 2 * q) < ht::modulus(wide),
    ensures
        nearest(q * d, q) == q * d,
        ht::rounded(q * d, q, ht::wrap(q, wide) / 2 - 1, wide) == q * d,
        ht::nearer(nearest(q * s, 2 * q), ht::bit_at(q * d, q, wide), wide) == q * s,
{
    lemma_nearest_is(q, d);
    ht::lemma_wrap_fits(q, wide);
    lemma_rounded_multiple(q, d, ht::wrap(q, wide) / 2 - 1, wide);
    lemma_quotients(q, d);
    lemma_nearest_two(q, s);
    ht::lemma_wrap_fits(q * s, wide);
    if s % 2 == 1 && s < 0 {
        assert(nearest(q * s, 2 * q) < 0);
    }
}

/// The pixels of a pair come back from their coefficients.
proof fn lemma_two_back(ka: int, kb: int, p: int, b: int, i: int, wide: bool)
    requires
        roomy(p, b, wide),
        -b <= ka <= b,
        -b <= kb <= b,
        0 <= i <= 1,
    ensures
        ({
            let g = grain(p);
            let (h0, hd) = two(g * ka, g * kb, p);
            ht::pixel_of_two(h0, hd, p, i, wide) == g * (if i == 0 {
                ka
            } else {
                kb
            })
        }),
{
    let g = grain(p);
    let q = 2 * p;
    let (s, d) = (ka + kb, kb - ka);
    let n = 4 * p * b;
    lemma_units_two(ka, kb, p, b);
    lemma_room(p, b, wide);
    lemma_pair_back(q, s, d, n, wide);
    let k = if i == 0 {
        ka
    } else {
        kb
    };
    assert(q * (-d) == -(q * d)) by (nonlinear_arith);
    let sd = ht::signed(d, i == 1);
    let t = q * s + ht::signed(q * d, i == 1);
    assert(t == q * s + q * sd);
    assert(t == 4 * (p * k)) by (nonlinear_arith)
        requires
            t == q * s + q * sd,
            s + sd == 2 * k,
            q == 2 * p,
    ;
    lemma_pixel_size(p, k, b, t, wide);
    if p == 1 {
        assert(g * k == k && p * k == k) by (nonlinear_arith)
            requires
                g == 1,
                p == 1,
        ;
    } else {
        assert(g * k == 2 * (p * k)) by (nonlinear_arith)
            requires
                g == 2 * p,
        ;
    }
}

/// A multiple is its own nearest multiple.
pub proof fn lemma_nearest_is(m: int, k: int)
    requires
        m >= 2,
        m % 2 == 0,
    ensures
        nearest(m * k, m) == m * k,
{
    assert(k >= 0 ==> m * k >= 0) by (nonlinear_arith)
        requires
            m >= 2,
    ;
    assert(k < 0 ==> m * k < 0) by (nonlinear_arith)
        requires
            m >= 2,
    ;
    assert(m * (-k) == -(m * k)) by (nonlinear_arith);
    lemma_multiple(m, k, m / 2);
    lemma_multiple(m, -k, m / 2);
}

/// A pixel that stands alone comes back from its coefficient.
proof fn lemma_one_back(k: int, p: int, b: int)
    requires
        p >= 1,
        p == 1 || p % 2 == 0,
        b >= 0,
        -b <= k <= b,
    ensures
        one(grain(p) * k, p) / ht::step_of(p) == grain(p) * k,
        -(4 * p * b) <= weighed(grain(p) * k, 4, p) <= 4 * p * b,
{
    let g = grain(p);
    let m = 4 * p;
    if p == 1 {
        assert(g * k == k && m * k == 4 * k) by (nonlinear_arith)
            requires
                g == 1,
                m == 4,
        ;
    } else {
        assert(g * k * 4 == 2 * (m * k) && m * k == 2 * (g * k)) by (nonlinear_arith)
            requires
                g == 2 * p,
                m == 4 * p,
        ;
    }
    assert(weighed(g * k, 4, p) == m * k);
    lemma_nearest_is(m, k);
    assert(-(4 * p * b) <= m * k <= 4 * p * b) by (nonlinear_arith)
        requires
            m == 4 * p,
            -b <= k <= b,
            p >= 1,
    ;
}

proof fn lemma_unsorted(j: int, n: int)
    requires
        0 <= j < n,
    ensures
        0 <= ht::source(j, n) < n,
        unsorted(ht::source(j, n), n) == j,
        0 <= unsorted(j, n) < n,
        j < ht::half_up(n) ==> unsorted(j, n) == 2 * j,
{
}

/// No more cells than pixels.
proof fn lemma_few_cells(n: int, c: int)
    requires
        n >= 1,
        c >= 1,
    ensures
        1 <= ht::cells(n, c) <= n,
        c == 1 ==> ht::cells(n, c) == n,
{
    lemma_fundamental_div_mod(n + c - 1, c);
    let q = (n + c - 1) / c;
    assert(1 <= q <= n) by (nonlinear_arith)
        requires
            n + c - 1 == c * q + (n + c - 1) % c,
            0 <= (n + c - 1) % c < c,
            n >= 1,
            c >= 1,
    ;
    if c == 1 {
        assert(n / 1 == n);
    }
}

/// The coefficient of the forward transform that the inverse takes for a place.
proof fn lemma_coefficient(a: Seq<int>, nx: int, ny: int, p: int, i: int, j: int)
    requires
        nx >= 1,
        ny >= 1,
        p >= 1,
        a.len() == nx * ny,
        0 <= i < ht::cells(nx, p),
        0 <= j < ht::cells(ny, p),
    ensures
        ht::coefficient(
            forward_level(a, nx, ny, p),
            ny,
            ht::cells(nx, p),
            ht::cells(ny, p),
            i,
            j,
        ) == block_coefficient(a, ny, ht::cells(nx, p), ht::cells(ny, p), p, i, j),
{
    let nxt = ht::cells(nx, p);
    let nyt = ht::cells(ny, p);
    lemma_few_cells(nx, p);
    lemma_few_cells(ny, p);
    lemma_unsorted(i, nxt);
    lemma_unsorted(j, nyt);
    ht::lemma_position(ht::source(i, nxt), ht::source(j, nyt), nx, ny);
}

/// One level of the inverse transform undoes one level of the forward transform.
proof fn lemma_level_back(a: Seq<int>, nx: int, ny: int, p: int, b: int, wide: bool)
    requires
        nx >= 1,
        ny >= 1,
        a.len() == nx * ny,
        roomy(p, b, wide),
        ready(a, nx, ny, p, b),
    ensures
        ht::level(forward_level(a, nx, ny, p), nx, ny, p, wide) == a,
{
    let f = forward_level(a, nx, ny, p);
    let r = ht::level(f, nx, ny, p, wide);
    let nxt = ht::cells(nx, p);
    let nyt = ht::cells(ny, p);
    assert forall|k: int| 0 <= k < a.len() implies r[k] == a[k] by {
        ht::lemma_cell_of(k, nx, ny);
        let i = k / ny;
        let j = k % ny;
        if i < nxt && j < nyt {
            lemma_pixel_back(a, nx, ny, p, b, i, j, wide);
        }
    }
    assert(r =~= a);
}

/// One pixel comes back from a level.
#[verifier::spinoff_prover]
#[verifier::rlimit(40)]
proof fn lemma_pixel_back(
    a: Seq<int>,
    nx: int,
    ny: int,
    p: int,
    b: int,
    i: int,
    j: int,
    wide: bool,
)
    requires
        nx >= 1,
        ny >= 1,
        a.len() == nx * ny,
        roomy(p, b, wide),
        ready(a, nx, ny, p, b),
        0 <= i < ht::cells(nx, p),
        0 <= j < ht::cells(ny, p),
    ensures
        ht::level_pixel(
            forward_level(a, nx, ny, p),
            ny,
            ht::cells(nx, p),
            ht::cells(ny, p),
            p,
            i,
            j,
            wide,
        ) == a[i * ny + j],
{
    let nxt = ht::cells(nx, p);
    let nyt = ht::cells(ny, p);
    let i0 = i - i % 2;
    let j0 = j - j % 2;
    lemma_coefficient(a, nx, ny, p, i0, j0);
    let k00 = lemma_ready_at(a, nx, ny, p, b, i0, j0);
    if i0 + 1 < nxt {
        lemma_coefficient(a, nx, ny, p, i0 + 1, j0);
        let k10 = lemma_ready_at(a, nx, ny, p, b, i0 + 1, j0);
        if j0 + 1 < nyt {
            lemma_coefficient(a, nx, ny, p, i0, j0 + 1);
            lemma_coefficient(a, nx, ny, p, i0 + 1, j0 + 1);
            let k01 = lemma_ready_at(a, nx, ny, p, b, i0, j0 + 1);
            let k11 = lemma_ready_at(a, nx, ny, p, b, i0 + 1, j0 + 1);
            lemma_four_back(k00, k01, k10, k11, p, b, i % 2, j % 2, wide);
        } else {
            lemma_two_back(k00, k10, p, b, i % 2, wide);
        }
    } else {
        if j0 + 1 < nyt {
            lemma_coefficient(a, nx, ny, p, i0, j0 + 1);
            let k01 = lemma_ready_at(a, nx, ny, p, b, i0, j0 + 1);
            lemma_two_back(k00, k01, p, b, j % 2, wide);
        } else {
            lemma_one_back(k00, p, b);
        }
    }
}

/// The sums of a level are numbers of the next.
proof fn lemma_sums_held(a: Seq<int>, nx: int, ny: int, p: int, b: int, wide: bool)
    requires
        nx >= 1,
        ny >= 1,
        a.len() == nx * ny,
        roomy(p, b, wide),
        ready(a, nx, ny, p, b),
    ensures
        ready(forward_level(a, nx, ny, p), nx, ny, 2 * p, b),
        forward_level(a, nx, ny, p).len() == nx * ny,
{
    reveal(ready);
    let f = forward_level(a, nx, ny, p);
    let nxt = ht::cells(nx, p);
    let nyt = ht::cells(ny, p);
    assert((2 * p) / 2 == p);
    ht::lemma_cells(nx, 2 * p);
    ht::lemma_cells(ny, 2 * p);
    lemma_few_cells(nx, p);
    lemma_few_cells(ny, p);
    assert forall|i: int, j: int|
        0 <= i < ht::cells(nx, 2 * p) && 0 <= j < ht::cells(ny, 2 * p) implies held(
        #[trigger] f[i * ny + j],
        2 * p,
        b,
    ) by {
        ht::lemma_position(i, j, nx, ny);
        lemma_unsorted(i, nxt);
        lemma_unsorted(j, nyt);
        let x = block_coefficient(a, ny, nxt, nyt, p, 2 * i, 2 * j);
        assert(f[i * ny + j] == x);
        lemma_sum_held(a, nx, ny, p, b, 2 * i, 2 * j, wide);
    }
}

/// The sum of a block is a number of the next level.
proof fn lemma_sum_held(
    a: Seq<int>,
    nx: int,
    ny: int,
    p: int,
    b: int,
    i: int,
    j: int,
    wide: bool,
)
    requires
        nx >= 1,
        ny >= 1,
        roomy(p, b, wide),
        ready(a, nx, ny, p, b),
        0 <= i < ht::cells(nx, p),
        0 <= j < ht::cells(ny, p),
        i % 2 == 0,
        j % 2 == 0,
    ensures
        held(block_coefficient(a, ny, ht::cells(nx, p), ht::cells(ny, p), p, i, j), 2 * p, b),
{
    let nxt = ht::cells(nx, p);
    let nyt = ht::cells(ny, p);
    let g = grain(p);
    let k00 = lemma_ready_at(a, nx, ny, p, b, i, j);
    let raw = if i + 1 < nxt && j + 1 < nyt {
        let k10 = lemma_ready_at(a, nx, ny, p, b, i + 1, j);
        let k01 = lemma_ready_at(a, nx, ny, p, b, i, j + 1);
        let k11 = lemma_ready_at(a, nx, ny, p, b, i + 1, j + 1);
        lemma_units_four(k00, k01, k10, k11, p, b);
        weighed(g * k00 + g * k01 + g * k10 + g * k11, 1, p)
    } else if i + 1 < nxt {
        let k10 = lemma_ready_at(a, nx, ny, p, b, i + 1, j);
        lemma_units_two(k00, k10, p, b);
        weighed(g * k00 + g * k10, 2, p)
    } else if j + 1 < nyt {
        let k01 = lemma_ready_at(a, nx, ny, p, b, i, j + 1);
        lemma_units_two(k00, k01, p, b);
        weighed(g * k00 + g * k01, 2, p)
    } else {
        lemma_one_back(k00, p, b);
        weighed(g * k00, 4, p)
    };
    lemma_nearest_bound(raw, 4 * p, b);
    assert(block_coefficient(a, ny, nxt, nyt, p, i, j) == nearest(raw, 4 * p));
    assert(grain(2 * p) == 4 * p);
    let k = count_of(nearest(raw, 4 * p), 4 * p, b);
    assert(counts(nearest(raw, 4 * p), grain(2 * p), k, b));
}

proof fn lemma_roomy_half(p: int, q: int, b: int, wide: bool)
    requires
        roomy(q, b, wide),
        1 <= p <= q,
        p == 1 || p % 2 == 0,
    ensures
        roomy(p, b, wide),
{
    assert(8 * p * (b + 1) <= 8 * q * (b + 1)) by (nonlinear_arith)
        requires
            1 <= p <= q,
            b >= 0,
    ;
}

/// The levels of the forward transform up to `p` are undone from `p` down.
proof fn lemma_levels_back(a: Seq<int>, nx: int, ny: int, p: int, b: int, wide: bool)
    requires
        nx >= 1,
        ny >= 1,
        a.len() == nx * ny,
        ht::is_power(p),
        roomy(p, b, wide),
        ready(a, nx, ny, 1, b),
    ensures
        ht::levels(forward_levels(a, nx, ny, p), nx, ny, p, wide) == a,
        ready(forward_levels(a, nx, ny, p), nx, ny, 2 * p, b),
        forward_levels(a, nx, ny, p).len() == nx * ny,
    decreases p,
{
    let before = forward_levels(a, nx, ny, p / 2);
    if p == 1 {
        assert(before == a);
        assert(ht::levels(a, nx, ny, 0, wide) == a);
    } else {
        assert(ht::is_power(p / 2));
        lemma_roomy_half(p / 2, p, b, wide);
        lemma_levels_back(a, nx, ny, p / 2, b, wide);
    }
    lemma_level_back(before, nx, ny, p, b, wide);
    lemma_sums_held(before, nx, ny, p, b, wide);
}

pub proof fn lemma_power_above(n: int, c: int)
    requires
        ht::is_power(c),
    ensures
        ht::is_power(ht::power_above(n, c)),
        ht::power_above(n, c) >= c,
        ht::power_above(n, c) >= n,
    decreases
            if c < n {
                n - c
            } else {
                0
            },
{
    if c < n {
        assert((2 * c) / 2 == c);
        lemma_power_above(n, 2 * c);
    }
}

/// The inverse H-transform undoes the forward H-transform: the sums and differences of the
/// pixels of an image give its pixels back, where 32 or 64 bits hold the sums.
pub proof fn inverse_undoes_forward(pixels: Seq<int>, nx: int, ny: int, b: int, wide: bool)
    requires
        nx >= 1,
        ny >= 1,
        nx > 1 || ny > 1,
        pixels.len() == nx * ny,
        b >= 0,
        forall|k: int| 0 <= k < pixels.len() ==> -b <= #[trigger] pixels[k] <= b,
        4 * top_of(nx, ny) * (b + 1) < ht::modulus(wide),
    ensures
        ht::inverse(forward(pixels, nx, ny), nx, ny, wide) == pixels,
{
    let n = if nx < ny {
        ny
    } else {
        nx
    };
    let top = top_of(nx, ny);
    if n > 1 {
        lemma_power_above(n, 1);
        let p = top / 2;
        assert(top == 2 * p);
        assert(8 * p * (b + 1) == 4 * top * (b + 1));
        assert(ht::is_power(p));
        assert(roomy(p, b, wide));
        reveal(ready);
        lemma_few_cells(nx, 1);
        lemma_few_cells(ny, 1);
        assert forall|i: int, j: int|
            0 <= i < ht::cells(nx, 1) && 0 <= j < ht::cells(ny, 1) implies held(
            #[trigger] pixels[i * ny + j],
            1,
            b,
        ) by {
            ht::lemma_position(i, j, nx, ny);
            let v = pixels[i * ny + j];
            assert(counts(v, grain(1), v, b));
        }
        lemma_levels_back(pixels, nx, ny, p, b, wide);
        let f = forward(pixels, nx, ny);
        // The sum of all pixels is rounded already.
        ht::lemma_cells(nx, top);
        ht::lemma_cells(ny, top);
        assert(nx * ny >= 1) by (nonlinear_arith)
            requires
                nx >= 1,
                ny >= 1,
        ;
        assert(held(f[0 * ny + 0], top, b));
        let k = count_of(f[0], grain(top), b);
        let m = 2 * top;
        assert(-(m * b) <= m * k <= m * b) by (nonlinear_arith)
            requires
                -b <= k <= b,
                m >= 1,
        ;
        assert(2 * (m * b) + 2 * m == 4 * top * (b + 1)) by (nonlinear_arith)
            requires
                m == 2 * top,
        ;
        assert(m * b >= 0) by (nonlinear_arith)
            requires
                m >= 1,
                b >= 0,
        ;
        ht::lemma_wrap_fits(m, wide);
        lemma_rounded_multiple(m, k, ht::wrap(m, wide) / 2 - 1, wide);
        assert(f.update(0, f[0]) =~= f);
    }
}

} // verus!
