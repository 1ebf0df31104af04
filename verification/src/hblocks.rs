//! What the inverse H-transform makes of any coefficients.
use crate::hforward;
use crate::htransform as ht;
use vstd::arithmetic::div_mod::*;
use vstd::prelude::*;

verus! {

/// A nearest multiple in units.
proof fn lemma_nearest_unit(x: int, m: int) -> (k: int)
    requires
        m >= 1,
    ensures
        hforward::nearest(x, m) == m * k,
        -m <= 2 * (m * k - x) <= m,
        k >= 0 <==> hforward::nearest(x, m) >= 0,
{
    let y = if x >= 0 {
        x
    } else {
        -x
    };
    let q = (y + m / 2) / m;
    lemma_fundamental_div_mod(y + m / 2, m);
    assert(0 <= q && m * q >= 0) by (nonlinear_arith)
        requires
            y + m / 2 == m * q + (y + m / 2) % m,
            0 <= (y + m / 2) % m < m,
            0 <= y,
            0 <= m / 2,
            m >= 1,
    ;
    assert(m * (-q) == -(m * q)) by (nonlinear_arith);
    assert(q > 0 ==> m * q > 0) by (nonlinear_arith)
        requires
            m >= 1,
    ;
    if x >= 0 {
        q
    } else {
        -q
    }
}

/// A coefficient is rounded to the nearest multiple, and away from zero where two are as
/// near.
pub proof fn rounding_is_nearest(x: int, m: int, wide: bool)
    requires
        m >= 2,
        m % 2 == 0,
        -ht::modulus(wide) <= 2 * x,
        2 * x + 2 * m < ht::modulus(wide),
        2 * m < ht::modulus(wide),
    ensures
        ht::rounded(x, m, m / 2 - 1, wide) == hforward::nearest(x, m),
{
    ht::lemma_wrap_fits(m, wide);
    if x >= 0 {
        let y = x + m / 2;
        ht::lemma_wrap_fits(y, wide);
        lemma_fundamental_div_mod(y, m);
    } else {
        let u = -x + m / 2;
        let y = x + m / 2 - 1;
        ht::lemma_wrap_fits(y, wide);
        lemma_fundamental_div_mod(u, m);
        let q = u / m;
        let r = u % m;
        assert(m * (-q) == -(m * q)) by (nonlinear_arith);
        hforward::lemma_multiple(m, -q, m - 1 - r);
    }
}

/// A coefficient settled by less than `d`, or by `d` towards zero.
pub open spec fn settled(x: int, r: int, d: int) -> bool {
    if r >= 0 {
        r - d <= x < r + d
    } else {
        r - d < x <= r + d
    }
}

/// What the inverse transform makes of a difference, in units of `p`.
proof fn lemma_settled_difference(hx: int, p: int, e: int, n: int, wide: bool) -> (k: int)
    requires
        p >= 1,
        n >= 0,
        -(p * n) <= hx <= p * n,
        e == 0 || e == 1,
        8 * p * (n + 3) < ht::modulus(wide),
    ensures
        ht::nearer(
            ht::rounded(hx, 2 * p, ht::wrap(2 * p, wide) / 2 - 1, wide),
            if e == 1 {
                p
            } else {
                0
            },
            wide,
        ) == p * k,
        settled(p * k, hforward::nearest(hx, 2 * p), p),
        k % 2 == e,
        -(n + 2) <= k <= n + 2,
{
    let m = 2 * p;
    assert(8 * (p * n) + 24 * p < ht::modulus(wide) && p * n >= 0) by (nonlinear_arith)
        requires
            8 * p * (n + 3) < ht::modulus(wide),
            p >= 1,
            n >= 0,
    ;
    ht::lemma_wrap_fits(m, wide);
    rounding_is_nearest(hx, m, wide);
    let u = lemma_nearest_unit(hx, m);
    let k = if u >= 0 {
        2 * u - e
    } else {
        2 * u + e
    };
    let r = hforward::nearest(hx, m);
    let low = if e == 1 {
        p
    } else {
        0
    };
    assert(p * k == if u >= 0 {
        r - low
    } else {
        r + low
    }) by (nonlinear_arith)
        requires
            r == m * u,
            m == 2 * p,
            e == 1 && low == p || e == 0 && low == 0,
            u >= 0 && k == 2 * u - e || u < 0 && k == 2 * u + e,
    ;
    ht::lemma_wrap_fits(p * k, wide);
    assert(-(n + 2) <= k <= n + 2) by (nonlinear_arith)
        requires
            -(p * n) - p <= m * u <= p * n + p,
            m == 2 * p,
            p >= 1,
            e == 0 || e == 1,
            k == 2 * u - e || k == 2 * u + e,
    ;
    k
}

/// What the inverse transform makes of the sum of a block, in units of `p`.
proof fn lemma_settled_sum(k0: int, p: int, e: int, o: int, n: int, wide: bool) -> (s: int)
    requires
        p >= 1,
        n >= 0,
        -n <= 4 * k0 <= n,
        e == 0 || e == 1,
        o == 0 || o == 1,
        8 * p * (n + 3) < ht::modulus(wide),
    ensures
        ht::corrected(
            4 * p * k0,
            if e == 1 {
                p
            } else {
                0
            },
            if o == 1 {
                2 * p
            } else {
                0
            },
            wide,
        ) == p * s,
        settled(p * s, 4 * p * k0, 2 * p),
        (s - 4 * k0 - e - 2 * o) % 4 == 0,
        -(n + 2) <= s <= n + 2,
{
    let s = if k0 >= 0 || e == 1 {
        4 * k0 + e - 2 * o
    } else {
        4 * k0 + 2 * o
    };
    let h0 = 4 * p * k0;
    let low0 = if e == 1 {
        p
    } else {
        0
    };
    let low1 = if o == 1 {
        2 * p
    } else {
        0
    };
    assert(p * s == if k0 >= 0 || e == 1 {
        h0 + low0 - low1
    } else {
        h0 + low1
    }) by (nonlinear_arith)
        requires
            h0 == 4 * p * k0,
            e == 1 && low0 == p || e == 0 && low0 == 0,
            o == 1 && low1 == 2 * p || o == 0 && low1 == 0,
            (k0 >= 0 || e == 1) && s == 4 * k0 + e - 2 * o || !(k0 >= 0 || e == 1) && s == 4 * k0 + 2
                * o,
    ;
    assert(h0 >= 0 <==> k0 >= 0) by (nonlinear_arith)
        requires
            h0 == 4 * p * k0,
            p >= 1,
    ;
    assert(-(p * n) <= h0 <= p * n && 8 * (p * n) + 24 * p < ht::modulus(wide))
        by (nonlinear_arith)
        requires
            h0 == 4 * p * k0,
            -n <= 4 * k0 <= n,
            8 * p * (n + 3) < ht::modulus(wide),
            p >= 1,
    ;
    ht::lemma_wrap_fits(h0 + low0, wide);
    ht::lemma_wrap_fits(h0 + low0 - low1, wide);
    ht::lemma_wrap_fits(h0 + low1, wide);
    ht::lemma_wrap_fits(low0 - low1, wide);
    s
}

/// What the pixels of a 2x2 block are, whatever its coefficients. The difference `c` of the
/// diagonals is rounded to a multiple of `p`; those of the rows and of the columns, `x` and
/// `y`, are rounded to multiples of `2p` and then settled so that they are as odd as `c`, in
/// units of `p`; and the sum `h` is settled so that all pixels are whole.
pub proof fn block_pixels(k0: int, hx: int, hy: int, hc: int, p: int, n: int, wide: bool) -> (r: (
    int,
    int,
    int,
    int,
))
    requires
        p >= 1,
        p == 1 || p % 2 == 0,
        n >= 0,
        -n <= 4 * k0 <= n,
        -(p * n) <= hx <= p * n,
        -(p * n) <= hy <= p * n,
        -(p * n) <= hc <= p * n,
        8 * p * (n + 3) < ht::modulus(wide),
    ensures
        ({
            let (h, x, y, c) = r;
            let h0 = 4 * p * k0;
            let s = if p == 1 {
                4int
            } else {
                2
            };
            &&& s * ht::pixel_of_four(h0, hx, hy, hc, p, 0, 0, wide) == h - x - y + c
            &&& s * ht::pixel_of_four(h0, hx, hy, hc, p, 0, 1, wide) == h - x + y - c
            &&& s * ht::pixel_of_four(h0, hx, hy, hc, p, 1, 0, wide) == h + x - y - c
            &&& s * ht::pixel_of_four(h0, hx, hy, hc, p, 1, 1, wide) == h + x + y + c
            &&& c == hforward::nearest(hc, p)
            &&& settled(x, hforward::nearest(hx, 2 * p), p)
            &&& settled(y, hforward::nearest(hy, 2 * p), p)
            &&& settled(h, h0, 2 * p)
            &&& (x - c) % (2 * p) == 0
            &&& (y - c) % (2 * p) == 0
            &&& (h + x + y + c) % (4 * p) == 0
        }),
{
    let h0 = 4 * p * k0;
    let c = lemma_rounded_diagonal(hc, p, n, wide);
    let e = c % 2;
    let x = lemma_settled_difference(hx, p, e, n, wide);
    let y = lemma_settled_difference(hy, p, e, n, wide);
    let f = c / 2 + x / 2 + y / 2;
    let o = f % 2;
    let s = lemma_settled_sum(k0, p, e, o, n, wide);
    assert(hforward::roomy(p, n + 1, wide) && 4 * p < ht::modulus(wide)) by (nonlinear_arith)
        requires
            p >= 1,
            p == 1 || p % 2 == 0,
            n >= 0,
            8 * p * (n + 3) < ht::modulus(wide),
    ;
    hforward::lemma_bits(c, x, y, p, wide);
    lemma_whole_sum(k0, s, x, y, c);
    lemma_settled_pixel(h0, hx, hy, hc, s, x, y, c, p, n, 0, 0, wide);
    lemma_settled_pixel(h0, hx, hy, hc, s, x, y, c, p, n, 0, 1, wide);
    lemma_settled_pixel(h0, hx, hy, hc, s, x, y, c, p, n, 1, 0, wide);
    lemma_settled_pixel(h0, hx, hy, hc, s, x, y, c, p, n, 1, 1, wide);
    lemma_unit_multiple(p, x - c, 2);
    lemma_unit_multiple(p, y - c, 2);
    lemma_unit_multiple(p, s + x + y + c, 4);
    assert(p * (x - c) == p * x - p * c && p * (y - c) == p * y - p * c && p * (s + x + y + c) == p
        * s + p * x + p * y + p * c) by (nonlinear_arith);
    (p * s, p * x, p * y, p * c)
}

/// The settled sum makes up for the low bits of the differences.
proof fn lemma_whole_sum(k0: int, s: int, x: int, y: int, c: int)
    requires
        x % 2 == c % 2,
        y % 2 == c % 2,
        (s - 4 * k0 - c % 2 - 2 * ((c / 2 + x / 2 + y / 2) % 2)) % 4 == 0,
    ensures
        (s + x + y + c) % 4 == 0,
        (x - c) % 2 == 0,
        (y - c) % 2 == 0,
{
    let e = c % 2;
    let f = c / 2 + x / 2 + y / 2;
    let o = f % 2;
    assert(x + y + c == 2 * f + 3 * e);
    let q = (s - 4 * k0 - e - 2 * o) / 4;
    assert(s == 4 * q + 4 * k0 + e + 2 * o);
    assert(f == 2 * (f / 2) + o);
    assert(s + x + y + c == 4 * (q + k0 + e + o + f / 2));
}

/// A multiple of `u` times `p` is a multiple of `p` times `u`.
proof fn lemma_unit_multiple(p: int, v: int, u: int)
    requires
        p >= 1,
        u >= 1,
        v % u == 0,
    ensures
        (p * v) % (u * p) == 0,
{
    lemma_fundamental_div_mod(v, u);
    let q = v / u;
    assert(p * v == q * (u * p)) by (nonlinear_arith)
        requires
            v == u * q,
    ;
    assert(u * p >= 1) by (nonlinear_arith)
        requires
            p >= 1,
            u >= 1,
    ;
    lemma_mod_multiples_basic(q, u * p);
}

/// What the inverse transform makes of the difference of the diagonals, in units of `p`.
proof fn lemma_rounded_diagonal(hc: int, p: int, n: int, wide: bool) -> (c: int)
    requires
        p >= 1,
        p == 1 || p % 2 == 0,
        n >= 0,
        -(p * n) <= hc <= p * n,
        8 * p * (n + 3) < ht::modulus(wide),
    ensures
        ht::rounded(hc, p, ht::below_half(p, wide), wide) == p * c,
        hforward::nearest(hc, p) == p * c,
        -(n + 1) <= c <= n + 1,
{
    assert(8 * (p * n) + 24 * p < ht::modulus(wide) && p * n >= 0) by (nonlinear_arith)
        requires
            8 * p * (n + 3) < ht::modulus(wide),
            p >= 1,
            n >= 0,
    ;
    let c = lemma_nearest_unit(hc, p);
    assert(-(n + 1) <= c <= n + 1) by (nonlinear_arith)
        requires
            -(p * n) - p <= p * c <= p * n + p,
            p >= 1,
    ;
    ht::lemma_wrap_fits(p, wide);
    if p == 1 {
        ht::lemma_wrap_fits(hc, wide);
        assert(hc / 1 == hc && -hc / 1 == -hc);
        assert(1 * hc == hc && 1 * (-hc) == -hc);
    } else {
        rounding_is_nearest(hc, p, wide);
    }
    c
}

/// Settled coefficients make whole pixels.
proof fn lemma_whole_pixel(s: int, x: int, y: int, c: int, n: int, i: int, j: int) -> (k: int)
    requires
        -(n + 2) <= s <= n + 2,
        -(n + 2) <= x <= n + 2,
        -(n + 2) <= y <= n + 2,
        -(n + 1) <= c <= n + 1,
        0 <= i <= 1,
        0 <= j <= 1,
        x % 2 == c % 2,
        y % 2 == c % 2,
        (s + x + y + c) % 4 == 0,
    ensures
        s + ht::signed(x, i == 1) + ht::signed(y, j == 1) + ht::signed(c, i == j) == 4 * k,
        -(n + 1) <= k <= n + 1,
{
    let m = (s + x + y + c) / 4;
    assert((x + y) % 2 == 0 && (x + c) % 2 == 0 && (y + c) % 2 == 0);
    let (a, b, d) = ((x + y) / 2, (y + c) / 2, (x + c) / 2);
    if i == 1 && j == 1 {
        m
    } else if i == 1 {
        m - b
    } else if j == 1 {
        m - d
    } else {
        m - a
    }
}

/// A pixel of a block from its rounded coefficients.
proof fn lemma_pixel_of(
    h0: int,
    hx: int,
    hy: int,
    hc: int,
    h: int,
    x: int,
    y: int,
    c: int,
    p: int,
    i: int,
    j: int,
    wide: bool,
)
    requires
        ht::rounded(hc, p, ht::below_half(p, wide), wide) == c,
        ht::nearer(
            ht::rounded(hx, 2 * p, ht::wrap(2 * p, wide) / 2 - 1, wide),
            ht::bit_at(c, p, wide),
            wide,
        ) == x,
        ht::nearer(
            ht::rounded(hy, 2 * p, ht::wrap(2 * p, wide) / 2 - 1, wide),
            ht::bit_at(c, p, wide),
            wide,
        ) == y,
        ht::corrected(
            h0,
            ht::bit_at(c, p, wide),
            if ht::odd_bits(c, x, y, 2 * p, wide) {
                ht::wrap(2 * p, wide)
            } else {
                0
            },
            wide,
        ) == h,
    ensures
        ht::pixel_of_four(h0, hx, hy, hc, p, i, j, wide) == ht::wrap(
            h + ht::signed(x, i == 1) + ht::signed(y, j == 1) + ht::signed(c, i == j),
            wide,
        ) / ht::step_of(p),
{
}

/// A pixel of a block from its settled coefficients.
proof fn lemma_settled_pixel(
    h0: int,
    hx: int,
    hy: int,
    hc: int,
    s: int,
    x: int,
    y: int,
    c: int,
    p: int,
    n: int,
    i: int,
    j: int,
    wide: bool,
)
    requires
        hforward::roomy(p, n + 1, wide),
        -(n + 2) <= s <= n + 2,
        -(n + 2) <= x <= n + 2,
        -(n + 2) <= y <= n + 2,
        -(n + 1) <= c <= n + 1,
        0 <= i <= 1,
        0 <= j <= 1,
        x % 2 == c % 2,
        y % 2 == c % 2,
        (s + x + y + c) % 4 == 0,
        ht::rounded(hc, p, ht::below_half(p, wide), wide) == p * c,
        ht::nearer(
            ht::rounded(hx, 2 * p, ht::wrap(2 * p, wide) / 2 - 1, wide),
            ht::bit_at(p * c, p, wide),
            wide,
        ) == p * x,
        ht::nearer(
            ht::rounded(hy, 2 * p, ht::wrap(2 * p, wide) / 2 - 1, wide),
            ht::bit_at(p * c, p, wide),
            wide,
        ) == p * y,
        ht::corrected(
            h0,
            ht::bit_at(p * c, p, wide),
            if ht::odd_bits(p * c, p * x, p * y, 2 * p, wide) {
                ht::wrap(2 * p, wide)
            } else {
                0
            },
            wide,
        ) == p * s,
    ensures
        (if p == 1 {
            4int
        } else {
            2
        }) * ht::pixel_of_four(h0, hx, hy, hc, p, i, j, wide) == p * s + ht::signed(p * x, i == 1)
            + ht::signed(p * y, j == 1) + ht::signed(p * c, i == j),
{
    let k = lemma_whole_pixel(s, x, y, c, n, i, j);
    hforward::lemma_pixel_sum(p, n + 1, s, x, y, c, k, i, j, wide);
    lemma_pixel_of(h0, hx, hy, hc, p * s, p * x, p * y, p * c, p, i, j, wide);
    let g = hforward::grain(p);
    let v = ht::pixel_of_four(h0, hx, hy, hc, p, i, j, wide);
    assert(v == g * k);
    lemma_scaled_pixel(p, s, x, y, c, k, i, j);
}

/// Four times a pixel in units of the level.
proof fn lemma_scaled_pixel(p: int, s: int, x: int, y: int, c: int, k: int, i: int, j: int)
    requires
        p >= 1,
        s + ht::signed(x, i == 1) + ht::signed(y, j == 1) + ht::signed(c, i == j) == 4 * k,
    ensures
        (if p == 1 {
            4int
        } else {
            2
        }) * (hforward::grain(p) * k) == p * s + ht::signed(p * x, i == 1) + ht::signed(
            p * y,
            j == 1,
        ) + ht::signed(p * c, i == j),
{
    let g = hforward::grain(p);
    let (sx, sy, sc) = (
        ht::signed(x, i == 1),
        ht::signed(y, j == 1),
        ht::signed(c, i == j),
    );
    assert(p * (-x) == -(p * x) && p * (-y) == -(p * y) && p * (-c) == -(p * c))
        by (nonlinear_arith);
    assert(p * s + p * sx + p * sy + p * sc == 4 * (p * k)) by (nonlinear_arith)
        requires
            s + sx + sy + sc == 4 * k,
    ;
    if p == 1 {
        assert(p * k == k && g * k == k) by (nonlinear_arith)
            requires
                p == 1,
                g == 1,
        ;
    } else {
        assert(g * k == 2 * (p * k)) by (nonlinear_arith)
            requires
                g == 2 * p,
        ;
    }
}

/// What the two pixels of a pair are, whatever their coefficients: their difference is rounded
/// to a multiple of `2p`, and their sum is settled so that both are whole.
pub proof fn pair_pixels(k0: int, hd: int, p: int, n: int, wide: bool) -> (r: (int, int))
    requires
        p >= 1,
        p == 1 || p % 2 == 0,
        n >= 0,
        -n <= 4 * k0 <= n,
        -(p * n) <= hd <= p * n,
        8 * p * (n + 3) < ht::modulus(wide),
    ensures
        ({
            let (h, d) = r;
            let h0 = 4 * p * k0;
            let s = if p == 1 {
                4int
            } else {
                2
            };
            &&& s * ht::pixel_of_two(h0, hd, p, 0, wide) == h - d
            &&& s * ht::pixel_of_two(h0, hd, p, 1, wide) == h + d
            &&& d == hforward::nearest(hd, 2 * p)
            &&& settled(h, h0, 2 * p)
            &&& (h + d) % (4 * p) == 0
        }),
{
    let q = 2 * p;
    let h0 = 4 * p * k0;
    let (m, k) = lemma_settled_pair(k0, hd, p, n, wide);
    let (h, d) = (q * m, q * k);
    lemma_unit_multiple(q, m + k, 2);
    let (u, v) = ((m + k) / 2, (m - k) / 2);
    assert(q * (m + k) == h + d && h + d == 4 * (p * u) && h - d == 4 * (p * v) && 2 * q == 4 * p)
        by (nonlinear_arith)
        requires
            h == q * m,
            d == q * k,
            m + k == 2 * u,
            m - k == 2 * v,
            q == 2 * p,
    ;
    ht::lemma_wrap_fits(h + d, wide);
    ht::lemma_wrap_fits(h - d, wide);
    lemma_pixel_of_pair(h0, hd, h, d, p, 0, p * v, wide);
    lemma_pixel_of_pair(h0, hd, h, d, p, 1, p * u, wide);
    (h, d)
}

/// A pixel of a pair from its rounded coefficients.
proof fn lemma_pixel_of_pair(
    h0: int,
    hd: int,
    h: int,
    d: int,
    p: int,
    i: int,
    w: int,
    wide: bool,
)
    requires
        ht::rounded(hd, 2 * p, ht::wrap(2 * p, wide) / 2 - 1, wide) == d,
        ht::nearer(h0, ht::bit_at(d, 2 * p, wide), wide) == h,
        h + ht::signed(d, i == 1) == 4 * w,
        ht::wrap(4 * w, wide) == 4 * w,
    ensures
        (if p == 1 {
            4int
        } else {
            2
        }) * ht::pixel_of_two(h0, hd, p, i, wide) == 4 * w,
{
    assert(4 * w / 4 == w && 4 * w / 2 == 2 * w);
}

/// What the inverse transform makes of the coefficients of a pair, in units of `2p`.
proof fn lemma_settled_pair(k0: int, hd: int, p: int, n: int, wide: bool) -> (r: (int, int))
    requires
        p >= 1,
        p == 1 || p % 2 == 0,
        n >= 0,
        -n <= 4 * k0 <= n,
        -(p * n) <= hd <= p * n,
        8 * p * (n + 3) < ht::modulus(wide),
    ensures
        ({
            let (m, k) = r;
            let q = 2 * p;
            let d = ht::rounded(hd, q, ht::wrap(q, wide) / 2 - 1, wide);
            &&& d == q * k
            &&& d == hforward::nearest(hd, q)
            &&& ht::nearer(4 * p * k0, ht::bit_at(d, q, wide), wide) == q * m
            &&& settled(q * m, 4 * p * k0, q)
            &&& (m + k) % 2 == 0
            &&& (m - k) % 2 == 0
            &&& -(p * n) - 2 * p <= q * m <= p * n + 2 * p
            &&& -(p * n) - 2 * p <= q * k <= p * n + 2 * p
            &&& 8 * (p * n) + 24 * p < ht::modulus(wide)
        }),
{
    let q = 2 * p;
    let h0 = 4 * p * k0;
    assert(8 * (p * n) + 24 * p < ht::modulus(wide) && p * n >= 0 && -(p * n) <= h0 <= p * n)
        by (nonlinear_arith)
        requires
            8 * p * (n + 3) < ht::modulus(wide),
            p >= 1,
            n >= 0,
            h0 == 4 * p * k0,
            -n <= 4 * k0 <= n,
    ;
    assert(h0 >= 0 <==> k0 >= 0) by (nonlinear_arith)
        requires
            h0 == 4 * p * k0,
            p >= 1,
    ;
    ht::lemma_wrap_fits(q, wide);
    rounding_is_nearest(hd, q, wide);
    let k = lemma_nearest_unit(hd, q);
    let d = q * k;
    hforward::lemma_multiple(q, k, 0);
    let e = k % 2;
    let m = if k0 >= 0 {
        2 * k0 - e
    } else {
        2 * k0 + e
    };
    let h = q * m;
    let low = if e == 1 {
        q
    } else {
        0
    };
    assert(h == if k0 >= 0 {
        h0 - low
    } else {
        h0 + low
    }) by (nonlinear_arith)
        requires
            h0 == 4 * p * k0,
            q == 2 * p,
            h == q * m,
            e == 1 && low == q || e == 0 && low == 0,
            k0 >= 0 && m == 2 * k0 - e || k0 < 0 && m == 2 * k0 + e,
    ;
    ht::lemma_wrap_fits(h, wide);
    assert(ht::bit_at(d, q, wide) == low);
    assert(m % 2 == e);
    (m, k)
}

/// The sum of all pixels is first rounded to the nearest multiple of twice the greatest cell.
pub proof fn sum_of_all_is_rounded(a: Seq<int>, nx: int, ny: int, wide: bool)
    requires
        a.len() > 0,
        ({
            let m = 2 * hforward::top_of(nx, ny);
            &&& m % 2 == 0
            &&& m >= 2
            &&& -ht::modulus(wide) <= 2 * a[0]
            &&& 2 * a[0] + 2 * m < ht::modulus(wide)
            &&& -ht::modulus(wide) <= 2 * a[0] - 2 * m
            &&& 4 * m < ht::modulus(wide)
            &&& 2 * a[0] + 4 * m < ht::modulus(wide)
        }),
    ensures
        ht::inverse(a, nx, ny, wide) == ht::inverse(
            a.update(0, hforward::nearest(a[0], 2 * hforward::top_of(nx, ny))),
            nx,
            ny,
            wide,
        ),
{
    let m = 2 * hforward::top_of(nx, ny);
    let r = hforward::nearest(a[0], m);
    let b = a.update(0, r);
    ht::lemma_wrap_fits(m, wide);
    rounding_is_nearest(a[0], m, wide);
    let k = lemma_nearest_unit(a[0], m);
    rounding_is_nearest(r, m, wide);
    hforward::lemma_nearest_is(m, k);
    assert(a.update(0, r) =~= b.update(0, r));
}

} // verus!
