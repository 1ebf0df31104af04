//! Multi-dimensional index arithmetic (first axis fastest) and the division of
//! an image into tiles.
use vstd::prelude::*;

verus! {

/// Product of the axis lengths.
pub open spec fn volume(dims: Seq<usize>) -> nat
    decreases dims.len(),
{
    if dims.len() == 0 {
        1
    } else {
        (dims[0] * volume(dims.skip(1))) as nat
    }
}

/// An axis length of zero counts as one.
pub open spec fn at_least_one(n: usize) -> int {
    if n == 0 {
        1
    } else {
        n as int
    }
}

/// Coordinates that lie in a box of the given dimensions.
pub open spec fn within(coords: Seq<int>, dims: Seq<usize>) -> bool {
    &&& coords.len() == dims.len()
    &&& forall|a: int| 0 <= a < dims.len() ==> 0 <= #[trigger] coords[a] < dims[a]
}

/// The position of coordinates in a flat array, first axis fastest.
pub open spec fn flat(coords: Seq<int>, dims: Seq<usize>) -> int
    decreases dims.len(),
{
    if dims.len() == 0 {
        0
    } else {
        coords[0] + dims[0] * flat(coords.skip(1), dims.skip(1))
    }
}

/// The coordinates of a position in a flat array, first axis fastest.
pub open spec fn unflat(index: int, dims: Seq<usize>) -> Seq<int>
    decreases dims.len(),
{
    if dims.len() == 0 {
        Seq::empty()
    } else {
        seq![index % at_least_one(dims[0])] + unflat(index / at_least_one(dims[0]), dims.skip(1))
    }
}

proof fn lemma_unflat_len(index: int, dims: Seq<usize>)
    ensures
        unflat(index, dims).len() == dims.len(),
    decreases dims.len(),
{
    if dims.len() > 0 {
        lemma_unflat_len(index / at_least_one(dims[0]), dims.skip(1));
    }
}

/// Coordinates in the box have a position in the array.
proof fn lemma_flat_bound(coords: Seq<int>, dims: Seq<usize>)
    requires
        within(coords, dims),
    ensures
        0 <= flat(coords, dims) < volume(dims),
    decreases dims.len(),
{
    if dims.len() > 0 {
        let c = coords.skip(1);
        let d = dims.skip(1);
        assert(within(c, d)) by {
            assert forall|a: int| 0 <= a < d.len() implies 0 <= #[trigger] c[a] < d[a] by {
                assert(c[a] == coords[a + 1] && d[a] == dims[a + 1]);
            }
        }
        lemma_flat_bound(c, d);
        let f = flat(c, d);
        let v = volume(d) as int;
        let n = dims[0] as int;
        assert(0 <= coords[0] < n);
        assert(0 <= coords[0] + n * f < n * v) by (nonlinear_arith)
            requires
                0 <= coords[0] < n,
                0 <= f < v,
        ;
    }
}

/// The coordinates of a position are those whose position it is.
pub proof fn unflat_inverts_flat(coords: Seq<int>, dims: Seq<usize>)
    requires
        within(coords, dims),
    ensures
        unflat(flat(coords, dims), dims) == coords,
    decreases dims.len(),
{
    if dims.len() == 0 {
        assert(unflat(flat(coords, dims), dims) =~= coords);
    } else {
        let c = coords.skip(1);
        let d = dims.skip(1);
        assert(within(c, d)) by {
            assert forall|a: int| 0 <= a < d.len() implies 0 <= #[trigger] c[a] < d[a] by {
                assert(c[a] == coords[a + 1] && d[a] == dims[a + 1]);
            }
        }
        unflat_inverts_flat(c, d);
        let f = flat(c, d);
        let n = dims[0] as int;
        assert(0 <= coords[0] < n);
        vstd::arithmetic::div_mod::lemma_fundamental_div_mod_converse(
            coords[0] + n * f,
            n,
            f,
            coords[0],
        );
        assert(unflat(flat(coords, dims), dims) =~= coords);
    }
}

/// The position of the coordinates of a position is that position.
pub proof fn flat_inverts_unflat(index: int, dims: Seq<usize>)
    requires
        0 <= index < volume(dims),
    ensures
        within(unflat(index, dims), dims),
        flat(unflat(index, dims), dims) == index,
    decreases dims.len(),
{
    lemma_unflat_len(index, dims);
    if dims.len() > 0 {
        let n = dims[0] as int;
        let d = dims.skip(1);
        let v = volume(d) as int;
        assert(n > 0) by (nonlinear_arith)
            requires
                n >= 0,
                0 <= index < n * v,
        ;
        assert(0 <= index / n < v) by (nonlinear_arith)
            requires
                n > 0,
                0 <= index < n * v,
        ;
        flat_inverts_unflat(index / n, d);
        let u = unflat(index, dims);
        assert(u.skip(1) =~= unflat(index / n, d));
        vstd::arithmetic::div_mod::lemma_fundamental_div_mod(index, n);
        assert forall|a: int| 0 <= a < dims.len() implies 0 <= #[trigger] u[a] < dims[a] by {
            if a > 0 {
                assert(u[a] == u.skip(1)[a - 1] && dims[a] == d[a - 1]);
            }
        }
    }
}

/// The numbers of a vector.
pub open spec fn ints(s: Seq<usize>) -> Seq<int> {
    Seq::new(s.len(), |i: int| s[i] as int)
}

/// Product of the axis lengths, or `None` where it is too large to count.
pub fn checked_volume(dims: &[usize]) -> (r: Option<usize>)
    ensures
        match r {
            Some(v) => v == volume(dims@),
            None => volume(dims@) > usize::MAX,
        },
{
    let n: usize = dims.len();
    let mut i: usize = 0;
    while i < n
        invariant
            i <= n,
            n == dims@.len(),
            forall|j: int| 0 <= j < i ==> #[trigger] dims@[j] != 0,
        decreases n - i,
    {
        if dims[i] == 0 {
            proof {
                lemma_volume_zero(dims@, i as int);
            }
            return Some(0);
        }
        i += 1;
    }
    let mut v: usize = 1;
    assert(dims@.skip(n as int) =~= Seq::empty());
    while i > 0
        invariant
            i <= n,
            n == dims@.len(),
            forall|j: int| 0 <= j < n ==> #[trigger] dims@[j] != 0,
            v == volume(dims@.skip(i as int)),
            v >= 1,
        decreases i,
    {
        i -= 1;
        let ghost before = v;
        proof {
            assert(dims@.skip(i as int).skip(1) =~= dims@.skip(i + 1));
            assert(dims@.skip(i as int)[0] == dims@[i as int]);
        }
        let d: usize = dims[i];
        match d.checked_mul(v) {
            Some(w) => {
                v = w;
                assert(w >= 1) by (nonlinear_arith)
                    requires
                        w == d * before,
                        d >= 1,
                        before >= 1,
                ;
            },
            None => {
                proof {
                    lemma_volume_at_least(dims@, i as int);
                }
                return None;
            },
        }
    }
    assert(dims@.skip(0) =~= dims@);
    Some(v)
}

proof fn lemma_volume_zero(dims: Seq<usize>, i: int)
    requires
        0 <= i < dims.len(),
        dims[i] == 0,
    ensures
        volume(dims) == 0,
    decreases dims.len(),
{
    if i > 0 {
        assert(dims.skip(1)[i - 1] == dims[i]);
        lemma_volume_zero(dims.skip(1), i - 1);
        assert(dims[0] * volume(dims.skip(1)) == 0) by (nonlinear_arith)
            requires
                volume(dims.skip(1)) == 0,
        ;
    } else {
        assert(dims[0] * volume(dims.skip(1)) == 0) by (nonlinear_arith)
            requires
                dims[0] == 0,
        ;
    }
}

proof fn lemma_volume_at_least(dims: Seq<usize>, i: int)
    requires
        0 <= i <= dims.len(),
        forall|j: int| 0 <= j < dims.len() ==> #[trigger] dims[j] != 0,
    ensures
        volume(dims) >= volume(dims.skip(i)),
    decreases dims.len(),
{
    if i == 0 {
        assert(dims.skip(0) =~= dims);
    } else {
        let d = dims.skip(1);
        assert forall|j: int| 0 <= j < d.len() implies #[trigger] d[j] != 0 by {
            assert(d[j] == dims[j + 1]);
        }
        lemma_volume_at_least(d, i - 1);
        assert(d.skip(i - 1) =~= dims.skip(i));
        assert(dims[0] * volume(d) >= volume(d)) by (nonlinear_arith)
            requires
                dims[0] >= 1,
        ;
    }
}

/// Convert a linear tile index into per-axis tile coordinates (axis-1 fastest).
pub fn unravel(index: usize, tiles_per_axis: &[usize]) -> (r: Vec<usize>)
    ensures
        ints(r@) == unflat(index as int, tiles_per_axis@),
        r@.len() == tiles_per_axis@.len(),
{
    let mut coords: Vec<usize> = Vec::new();
    let mut rest: usize = index;
    let mut axis: usize = 0;
    assert(tiles_per_axis@.skip(0) =~= tiles_per_axis@);
    assert(ints(coords@) + unflat(index as int, tiles_per_axis@) =~= unflat(
        index as int,
        tiles_per_axis@,
    ));
    while axis < tiles_per_axis.len()
        invariant
            axis <= tiles_per_axis@.len(),
            coords@.len() == axis,
            ints(coords@) + unflat(rest as int, tiles_per_axis@.skip(axis as int)) == unflat(
                index as int,
                tiles_per_axis@,
            ),
        decreases tiles_per_axis@.len() - axis,
    {
        let ghost before = ints(coords@);
        let ghost tail = tiles_per_axis@.skip(axis as int);
        let ghost r0 = rest;
        let n: usize = if tiles_per_axis[axis] == 0 {
            1
        } else {
            tiles_per_axis[axis]
        };
        coords.push(rest % n);
        rest = rest / n;
        axis += 1;
        proof {
            assert(tail[0] == tiles_per_axis@[axis - 1]);
            assert(tail.skip(1) =~= tiles_per_axis@.skip(axis as int));
            assert(ints(coords@) =~= before.push(r0 as int % n as int));
            assert(ints(coords@) + unflat(rest as int, tail.skip(1)) =~= before + unflat(
                r0 as int,
                tail,
            ));
        }
    }
    assert(tiles_per_axis@.skip(axis as int) =~= Seq::empty());
    assert(ints(coords@) =~= unflat(index as int, tiles_per_axis@));
    coords
}

/// The position of coordinates in a flat array.
fn flat_index(coords: &[usize], dims: &[usize]) -> (r: usize)
    requires
        within(ints(coords@), dims@),
        volume(dims@) <= usize::MAX,
    ensures
        r == flat(ints(coords@), dims@),
        r < volume(dims@),
{
    let n: usize = dims.len();
    let mut i: usize = n;
    let mut f: usize = 0;
    let ghost c = ints(coords@);
    assert(dims@.skip(n as int) =~= Seq::empty());
    while i > 0
        invariant
            i <= n,
            n == dims@.len(),
            n == coords@.len(),
            c == ints(coords@),
            within(c, dims@),
            volume(dims@) <= usize::MAX,
            f == flat(c.skip(i as int), dims@.skip(i as int)),
        decreases i,
    {
        i -= 1;
        let ghost before = f;
        proof {
            let cs = c.skip(i as int);
            let ds = dims@.skip(i as int);
            assert(cs.skip(1) =~= c.skip(i + 1));
            assert(ds.skip(1) =~= dims@.skip(i + 1));
            assert(cs[0] == coords@[i as int] && ds[0] == dims@[i as int]);
            assert(within(cs, ds)) by {
                assert forall|a: int| 0 <= a < ds.len() implies 0 <= #[trigger] cs[a] < ds[a] by {
                    assert(cs[a] == c[a + i] && ds[a] == dims@[a + i]);
                }
            }
            lemma_flat_bound(cs, ds);
            assert forall|j: int| 0 <= j < dims@.len() implies #[trigger] dims@[j] != 0 by {
                assert(0 <= c[j] < dims@[j]);
            }
            lemma_volume_at_least(dims@, i as int);
            assert(flat(cs, ds) == c[i as int] + dims@[i as int] * before);
            assert(dims@[i as int] * before >= 0) by (nonlinear_arith)
                requires
                    before >= 0,
            ;
        }
        f = coords[i] + dims[i] * f;
    }
    proof {
        assert(c.skip(0) =~= c);
        assert(dims@.skip(0) =~= dims@);
        lemma_flat_bound(c, dims@);
    }
    f
}

/// Coordinates moved by an origin.
pub open spec fn shifted(coords: Seq<int>, origin: Seq<int>) -> Seq<int> {
    Seq::new(coords.len(), |a: int| coords[a] + origin[a])
}

/// Coordinates relative to an origin.
pub open spec fn relative(coords: Seq<int>, origin: Seq<int>) -> Seq<int> {
    Seq::new(coords.len(), |a: int| coords[a] - origin[a])
}

/// The box of dimensions `tile` at `origin` lies in an image.
pub open spec fn box_fits(origin: Seq<int>, tile: Seq<usize>, image: Seq<usize>) -> bool {
    &&& origin.len() == image.len()
    &&& tile.len() == image.len()
    &&& forall|a: int|
        0 <= a < image.len() ==> 0 <= #[trigger] origin[a] && origin[a] + tile[a] <= image[a]
}

/// An image with the first `k` pixels of a box replaced by `values`.
pub open spec fn scattered<T>(
    full: Seq<T>,
    image: Seq<usize>,
    origin: Seq<int>,
    tile: Seq<usize>,
    values: Seq<T>,
    k: int,
) -> Seq<T> {
    Seq::new(
        full.len(),
        |p: int|
            {
                let c = relative(unflat(p, image), origin);
                if within(c, tile) && flat(c, tile) < k {
                    values[flat(c, tile)]
                } else {
                    full[p]
                }
            },
    )
}

/// The pixels of a box, first axis fastest.
pub open spec fn gathered<T>(
    full: Seq<T>,
    image: Seq<usize>,
    origin: Seq<int>,
    tile: Seq<usize>,
) -> Seq<T> {
    Seq::new(
        volume(tile),
        |k: int| full[flat(shifted(unflat(k, tile), origin), image)],
    )
}

/// The first pixel of the tile at grid coordinates `coords`.
pub open spec fn tile_origin(coords: Seq<int>, ztile: Seq<usize>) -> Seq<int> {
    Seq::new(coords.len(), |a: int| coords[a] * at_least_one(ztile[a]))
}

proof fn lemma_box_coords(c: Seq<int>, origin: Seq<int>, tile: Seq<usize>, image: Seq<usize>)
    requires
        box_fits(origin, tile, image),
        within(c, tile),
    ensures
        within(shifted(c, origin), image),
        relative(shifted(c, origin), origin) == c,
{
    let s = shifted(c, origin);
    assert forall|a: int| 0 <= a < image.len() implies 0 <= #[trigger] s[a] < image[a] by {
        assert(0 <= c[a] < tile[a]);
        assert(0 <= origin[a]);
    }
    assert(relative(s, origin) =~= c);
}

/// Writing pixel `k` of a box extends the scattered prefix by one.
proof fn lemma_scatter_step<T>(
    full: Seq<T>,
    image: Seq<usize>,
    origin: Seq<int>,
    tile: Seq<usize>,
    values: Seq<T>,
    c: Seq<int>,
)
    requires
        box_fits(origin, tile, image),
        within(c, tile),
        full.len() == volume(image),
    ensures
        ({
            let k = flat(c, tile);
            let dst = flat(shifted(c, origin), image);
            &&& 0 <= dst < full.len()
            &&& scattered(full, image, origin, tile, values, k + 1) == scattered(
                full,
                image,
                origin,
                tile,
                values,
                k,
            ).update(dst, values[k])
        }),
{
    let k = flat(c, tile);
    let s = shifted(c, origin);
    let dst = flat(s, image);
    lemma_box_coords(c, origin, tile, image);
    lemma_flat_bound(s, image);
    unflat_inverts_flat(s, image);
    let a = scattered(full, image, origin, tile, values, k + 1);
    let b = scattered(full, image, origin, tile, values, k).update(dst, values[k]);
    assert forall|p: int| 0 <= p < full.len() implies a[p] == b[p] by {
        if p != dst {
            flat_inverts_unflat(p, image);
            let r = relative(unflat(p, image), origin);
            if within(r, tile) && flat(r, tile) == k {
                unflat_inverts_flat(r, tile);
                unflat_inverts_flat(c, tile);
                assert(r == c);
                assert(unflat(p, image) =~= s);
            }
        }
    }
    assert(a =~= b);
}

/// Step coordinates on by one position, from `axis` on; back to all zeros
/// after the last.
fn advance(coords: &mut Vec<usize>, dims: &[usize], axis: usize)
    requires
        axis <= dims@.len(),
        within(ints(old(coords)@).skip(axis as int), dims@.skip(axis as int)),
        old(coords)@.len() == dims@.len(),
    ensures
        final(coords)@.len() == dims@.len(),
        final(coords)@.take(axis as int) == old(coords)@.take(axis as int),
        within(ints(final(coords)@).skip(axis as int), dims@.skip(axis as int)),
        ({
            let d = dims@.skip(axis as int);
            let k = flat(ints(old(coords)@).skip(axis as int), d);
            flat(ints(final(coords)@).skip(axis as int), d) == if k + 1 < volume(d) {
                k + 1
            } else {
                0
            }
        }),
    decreases dims@.len() - axis,
{
    let ghost d = dims@.skip(axis as int);
    let ghost c0 = ints(coords@).skip(axis as int);
    if axis == dims.len() {
        return ;
    }
    proof {
        assert(c0[0] == coords@[axis as int] && d[0] == dims@[axis as int]);
        assert(0 <= c0[0] < d[0]);
        assert(c0.skip(1) =~= ints(coords@).skip(axis + 1));
        assert(d.skip(1) =~= dims@.skip(axis + 1));
        assert(within(c0.skip(1), d.skip(1))) by {
            assert forall|a: int| 0 <= a < d.skip(1).len() implies 0 <= #[trigger] c0.skip(1)[a]
                < d.skip(1)[a] by {
                assert(c0.skip(1)[a] == c0[a + 1] && d.skip(1)[a] == d[a + 1]);
            }
        }
        lemma_flat_bound(c0.skip(1), d.skip(1));
    }
    let ghost n = d[0] as int;
    let ghost f = flat(c0.skip(1), d.skip(1));
    let ghost v = volume(d.skip(1)) as int;
    let ghost before = coords@;
    let next: usize = coords[axis] + 1;
    if next < dims[axis] {
        coords.set(axis, next);
        proof {
            let c1 = ints(coords@).skip(axis as int);
            assert(c1.skip(1) =~= c0.skip(1));
            assert(coords@.take(axis as int) =~= before.take(axis as int));
            assert(within(c1, d)) by {
                assert forall|a: int| 0 <= a < d.len() implies 0 <= #[trigger] c1[a] < d[a] by {
                    if a > 0 {
                        assert(c1[a] == c0[a]);
                    }
                }
            }
            assert(n * f + n == n * (f + 1)) by (nonlinear_arith);
            assert(n * (f + 1) <= n * v) by (nonlinear_arith)
                requires
                    f + 1 <= v,
                    n > 0,
            ;
        }
    } else {
        coords.set(axis, 0);
        proof {
            assert(ints(coords@).skip(axis + 1) =~= c0.skip(1));
        }
        let ghost mid = coords@;
        advance(coords, dims, axis + 1);
        proof {
            let c1 = ints(coords@).skip(axis as int);
            assert(c1.skip(1) =~= ints(coords@).skip(axis + 1));
            assert(coords@.take(axis + 1)[axis as int] == mid.take(axis + 1)[axis as int]);
            assert(c1[0] == 0);
            assert forall|i: int| 0 <= i < axis implies coords@[i] == before[i] by {
                assert(coords@.take(axis + 1)[i] == mid.take(axis + 1)[i]);
            }
            assert(coords@.take(axis as int) =~= before.take(axis as int));
            assert(within(c1, d)) by {
                assert forall|a: int| 0 <= a < d.len() implies 0 <= #[trigger] c1[a] < d[a] by {
                    if a > 0 {
                        assert(c1[a] == c1.skip(1)[a - 1] && d[a] == d.skip(1)[a - 1]);
                    }
                }
            }
            assert(c0[0] + n * f + 1 == n * (f + 1)) by (nonlinear_arith)
                requires
                    c0[0] + 1 == n,
            ;
            if f + 1 < v {
                assert(n * (f + 1) < n * v) by (nonlinear_arith)
                    requires
                        f + 1 < v,
                        n > 0,
                ;
            } else {
                assert(f + 1 == v);
            }
        }
    }
}

/// The position in the image of a pixel of a box.
fn image_index(coords: &[usize], origin: &[usize], image: &[usize], Ghost(tile): Ghost<Seq<usize>>) -> (r:
    usize)
    requires
        box_fits(ints(origin@), tile, image@),
        within(ints(coords@), tile),
        volume(image@) <= usize::MAX,
    ensures
        r == flat(shifted(ints(coords@), ints(origin@)), image@),
        r < volume(image@),
{
    let mut at: Vec<usize> = Vec::new();
    let mut a: usize = 0;
    let ghost s = shifted(ints(coords@), ints(origin@));
    proof {
        lemma_box_coords(ints(coords@), ints(origin@), tile, image@);
    }
    while a < coords.len()
        invariant
            a <= coords@.len(),
            coords@.len() == origin@.len(),
            coords@.len() == image@.len(),
            s == shifted(ints(coords@), ints(origin@)),
            within(s, image@),
            ints(at@) == s.take(a as int),
        decreases coords@.len() - a,
    {
        assert(0 <= s[a as int] < image@[a as int]);
        let ghost before = ints(at@);
        at.push(coords[a] + origin[a]);
        a += 1;
        assert(ints(at@) =~= before.push(s[a - 1]));
        assert(ints(at@) =~= s.take(a as int));
    }
    assert(s.take(a as int) =~= s);
    flat_index(at.as_slice(), image)
}

/// The first pixel of a tile.
fn origin_of(coords: &[usize], ztile: &[usize], image: &[usize]) -> (r: Vec<usize>)
    requires
        coords@.len() <= ztile@.len(),
        coords@.len() == image@.len(),
        forall|a: int|
            0 <= a < coords@.len() ==> #[trigger] coords@[a] * at_least_one(ztile@[a]) <= image@[a],
    ensures
        ints(r@) == tile_origin(ints(coords@), ztile@),
{
    let mut out: Vec<usize> = Vec::new();
    let mut a: usize = 0;
    let ghost o = tile_origin(ints(coords@), ztile@);
    while a < coords.len()
        invariant
            a <= coords@.len(),
            coords@.len() <= ztile@.len(),
            coords@.len() == image@.len(),
            forall|a: int|
                0 <= a < coords@.len() ==> #[trigger] coords@[a] * at_least_one(ztile@[a])
                    <= image@[a],
            o == tile_origin(ints(coords@), ztile@),
            ints(out@) == o.take(a as int),
        decreases coords@.len() - a,
    {
        let t: usize = if ztile[a] == 0 {
            1
        } else {
            ztile[a]
        };
        assert(coords@[a as int] * at_least_one(ztile@[a as int]) <= image@[a as int]);
        let ghost before = ints(out@);
        out.push(coords[a] * t);
        a += 1;
        assert(ints(out@) =~= before.push(o[a - 1]));
        assert(ints(out@) =~= o.take(a as int));
    }
    assert(o.take(a as int) =~= o);
    out
}

fn zeros(n: usize) -> (r: Vec<usize>)
    ensures
        r@ == Seq::new(n as nat, |i: int| 0usize),
{
    let mut v: Vec<usize> = Vec::new();
    let mut i: usize = 0;
    while i < n
        invariant
            i <= n,
            v@ == Seq::new(i as nat, |j: int| 0usize),
        decreases n - i,
    {
        v.push(0);
        i += 1;
        assert(v@ =~= Seq::new(i as nat, |j: int| 0usize));
    }
    v
}

/// The origin of a box has position zero in it.
proof fn lemma_flat_zeros(dims: Seq<usize>)
    ensures
        flat(ints(Seq::new(dims.len(), |i: int| 0usize)), dims) == 0,
    decreases dims.len(),
{
    if dims.len() > 0 {
        let z = ints(Seq::new(dims.len(), |i: int| 0usize));
        let d = dims.skip(1);
        assert(z.skip(1) =~= ints(Seq::new(d.len(), |i: int| 0usize)));
        lemma_flat_zeros(d);
        assert(dims[0] * flat(z.skip(1), d) == 0) by (nonlinear_arith)
            requires
                flat(z.skip(1), d) == 0,
        ;
    }
}

proof fn lemma_volume_positive(dims: Seq<usize>)
    ensures
        volume(dims) > 0 <==> forall|a: int| 0 <= a < dims.len() ==> #[trigger] dims[a] > 0,
    decreases dims.len(),
{
    if dims.len() > 0 {
        let d = dims.skip(1);
        lemma_volume_positive(d);
        assert(dims[0] * volume(d) > 0 <==> dims[0] > 0 && volume(d) > 0) by (nonlinear_arith)
            requires
                dims[0] >= 0,
                volume(d) >= 0,
        ;
        if volume(dims) > 0 {
            assert forall|a: int| 0 <= a < dims.len() implies #[trigger] dims[a] > 0 by {
                if a > 0 {
                    assert(dims[a] == d[a - 1]);
                }
            }
        } else if forall|a: int| 0 <= a < dims.len() ==> #[trigger] dims[a] > 0 {
            assert forall|a: int| 0 <= a < d.len() implies #[trigger] d[a] > 0 by {
                assert(d[a] == dims[a + 1]);
            }
            assert(dims[0] > 0);
        }
    }
}

/// Scatter a decoded tile's flat `values` (axis-1 fastest) into the full-image
/// buffer `full` (also axis-1 fastest), placing it at tile-grid `coords`.
///
/// - `image_dims` are the full `ZNAXISn` (axis-1 first).
/// - `ztile` are the nominal tile sizes (`ZTILEn`); used to locate the tile origin.
/// - `tile_dims` are the (possibly edge-truncated) dimensions of *this* tile; used
///   to size the copy.
pub fn scatter_tile<T: Copy>(
    full: &mut Vec<T>,
    image_dims: &[usize],
    ztile: &[usize],
    tile_dims: &[usize],
    coords: &[usize],
    values: &[T],
)
    requires
        coords@.len() <= ztile@.len(),
        box_fits(tile_origin(ints(coords@), ztile@), tile_dims@, image_dims@),
        old(full)@.len() == volume(image_dims@),
    ensures
        final(full)@ == scattered(
            old(full)@,
            image_dims@,
            tile_origin(ints(coords@), ztile@),
            tile_dims@,
            values@,
            values@.len() as int,
        ),
{
    let ghost o = tile_origin(ints(coords@), ztile@);
    let ghost start = full@;
    proof {
        assert forall|a: int| 0 <= a < coords@.len() implies #[trigger] coords@[a] * at_least_one(
            ztile@[a],
        ) <= image_dims@[a] by {
            assert(0 <= o[a]);
        }
    }
    let origin: Vec<usize> = origin_of(coords, ztile, image_dims);
    let mut tcoord: Vec<usize> = zeros(image_dims.len());
    proof {
        lemma_flat_zeros(tile_dims@);
        lemma_volume_positive(tile_dims@);
        assert(full@ =~= scattered(start, image_dims@, o, tile_dims@, values@, 0)) by {
            assert forall|p: int| 0 <= p < start.len() implies full@[p] == scattered(
                start,
                image_dims@,
                o,
                tile_dims@,
                values@,
                0,
            )[p] by {
                let r = relative(unflat(p, image_dims@), o);
                if within(r, tile_dims@) {
                    lemma_flat_bound(r, tile_dims@);
                }
            }
        }
    }
    if has_zero(tile_dims) {
        proof {
            assert(full@ =~= scattered(
                start,
                image_dims@,
                o,
                tile_dims@,
                values@,
                values@.len() as int,
            )) by {
                assert forall|p: int| 0 <= p < start.len() implies full@[p] == scattered(
                    start,
                    image_dims@,
                    o,
                    tile_dims@,
                    values@,
                    values@.len() as int,
                )[p] by {
                    let r = relative(unflat(p, image_dims@), o);
                    if within(r, tile_dims@) {
                        lemma_flat_bound(r, tile_dims@);
                    }
                }
            }
        }
        return ;
    }
    let total: usize = full.len();
    let mut k: usize = 0;
    assert(within(ints(tcoord@), tile_dims@));
    let mut last: bool = false;
    while k < values.len() && !last
        invariant
            k <= values@.len(),
            o == tile_origin(ints(coords@), ztile@),
            ints(origin@) == o,
            box_fits(o, tile_dims@, image_dims@),
            start.len() == volume(image_dims@),
            total == start.len(),
            full@.len() == start.len(),
            tcoord@.len() == tile_dims@.len(),
            within(ints(tcoord@), tile_dims@),
            !last ==> flat(ints(tcoord@), tile_dims@) == k,
            last ==> k == volume(tile_dims@),
            full@ == scattered(start, image_dims@, o, tile_dims@, values@, k as int),
        decreases values@.len() - k,
    {
        let ghost c = ints(tcoord@);
        let dst: usize = image_index(
            tcoord.as_slice(),
            origin.as_slice(),
            image_dims,
            Ghost(tile_dims@),
        );
        proof {
            lemma_scatter_step(start, image_dims@, o, tile_dims@, values@, c);
            lemma_flat_bound(c, tile_dims@);
            assert(c.skip(0) =~= c);
            assert(tile_dims@.skip(0) =~= tile_dims@);
        }
        full.set(dst, values[k]);
        advance(&mut tcoord, tile_dims, 0);
        k += 1;
        proof {
            assert(ints(tcoord@).skip(0) =~= ints(tcoord@));
        }
        last = all_zero(tcoord.as_slice());
        proof {
            lemma_at_zero(tcoord@, tile_dims@);
        }
    }
    proof {
        let end = values@.len() as int;
        assert(full@ =~= scattered(start, image_dims@, o, tile_dims@, values@, end)) by {
            assert forall|p: int| 0 <= p < start.len() implies full@[p] == scattered(
                start,
                image_dims@,
                o,
                tile_dims@,
                values@,
                end,
            )[p] by {
                let r = relative(unflat(p, image_dims@), o);
                if within(r, tile_dims@) {
                    lemma_flat_bound(r, tile_dims@);
                }
            }
        }
    }
}

fn has_zero(dims: &[usize]) -> (r: bool)
    ensures
        r <==> exists|a: int| 0 <= a < dims@.len() && #[trigger] dims@[a] == 0,
{
    let mut a: usize = 0;
    while a < dims.len()
        invariant
            a <= dims@.len(),
            forall|j: int| 0 <= j < a ==> #[trigger] dims@[j] != 0,
        decreases dims@.len() - a,
    {
        if dims[a] == 0 {
            return true;
        }
        a += 1;
    }
    false
}

fn all_zero(v: &[usize]) -> (r: bool)
    ensures
        r <==> forall|a: int| 0 <= a < v@.len() ==> #[trigger] v@[a] == 0,
{
    let mut a: usize = 0;
    while a < v.len()
        invariant
            a <= v@.len(),
            forall|j: int| 0 <= j < a ==> #[trigger] v@[j] == 0,
        decreases v@.len() - a,
    {
        if v[a] != 0 {
            return false;
        }
        a += 1;
    }
    true
}

/// Gather one tile's flat samples (axis-1 fastest) from the full image buffer.
pub fn gather_tile<T: Copy>(
    full: &[T],
    image_dims: &[usize],
    ztile: &[usize],
    tile_dims: &[usize],
    coords: &[usize],
) -> (r: Vec<T>)
    requires
        coords@.len() <= ztile@.len(),
        box_fits(tile_origin(ints(coords@), ztile@), tile_dims@, image_dims@),
        full@.len() == volume(image_dims@),
    ensures
        r@ == gathered(
            full@,
            image_dims@,
            tile_origin(ints(coords@), ztile@),
            tile_dims@,
        ),
{
    let ghost o = tile_origin(ints(coords@), ztile@);
    proof {
        assert forall|a: int| 0 <= a < coords@.len() implies #[trigger] coords@[a] * at_least_one(
            ztile@[a],
        ) <= image_dims@[a] by {
            assert(0 <= o[a]);
        }
        lemma_flat_zeros(tile_dims@);
        lemma_volume_positive(tile_dims@);
    }
    let origin: Vec<usize> = origin_of(coords, ztile, image_dims);
    let mut tcoord: Vec<usize> = zeros(image_dims.len());
    let mut out: Vec<T> = Vec::new();
    let ghost all = gathered(full@, image_dims@, o, tile_dims@);
    if has_zero(tile_dims) {
        assert(out@ =~= all);
        return out;
    }
    let total: usize = full.len();
    assert(within(ints(tcoord@), tile_dims@));
    assert(out@ =~= all.take(0));
    let mut last: bool = false;
    while !last
        invariant
            total == volume(image_dims@),
            full@.len() == total,
            o == tile_origin(ints(coords@), ztile@),
            ints(origin@) == o,
            box_fits(o, tile_dims@, image_dims@),
            all == gathered(full@, image_dims@, o, tile_dims@),
            tcoord@.len() == tile_dims@.len(),
            within(ints(tcoord@), tile_dims@),
            out@.len() <= all.len(),
            !last ==> flat(ints(tcoord@), tile_dims@) == out@.len(),
            last ==> out@.len() == all.len(),
            out@ == all.take(out@.len() as int),
        decreases volume(tile_dims@) - out@.len(),
    {
        let ghost c = ints(tcoord@);
        let src: usize = image_index(
            tcoord.as_slice(),
            origin.as_slice(),
            image_dims,
            Ghost(tile_dims@),
        );
        proof {
            lemma_flat_bound(c, tile_dims@);
            unflat_inverts_flat(c, tile_dims@);
            assert(c.skip(0) =~= c);
            assert(tile_dims@.skip(0) =~= tile_dims@);
        }
        out.push(full[src]);
        assert(out@ =~= all.take(out@.len() as int));
        advance(&mut tcoord, tile_dims, 0);
        proof {
            assert(ints(tcoord@).skip(0) =~= ints(tcoord@));
        }
        last = all_zero(tcoord.as_slice());
        proof {
            lemma_at_zero(tcoord@, tile_dims@);
        }
    }
    assert(out@ =~= all);
    out
}

/// Only the origin of a box has position zero in it.
proof fn lemma_at_zero(coords: Seq<usize>, dims: Seq<usize>)
    requires
        within(ints(coords), dims),
    ensures
        flat(ints(coords), dims) == 0 <==> forall|a: int|
            0 <= a < coords.len() ==> #[trigger] coords[a] == 0,
{
    let zero = Seq::new(dims.len(), |i: int| 0usize);
    let z = ints(zero);
    lemma_flat_zeros(dims);
    if flat(ints(coords), dims) == 0 {
        assert(within(z, dims)) by {
            assert forall|a: int| 0 <= a < dims.len() implies 0 <= #[trigger] z[a] < dims[a] by {
                assert(0 <= ints(coords)[a] < dims[a]);
            }
        }
        unflat_inverts_flat(z, dims);
        unflat_inverts_flat(ints(coords), dims);
        assert forall|i: int| 0 <= i < coords.len() implies #[trigger] coords[i] == 0 by {
            assert(ints(coords)[i] == z[i]);
        }
    } else if forall|a: int| 0 <= a < coords.len() ==> #[trigger] coords[a] == 0 {
        assert(coords =~= zero);
    }
}

/// How many tiles of length `t` cover a length `n`.
pub open spec fn tiles_along(n: usize, t: usize) -> usize {
    ((n + at_least_one(t) - 1) / at_least_one(t)) as usize
}

/// The number of tiles along each axis.
pub open spec fn grid_of(image: Seq<usize>, ztile: Seq<usize>) -> Seq<usize> {
    Seq::new(
        if image.len() < ztile.len() {
            image.len()
        } else {
            ztile.len()
        },
        |a: int| tiles_along(image[a], ztile[a]),
    )
}

/// The dimensions of the tile at grid coordinates `coords`, cut at the edge of
/// the image.
pub open spec fn tile_dims_of(image: Seq<usize>, ztile: Seq<usize>, coords: Seq<int>) -> Seq<usize> {
    Seq::new(
        coords.len(),
        |a: int|
            {
                let t = at_least_one(ztile[a]);
                let left = image[a] - coords[a] * t;
                (if left < t {
                    left
                } else {
                    t
                }) as usize
            },
    )
}

proof fn lemma_tiles_along(n: usize, t: usize)
    ensures
        ({
            let k = (n + at_least_one(t) - 1) / at_least_one(t);
            &&& 0 <= k <= n
            &&& tiles_along(n, t) == k
            &&& forall|c: int| 0 <= c < k ==> #[trigger] (c * at_least_one(t)) < n
            &&& k * at_least_one(t) >= n
        }),
{
    let m = at_least_one(t);
    let k = (n + m - 1) / m;
    vstd::arithmetic::div_mod::lemma_fundamental_div_mod(n + m - 1, m);
    assert(k * m >= n) by (nonlinear_arith)
        requires
            n + m - 1 == m * k + (n + m - 1) % m,
            0 <= (n + m - 1) % m < m,
    ;
    assert(0 <= k <= n) by (nonlinear_arith)
        requires
            n + m - 1 == m * k + (n + m - 1) % m,
            0 <= (n + m - 1) % m < m,
            m >= 1,
            n >= 0,
    ;
    assert forall|c: int| 0 <= c < k implies #[trigger] (c * m) < n by {
        assert(c * m < n) by (nonlinear_arith)
            requires
                n + m - 1 == m * k + (n + m - 1) % m,
                0 <= (n + m - 1) % m < m,
                m >= 1,
                c + 1 <= k,
        ;
    }
}

/// The number of tiles along each axis, for an image and a nominal tile shape.
pub fn tiles_per_axis_of(image_dims: &[usize], ztile: &[usize]) -> (r: Vec<usize>)
    ensures
        r@ == grid_of(image_dims@, ztile@),
{
    let n: usize = if image_dims.len() < ztile.len() {
        image_dims.len()
    } else {
        ztile.len()
    };
    let mut out: Vec<usize> = Vec::new();
    let mut a: usize = 0;
    let ghost all = grid_of(image_dims@, ztile@);
    while a < n
        invariant
            a <= n,
            n == all.len(),
            n <= image_dims@.len(),
            n <= ztile@.len(),
            all == grid_of(image_dims@, ztile@),
            out@ == all.take(a as int),
        decreases n - a,
    {
        let t: usize = if ztile[a] == 0 {
            1
        } else {
            ztile[a]
        };
        let len: usize = image_dims[a];
        proof {
            lemma_tiles_along(len, ztile@[a as int]);
            lemma_ceil(len as int, t as int);
        }
        let whole: usize = len / t;
        let k: usize = if len % t == 0 {
            whole
        } else {
            whole + 1
        };
        out.push(k);
        a += 1;
        assert(out@ =~= all.take(a as int));
    }
    assert(out@ =~= all);
    out
}

proof fn lemma_ceil(n: int, t: int)
    requires
        n >= 0,
        t >= 1,
    ensures
        (n + t - 1) / t == if n % t == 0 {
            n / t
        } else {
            n / t + 1
        },
        n % t != 0 ==> n / t < n,
{
    vstd::arithmetic::div_mod::lemma_fundamental_div_mod(n, t);
    let q = n / t;
    let r = n % t;
    assert(q * t == t * q) by (nonlinear_arith);
    if r == 0 {
        vstd::arithmetic::div_mod::lemma_fundamental_div_mod_converse(n + t - 1, t, q, t - 1);
    } else {
        assert(n + t - 1 == t * (q + 1) + (r - 1)) by (nonlinear_arith)
            requires
                n == t * q + r,
        ;
        vstd::arithmetic::div_mod::lemma_fundamental_div_mod_converse(n + t - 1, t, q + 1, r - 1);
        assert(q < n) by (nonlinear_arith)
            requires
                n == t * q + r,
                0 < r,
                t >= 1,
                q >= 0,
        ;
    }
}

/// Tile dimensions at grid coordinates `coords`, accounting for edge truncation.
pub fn tile_dims_at(image_dims: &[usize], ztile: &[usize], coords: &[usize]) -> (r: Vec<usize>)
    requires
        coords@.len() <= image_dims@.len(),
        coords@.len() <= ztile@.len(),
        forall|a: int|
            0 <= a < coords@.len() ==> #[trigger] coords@[a] * at_least_one(ztile@[a])
                <= image_dims@[a],
    ensures
        r@ == tile_dims_of(image_dims@, ztile@, ints(coords@)),
{
    let mut out: Vec<usize> = Vec::new();
    let mut a: usize = 0;
    let ghost all = tile_dims_of(image_dims@, ztile@, ints(coords@));
    while a < coords.len()
        invariant
            a <= coords@.len(),
            coords@.len() <= image_dims@.len(),
            coords@.len() <= ztile@.len(),
            forall|a: int|
                0 <= a < coords@.len() ==> #[trigger] coords@[a] * at_least_one(ztile@[a])
                    <= image_dims@[a],
            all == tile_dims_of(image_dims@, ztile@, ints(coords@)),
            out@ == all.take(a as int),
        decreases coords@.len() - a,
    {
        let t: usize = if ztile[a] == 0 {
            1
        } else {
            ztile[a]
        };
        assert(coords@[a as int] * at_least_one(ztile@[a as int]) <= image_dims@[a as int]);
        let left: usize = image_dims[a] - coords[a] * t;
        out.push(
            if left < t {
                left
            } else {
                t
            },
        );
        a += 1;
        assert(out@ =~= all.take(a as int));
    }
    assert(out@ =~= all);
    out
}

/// The default tile shape: one row per tile.
pub open spec fn row_tile(axes: Seq<usize>) -> Seq<usize> {
    Seq::new(
        axes.len(),
        |a: int|
            if a == 0 {
                axes[0]
            } else {
                1
            },
    )
}

/// Default tile shape: one row per tile (`ZTILE1 = NAXIS1`, others 1).
pub fn default_tile(axes: &[usize]) -> (r: Vec<usize>)
    ensures
        r@ == row_tile(axes@),
{
    let mut t: Vec<usize> = Vec::new();
    let mut a: usize = 0;
    while a < axes.len()
        invariant
            a <= axes@.len(),
            t@ == row_tile(axes@).take(a as int),
        decreases axes@.len() - a,
    {
        t.push(
            if a == 0 {
                axes[0]
            } else {
                1
            },
        );
        a += 1;
        assert(t@ =~= row_tile(axes@).take(a as int));
    }
    assert(t@ =~= row_tile(axes@));
    t
}

/// The grid coordinates of the tile that holds a pixel.
pub open spec fn tile_coords_of(coords: Seq<int>, ztile: Seq<usize>) -> Seq<int> {
    Seq::new(coords.len(), |a: int| coords[a] / at_least_one(ztile[a]))
}

/// The number of the tile that holds pixel `p`.
pub open spec fn tile_index_of(p: int, image: Seq<usize>, ztile: Seq<usize>) -> int {
    flat(tile_coords_of(unflat(p, image), ztile), grid_of(image, ztile))
}

/// The place of pixel `p` in its tile.
pub open spec fn place_in_tile(p: int, image: Seq<usize>, ztile: Seq<usize>) -> int {
    let c = unflat(p, image);
    let tc = tile_coords_of(c, ztile);
    flat(relative(c, tile_origin(tc, ztile)), tile_dims_of(image, ztile, tc))
}

/// The pixels of tile number `k` of an image.
pub open spec fn tile_of<T>(full: Seq<T>, image: Seq<usize>, ztile: Seq<usize>, k: int) -> Seq<T> {
    let tc = unflat(k, grid_of(image, ztile));
    gathered(full, image, tile_origin(tc, ztile), tile_dims_of(image, ztile, tc))
}

/// The number of pixels of tile number `k`.
pub open spec fn tile_volume(image: Seq<usize>, ztile: Seq<usize>, k: int) -> nat {
    volume(tile_dims_of(image, ztile, unflat(k, grid_of(image, ztile))))
}

/// The image put together from the first `k` tiles; `blank` elsewhere.
pub open spec fn partly_assembled<T>(
    tiles: Seq<Seq<T>>,
    image: Seq<usize>,
    ztile: Seq<usize>,
    k: int,
    blank: T,
) -> Seq<T> {
    Seq::new(
        volume(image),
        |p: int|
            if tile_index_of(p, image, ztile) < k {
                tiles[tile_index_of(p, image, ztile)][place_in_tile(p, image, ztile)]
            } else {
                blank
            },
    )
}

/// The image put together from its tiles.
pub open spec fn assembled<T>(tiles: Seq<Seq<T>>, image: Seq<usize>, ztile: Seq<usize>) -> Seq<T> {
    Seq::new(
        volume(image),
        |p: int| tiles[tile_index_of(p, image, ztile)][place_in_tile(p, image, ztile)],
    )
}

/// The box of a tile lies in the image.
proof fn lemma_tile_fits(image: Seq<usize>, ztile: Seq<usize>, tc: Seq<int>)
    requires
        image.len() <= ztile.len(),
        within(tc, grid_of(image, ztile)),
    ensures
        box_fits(tile_origin(tc, ztile), tile_dims_of(image, ztile, tc), image),
        forall|a: int|
            0 <= a < tc.len() ==> 0 <= #[trigger] tc[a] * at_least_one(ztile[a]) < image[a],
        forall|a: int|
            0 <= a < tc.len() ==> #[trigger] tile_dims_of(image, ztile, tc)[a] == (if image[a]
                - tc[a] * at_least_one(ztile[a]) < at_least_one(ztile[a]) {
                image[a] - tc[a] * at_least_one(ztile[a])
            } else {
                at_least_one(ztile[a])
            }),
{
    let o = tile_origin(tc, ztile);
    let d = tile_dims_of(image, ztile, tc);
    assert forall|a: int| 0 <= a < tc.len() implies 0 <= #[trigger] tc[a] * at_least_one(ztile[a])
        < image[a] by {
        lemma_tiles_along(image[a], ztile[a]);
        assert(grid_of(image, ztile)[a] == tiles_along(image[a], ztile[a]));
        assert(0 <= tc[a] < grid_of(image, ztile)[a]);
        assert(tc[a] * at_least_one(ztile[a]) >= 0) by (nonlinear_arith)
            requires
                tc[a] >= 0,
                at_least_one(ztile[a]) >= 1,
        ;
    }
    assert forall|a: int| 0 <= a < tc.len() implies #[trigger] d[a] == (if image[a] - tc[a]
        * at_least_one(ztile[a]) < at_least_one(ztile[a]) {
        image[a] - tc[a] * at_least_one(ztile[a])
    } else {
        at_least_one(ztile[a])
    }) by {
        assert(0 <= tc[a] * at_least_one(ztile[a]) < image[a]);
    }
    assert forall|a: int| 0 <= a < image.len() implies 0 <= #[trigger] o[a] && o[a] + d[a]
        <= image[a] by {
        assert(0 <= tc[a] * at_least_one(ztile[a]) < image[a]);
        assert(d[a] <= image[a] - tc[a] * at_least_one(ztile[a]));
    }
}

/// Every pixel lies in exactly one tile: the one that its coordinates give.
pub proof fn tiles_partition_image(image: Seq<usize>, ztile: Seq<usize>, p: int, k: int)
    requires
        image.len() <= ztile.len(),
        0 <= p < volume(image),
        0 <= k < volume(grid_of(image, ztile)),
    ensures
        0 <= tile_index_of(p, image, ztile) < volume(grid_of(image, ztile)),
        0 <= place_in_tile(p, image, ztile) < tile_volume(
            image,
            ztile,
            tile_index_of(p, image, ztile),
        ),
        ({
            let tc = unflat(k, grid_of(image, ztile));
            let r = relative(unflat(p, image), tile_origin(tc, ztile));
            &&& within(r, tile_dims_of(image, ztile, tc)) <==> tile_index_of(p, image, ztile) == k
            &&& tile_index_of(p, image, ztile) == k ==> flat(r, tile_dims_of(image, ztile, tc))
                == place_in_tile(p, image, ztile)
        }),
{
    let grid = grid_of(image, ztile);
    let c = unflat(p, image);
    flat_inverts_unflat(p, image);
    let own = tile_coords_of(c, ztile);
    assert(within(own, grid)) by {
        assert forall|a: int| 0 <= a < grid.len() implies 0 <= #[trigger] own[a] < grid[a] by {
            let t = at_least_one(ztile[a]);
            assert(0 <= c[a] < image[a]);
            lemma_tiles_along(image[a], ztile[a]);
            vstd::arithmetic::div_mod::lemma_fundamental_div_mod(c[a], t);
            let q = c[a] / t;
            let n = grid[a] as int;
            assert(0 <= q < n) by (nonlinear_arith)
                requires
                    0 <= c[a] < image[a],
                    c[a] == t * q + c[a] % t,
                    0 <= c[a] % t < t,
                    n * t >= image[a],
                    t >= 1,
            ;
        }
    }
    lemma_flat_bound(own, grid);
    unflat_inverts_flat(own, grid);
    lemma_tile_fits(image, ztile, own);
    lemma_in_tile(image, ztile, c, own);
    lemma_flat_bound(relative(c, tile_origin(own, ztile)), tile_dims_of(image, ztile, own));
    let tc = unflat(k, grid);
    flat_inverts_unflat(k, grid);
    lemma_in_tile(image, ztile, c, tc);
}

/// A pixel lies in the box of the tile at `tc` exactly if its coordinates give `tc`.
proof fn lemma_in_tile(image: Seq<usize>, ztile: Seq<usize>, c: Seq<int>, tc: Seq<int>)
    requires
        image.len() <= ztile.len(),
        within(c, image),
        within(tc, grid_of(image, ztile)),
    ensures
        within(relative(c, tile_origin(tc, ztile)), tile_dims_of(image, ztile, tc)) <==> tc
            == tile_coords_of(c, ztile),
{
    let own = tile_coords_of(c, ztile);
    let r = relative(c, tile_origin(tc, ztile));
    let d = tile_dims_of(image, ztile, tc);
    lemma_tile_fits(image, ztile, tc);
    assert forall|a: int| 0 <= a < image.len() implies (0 <= r[a] < d[a] <==> tc[a]
        == #[trigger] own[a]) by {
        let t = at_least_one(ztile[a]);
        assert(0 <= c[a] < image[a]);
        assert(0 <= tc[a] * t < image[a]);
        assert(d[a] == (if image[a] - tc[a] * t < t {
            image[a] - tc[a] * t
        } else {
            t
        }));
        if 0 <= r[a] < d[a] {
            assert(c[a] == t * tc[a] + r[a]) by (nonlinear_arith)
                requires
                    r[a] == c[a] - tc[a] * t,
            ;
            vstd::arithmetic::div_mod::lemma_fundamental_div_mod_converse(c[a], t, tc[a], r[a]);
        }
        if tc[a] == own[a] {
            vstd::arithmetic::div_mod::lemma_fundamental_div_mod(c[a], t);
            assert(tc[a] * t == t * tc[a]) by (nonlinear_arith);
        }
    }
    if within(r, d) {
        assert(tc =~= own) by {
            assert forall|a: int| 0 <= a < image.len() implies tc[a] == own[a] by {
                assert(0 <= r[a] < d[a]);
            }
        }
    }
}

/// Scattering tile `k` into an image put together from the tiles before it puts
/// it together from one more.
proof fn lemma_assemble_step<T>(
    tiles: Seq<Seq<T>>,
    image: Seq<usize>,
    ztile: Seq<usize>,
    k: int,
    blank: T,
)
    requires
        image.len() <= ztile.len(),
        0 <= k < volume(grid_of(image, ztile)),
        tiles[k].len() == tile_volume(image, ztile, k),
    ensures
        ({
            let tc = unflat(k, grid_of(image, ztile));
            scattered(
                partly_assembled(tiles, image, ztile, k, blank),
                image,
                tile_origin(tc, ztile),
                tile_dims_of(image, ztile, tc),
                tiles[k],
                tiles[k].len() as int,
            ) == partly_assembled(tiles, image, ztile, k + 1, blank)
        }),
{
    let tc = unflat(k, grid_of(image, ztile));
    let a = scattered(
        partly_assembled(tiles, image, ztile, k, blank),
        image,
        tile_origin(tc, ztile),
        tile_dims_of(image, ztile, tc),
        tiles[k],
        tiles[k].len() as int,
    );
    let b = partly_assembled(tiles, image, ztile, k + 1, blank);
    assert forall|p: int| 0 <= p < volume(image) implies a[p] == b[p] by {
        tiles_partition_image(image, ztile, p, k);
    }
    assert(a =~= b);
}

/// With all tiles in place nothing is left blank.
proof fn lemma_assembled<T>(tiles: Seq<Seq<T>>, image: Seq<usize>, ztile: Seq<usize>, blank: T)
    requires
        image.len() <= ztile.len(),
    ensures
        partly_assembled(
            tiles,
            image,
            ztile,
            volume(grid_of(image, ztile)) as int,
            blank,
        ) == assembled(tiles, image, ztile),
{
    let a = partly_assembled(tiles, image, ztile, volume(grid_of(image, ztile)) as int, blank);
    let b = assembled(tiles, image, ztile);
    assert forall|p: int| 0 <= p < volume(image) implies a[p] == b[p] by {
        lemma_tile_index_bound(image, ztile, p);
    }
    assert(a =~= b);
}

proof fn lemma_tile_index_bound(image: Seq<usize>, ztile: Seq<usize>, p: int)
    requires
        image.len() <= ztile.len(),
        0 <= p < volume(image),
    ensures
        0 <= tile_index_of(p, image, ztile) < volume(grid_of(image, ztile)),
{
    let grid = grid_of(image, ztile);
    lemma_volume_positive(image);
    lemma_volume_positive(grid);
    assert forall|a: int| 0 <= a < grid.len() implies #[trigger] grid[a] > 0 by {
        assert(image[a] > 0);
        lemma_tiles_along(image[a], ztile[a]);
        let t = at_least_one(ztile[a]);
        let n = grid[a] as int;
        assert(n > 0) by (nonlinear_arith)
            requires
                n * t >= image[a],
                image[a] > 0,
                t >= 1,
        ;
    }
    tiles_partition_image(image, ztile, p, 0);
}

/// Cutting an image into tiles and putting the tiles together gives the image.
pub proof fn tiling_round_trip<T>(full: Seq<T>, image: Seq<usize>, ztile: Seq<usize>)
    requires
        image.len() <= ztile.len(),
        full.len() == volume(image),
    ensures
        assembled(
            Seq::new(volume(grid_of(image, ztile)), |k: int| tile_of(full, image, ztile, k)),
            image,
            ztile,
        ) == full,
{
    let grid = grid_of(image, ztile);
    let tiles = Seq::new(volume(grid), |k: int| tile_of(full, image, ztile, k));
    let a = assembled(tiles, image, ztile);
    assert forall|p: int| 0 <= p < full.len() implies a[p] == full[p] by {
        lemma_tile_index_bound(image, ztile, p);
        let k = tile_index_of(p, image, ztile);
        tiles_partition_image(image, ztile, p, k);
        let tc = unflat(k, grid);
        let o = tile_origin(tc, ztile);
        let d = tile_dims_of(image, ztile, tc);
        let r = relative(unflat(p, image), o);
        unflat_inverts_flat(r, d);
        flat_inverts_unflat(p, image);
        assert(shifted(r, o) =~= unflat(p, image));
    }
    assert(a =~= full);
}

/// A box that is no larger along any axis has no more pixels.
proof fn lemma_volume_within(a: Seq<usize>, b: Seq<usize>)
    requires
        a.len() == b.len(),
        forall|i: int| 0 <= i < a.len() ==> #[trigger] a[i] <= b[i],
    ensures
        volume(a) <= volume(b),
    decreases a.len(),
{
    if a.len() > 0 {
        let c = a.skip(1);
        let d = b.skip(1);
        assert forall|i: int| 0 <= i < c.len() implies #[trigger] c[i] <= d[i] by {
            assert(c[i] == a[i + 1] && d[i] == b[i + 1]);
        }
        lemma_volume_within(c, d);
        let x = a[0] as int;
        let y = b[0] as int;
        let u = volume(c) as int;
        let v = volume(d) as int;
        assert(a[0] <= b[0]);
        assert(x * u <= y * v) by (nonlinear_arith)
            requires
                0 <= x <= y,
                0 <= u <= v,
        ;
    }
}

/// A tile has no more pixels than the image.
pub proof fn lemma_tile_volume(image: Seq<usize>, ztile: Seq<usize>, k: int)
    requires
        image.len() <= ztile.len(),
        0 <= k < volume(grid_of(image, ztile)),
    ensures
        within(unflat(k, grid_of(image, ztile)), grid_of(image, ztile)),
        tile_volume(image, ztile, k) <= volume(image),
{
    let g = grid_of(image, ztile);
    let tc = unflat(k, g);
    flat_inverts_unflat(k, g);
    lemma_tile_fits(image, ztile, tc);
    let d = tile_dims_of(image, ztile, tc);
    let o = tile_origin(tc, ztile);
    assert forall|a: int| 0 <= a < d.len() implies #[trigger] d[a] <= image[a] by {
        assert(0 <= o[a] && o[a] + d[a] <= image[a]);
    }
    lemma_volume_within(d, image);
}

/// A tile has pixels.
pub proof fn tiles_have_pixels(image: Seq<usize>, ztile: Seq<usize>, k: int)
    requires
        image.len() <= ztile.len(),
        0 <= k < volume(grid_of(image, ztile)),
    ensures
        tile_volume(image, ztile, k) > 0,
{
    let tc = unflat(k, grid_of(image, ztile));
    flat_inverts_unflat(k, grid_of(image, ztile));
    lemma_tile_fits(image, ztile, tc);
    let d = tile_dims_of(image, ztile, tc);
    assert forall|a: int| 0 <= a < d.len() implies #[trigger] d[a] > 0 by {
        assert(0 <= tc[a] * at_least_one(ztile[a]) < image[a]);
    }
    lemma_volume_positive(d);
}

/// There are no more tiles than pixels.
pub proof fn lemma_grid_volume(image: Seq<usize>, ztile: Seq<usize>)
    requires
        image.len() <= ztile.len(),
    ensures
        volume(grid_of(image, ztile)) <= volume(image),
{
    let g = grid_of(image, ztile);
    assert forall|a: int| 0 <= a < g.len() implies #[trigger] g[a] <= image[a] by {
        lemma_tiles_along(image[a], ztile[a]);
    }
    lemma_volume_within(g, image);
}

/// The grid coordinates and dimensions of tile `k`.
fn tile_box(image_dims: &[usize], ztile: &[usize], k: usize) -> (r: (Vec<usize>, Vec<usize>))
    requires
        image_dims@.len() <= ztile@.len(),
        k < volume(grid_of(image_dims@, ztile@)),
    ensures
        ints(r.0@) == unflat(k as int, grid_of(image_dims@, ztile@)),
        r.0@.len() == image_dims@.len(),
        r.1@ == tile_dims_of(image_dims@, ztile@, ints(r.0@)),
        box_fits(tile_origin(ints(r.0@), ztile@), r.1@, image_dims@),
        volume(r.1@) == tile_volume(image_dims@, ztile@, k as int),
{
    let grid: Vec<usize> = tiles_per_axis_of(image_dims, ztile);
    let coords: Vec<usize> = unravel(k, grid.as_slice());
    proof {
        flat_inverts_unflat(k as int, grid@);
        lemma_tile_fits(image_dims@, ztile@, ints(coords@));
        assert forall|a: int| 0 <= a < coords@.len() implies #[trigger] coords@[a] * at_least_one(
            ztile@[a],
        ) <= image_dims@[a] by {
            assert(ints(coords@)[a] * at_least_one(ztile@[a]) < image_dims@[a]);
        }
    }
    let dims: Vec<usize> = tile_dims_at(image_dims, ztile, coords.as_slice());
    (coords, dims)
}

/// The number of pixels of tile `k`.
pub fn tile_size(image_dims: &[usize], ztile: &[usize], k: usize) -> (r: usize)
    requires
        image_dims@.len() <= ztile@.len(),
        volume(image_dims@) <= usize::MAX,
        k < volume(grid_of(image_dims@, ztile@)),
    ensures
        r == tile_volume(image_dims@, ztile@, k as int),
{
    let (coords, dims) = tile_box(image_dims, ztile, k);
    proof {
        lemma_tile_volume(image_dims@, ztile@, k as int);
    }
    match checked_volume(dims.as_slice()) {
        Some(n) => n,
        None => 0,
    }
}

/// Cut tile `k` out of an image.
pub fn cut_tile<T: Copy>(full: &[T], image_dims: &[usize], ztile: &[usize], k: usize) -> (r: Vec<T>)
    requires
        image_dims@.len() <= ztile@.len(),
        full@.len() == volume(image_dims@),
        k < volume(grid_of(image_dims@, ztile@)),
    ensures
        r@ == tile_of(full@, image_dims@, ztile@, k as int),
        r@.len() == tile_volume(image_dims@, ztile@, k as int),
{
    let (coords, dims) = tile_box(image_dims, ztile, k);
    gather_tile(full, image_dims, ztile, dims.as_slice(), coords.as_slice())
}

/// The pixels of tiles.
pub open spec fn contents<T>(tiles: Seq<Vec<T>>) -> Seq<Seq<T>> {
    Seq::new(tiles.len(), |k: int| tiles[k]@)
}

/// Put an image together from its tiles.
pub fn assemble<T: Copy>(tiles: &[Vec<T>], image_dims: &[usize], ztile: &[usize], blank: T) -> (r:
    Vec<T>)
    requires
        image_dims@.len() <= ztile@.len(),
        volume(image_dims@) <= usize::MAX,
        tiles@.len() == volume(grid_of(image_dims@, ztile@)),
        forall|k: int|
            0 <= k < tiles@.len() ==> (#[trigger] tiles@[k])@.len() == tile_volume(
                image_dims@,
                ztile@,
                k,
            ),
    ensures
        r@ == assembled(contents(tiles@), image_dims@, ztile@),
{
    let npix: usize = match checked_volume(image_dims) {
        Some(n) => n,
        None => 0,
    };
    let ghost all = contents(tiles@);
    let mut full: Vec<T> = Vec::new();
    let mut i: usize = 0;
    while i < npix
        invariant
            i <= npix,
            full@.len() == i,
            forall|p: int| 0 <= p < i ==> full@[p] == blank,
        decreases npix - i,
    {
        full.push(blank);
        i += 1;
    }
    proof {
        assert forall|p: int| 0 <= p < npix implies full@[p] == #[trigger] partly_assembled(
            all,
            image_dims@,
            ztile@,
            0,
            blank,
        )[p] by {
            lemma_tile_index_bound(image_dims@, ztile@, p);
        }
        assert(full@ =~= partly_assembled(all, image_dims@, ztile@, 0, blank));
    }
    let mut k: usize = 0;
    while k < tiles.len()
        invariant
            k <= tiles@.len(),
            image_dims@.len() <= ztile@.len(),
            tiles@.len() == volume(grid_of(image_dims@, ztile@)),
            forall|k: int|
                0 <= k < tiles@.len() ==> (#[trigger] tiles@[k])@.len() == tile_volume(
                    image_dims@,
                    ztile@,
                    k,
                ),
            all == contents(tiles@),
            full@ == partly_assembled(all, image_dims@, ztile@, k as int, blank),
        decreases tiles@.len() - k,
    {
        let (coords, dims) = tile_box(image_dims, ztile, k);
        scatter_tile(
            &mut full,
            image_dims,
            ztile,
            dims.as_slice(),
            coords.as_slice(),
            tiles[k].as_slice(),
        );
        proof {
            lemma_assemble_step(all, image_dims@, ztile@, k as int, blank);
        }
        k += 1;
    }
    proof {
        lemma_assembled(all, image_dims@, ztile@, blank);
    }
    full
}

/// Putting together tiles whose pixels were each changed gives the image with each
/// pixel changed.
pub proof fn lemma_assembled_map<A, B>(
    tiles: Seq<Seq<A>>,
    other: Seq<Seq<B>>,
    image: Seq<usize>,
    ztile: Seq<usize>,
    f: spec_fn(A) -> B,
)
    requires
        image.len() <= ztile.len(),
        tiles.len() == volume(grid_of(image, ztile)),
        other.len() == tiles.len(),
        forall|k: int|
            0 <= k < tiles.len() ==> (#[trigger] tiles[k]).len() == tile_volume(image, ztile, k),
        forall|k: int, i: int|
            0 <= k < tiles.len() && 0 <= i < tiles[k].len() ==> #[trigger] other[k][i] == f(
                tiles[k][i],
            ),
    ensures
        forall|p: int|
            0 <= p < volume(image) ==> #[trigger] assembled(other, image, ztile)[p] == f(
                assembled(tiles, image, ztile)[p],
            ),
{
    assert forall|p: int| 0 <= p < volume(image) implies #[trigger] assembled(
        other,
        image,
        ztile,
    )[p] == f(assembled(tiles, image, ztile)[p]) by {
        lemma_tile_index_bound(image, ztile, p);
        let k = tile_index_of(p, image, ztile);
        tiles_partition_image(image, ztile, p, k);
        assert(tiles[k].len() == tile_volume(image, ztile, k));
        assert(other[k][place_in_tile(p, image, ztile)] == f(
            tiles[k][place_in_tile(p, image, ztile)],
        ));
    }
}

/// A tile of an image with each pixel changed is the tile with each pixel changed.
pub proof fn lemma_tile_map<A, B>(
    full: Seq<A>,
    other: Seq<B>,
    image: Seq<usize>,
    ztile: Seq<usize>,
    k: int,
    f: spec_fn(A) -> B,
)
    requires
        image.len() <= ztile.len(),
        full.len() == volume(image),
        other.len() == full.len(),
        forall|i: int| 0 <= i < full.len() ==> #[trigger] other[i] == f(full[i]),
        0 <= k < volume(grid_of(image, ztile)),
    ensures
        tile_of(full, image, ztile, k).len() == tile_volume(image, ztile, k),
        tile_of(other, image, ztile, k).len() == tile_volume(image, ztile, k),
        forall|i: int|
            0 <= i < tile_volume(image, ztile, k) ==> #[trigger] tile_of(
                other,
                image,
                ztile,
                k,
            )[i] == f(tile_of(full, image, ztile, k)[i]),
{
    let tc = unflat(k, grid_of(image, ztile));
    flat_inverts_unflat(k, grid_of(image, ztile));
    lemma_tile_fits(image, ztile, tc);
    let o = tile_origin(tc, ztile);
    let d = tile_dims_of(image, ztile, tc);
    assert forall|i: int| 0 <= i < tile_volume(image, ztile, k) implies #[trigger] tile_of(
        other,
        image,
        ztile,
        k,
    )[i] == f(tile_of(full, image, ztile, k)[i]) by {
        flat_inverts_unflat(i, d);
        lemma_box_coords(unflat(i, d), o, d, image);
        lemma_flat_bound(shifted(unflat(i, d), o), image);
        assert(other[flat(shifted(unflat(i, d), o), image)] == f(
            full[flat(shifted(unflat(i, d), o), image)],
        ));
    }
}

/// One step along an axis passes all pixels that the axes before it have together: the first
/// axis is the fastest.
pub proof fn step_along_axis(coords: Seq<int>, dims: Seq<usize>, a: int)
    requires
        coords.len() == dims.len(),
        0 <= a < dims.len(),
    ensures
        flat(coords.update(a, coords[a] + 1), dims) == flat(coords, dims) + volume(dims.take(a)),
    decreases dims.len(),
{
    let next = coords.update(a, coords[a] + 1);
    let c = coords.skip(1);
    let d = dims.skip(1);
    if a == 0 {
        assert(next.skip(1) =~= c);
        assert(dims.take(0).len() == 0);
    } else {
        assert(next.skip(1) =~= c.update(a - 1, c[a - 1] + 1));
        step_along_axis(c, d, a - 1);
        assert(dims.take(a).skip(1) =~= d.take(a - 1));
        assert(dims.take(a)[0] == dims[0]);
        let n = dims[0] as int;
        let f = flat(c, d);
        let v = volume(d.take(a - 1)) as int;
        assert(n * (f + v) == n * f + n * v) by (nonlinear_arith);
    }
}

/// The pixel at some place of a box is the one at that place behind the origin of the box.
pub proof fn gathered_in_place<T>(
    full: Seq<T>,
    image: Seq<usize>,
    origin: Seq<int>,
    tile: Seq<usize>,
    coords: Seq<int>,
)
    requires
        box_fits(origin, tile, image),
        within(coords, tile),
    ensures
        0 <= flat(coords, tile) < gathered(full, image, origin, tile).len(),
        gathered(full, image, origin, tile)[flat(coords, tile)] == full[flat(
            shifted(coords, origin),
            image,
        )],
{
    lemma_flat_bound(coords, tile);
    unflat_inverts_flat(coords, tile);
}

/// Pixels that are put into a box are the pixels of that box, and all pixels outside it are
/// left as they were.
pub proof fn scattered_in_place<T>(
    full: Seq<T>,
    image: Seq<usize>,
    origin: Seq<int>,
    tile: Seq<usize>,
    values: Seq<T>,
    coords: Seq<int>,
)
    requires
        box_fits(origin, tile, image),
        full.len() == volume(image),
        values.len() == volume(tile),
        within(coords, image),
    ensures
        ({
            let all = scattered(full, image, origin, tile, values, values.len() as int);
            &&& gathered(all, image, origin, tile) == values
            &&& !within(relative(coords, origin), tile) ==> all[flat(coords, image)] == full[flat(
                coords,
                image,
            )]
        }),
{
    let all = scattered(full, image, origin, tile, values, values.len() as int);
    let part = gathered(all, image, origin, tile);
    assert forall|k: int| 0 <= k < values.len() implies #[trigger] part[k] == values[k] by {
        flat_inverts_unflat(k, tile);
        let c = unflat(k, tile);
        lemma_box_coords(c, origin, tile, image);
        let s = shifted(c, origin);
        lemma_flat_bound(s, image);
        unflat_inverts_flat(s, image);
    }
    assert(part =~= values);
    lemma_flat_bound(coords, image);
    unflat_inverts_flat(coords, image);
}

} // verus!
