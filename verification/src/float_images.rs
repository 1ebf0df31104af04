//! Quantized floating-point images. Which pixels are undefined, which are exact zeros and
//! which element of the pseudo-random sequence each takes is decided here; the arithmetic
//! on floating-point numbers comes from the caller, as a function.
use crate::dither;
use crate::dither::{PixelPlan, QuantizePlan};
use crate::error::{Error, ErrorView, Result};
use crate::grid;
use crate::hdu::{Hdu, HduView};
use crate::image_data::{ImageData, ImageView};
use crate::quantized_reading;
use crate::tile_compress;
use crate::tile_compress::{
    CompressedImage, CompressedView, FloatBits, FloatTile, FloatTileView, Quantize,
};
use crate::tile_encode;
use crate::tile_encode::{CompressOptions, QuantizedTile};
use crate::types::Bitpix;
use crate::words;
use vstd::prelude::*;

verus! {

/// The seed of the dithering: 1 where none is given.
pub open spec fn seed_of(zdither0: Option<int>) -> int {
    match zdither0 {
        Some(s) => s,
        None => 1,
    }
}

/// An optional number as a 64-bit integer.
pub open spec fn narrow(v: Option<int>) -> Option<i64> {
    match v {
        Some(i) => Some(i as i64),
        None => None,
    }
}

/// Whether bit patterns are the pixels of tile `k`: those of a raw tile, or what `scale_by`
/// makes of each quantized pixel.
pub open spec fn tile_scaled<F: Fn(PixelPlan, FloatBits, FloatBits) -> u64>(
    c: CompressedView,
    starts: Seq<usize>,
    scale_by: F,
    tile: FloatTileView,
    k: int,
    pixels: Seq<int>,
) -> bool {
    match tile {
        FloatTileView::Raw(v) => pixels == v,
        FloatTileView::Quantized { samples, scale, zero, blank } => {
            let index = dither::tile_indices(starts, k, seed_of(c.zdither0), samples.len());
            &&& pixels.len() == samples.len()
            &&& forall|i: int|
                0 <= i < pixels.len() ==> 0 <= #[trigger] pixels[i] <= u64::MAX && call_ensures(
                    scale_by,
                    (
                        dither::plan_of(c.quantize, samples[i] as i64, narrow(blank), index[i]),
                        scale,
                        zero,
                    ),
                    pixels[i] as u64,
                )
        },
    }
}

/// Whether an image is put together from the pixels of tiles.
pub open spec fn image_scaled<F: Fn(PixelPlan, FloatBits, FloatBits) -> u64>(
    c: CompressedView,
    starts: Seq<usize>,
    scale_by: F,
    tiles: Seq<FloatTileView>,
    image: ImageView,
    pixels: Seq<Seq<int>>,
) -> bool {
    &&& pixels.len() == tiles.len()
    &&& forall|k: int|
        0 <= k < tiles.len() ==> tile_scaled(
            c,
            starts,
            scale_by,
            tiles[k],
            k,
            #[trigger] pixels[k],
        )
    &&& image == tile_compress::float_image(c, pixels)
}

impl<'a> CompressedImage<'a> {
    /// Scale the quantized pixels of tile `k`.
    fn unquantize<F: Fn(PixelPlan, FloatBits, FloatBits) -> u64>(
        &self,
        k: usize,
        samples: &[i64],
        scale: FloatBits,
        zero: FloatBits,
        blank: Option<i64>,
        starts: &[usize],
        scale_by: &F,
    ) -> (r: Vec<u64>)
        requires
            dither::starts_valid(starts@),
            forall|p: PixelPlan, s: FloatBits, z: FloatBits|
                #[trigger] call_requires(*scale_by, (p, s, z)),
        ensures
            r@.len() == samples@.len(),
            tile_scaled(
                self@,
                starts@,
                *scale_by,
                FloatTileView::Quantized {
                    samples: tile_compress::numbers_of(samples@),
                    scale,
                    zero,
                    blank: tile_compress::int_value(blank),
                },
                k as int,
                words::numbers(r@),
            ),
    {
        let plans: Vec<PixelPlan> = dither::unquantize_plan(
            self.quantize,
            samples,
            blank,
            k,
            self.zdither0,
            starts,
        );
        let n: usize = samples.len();
        let mut out: Vec<u64> = Vec::new();
        let mut i: usize = 0;
        while i < n
            invariant
                i <= n,
                n == plans@.len(),
                out@.len() == i,
                forall|p: PixelPlan, s: FloatBits, z: FloatBits|
                    #[trigger] call_requires(*scale_by, (p, s, z)),
                forall|j: int|
                    0 <= j < i ==> call_ensures(
                        *scale_by,
                        (plans@[j], scale, zero),
                        #[trigger] out@[j],
                    ),
            decreases n - i,
        {
            out.push(scale_by(plans[i], scale, zero));
            i += 1;
        }
        proof {
            let pixels = words::numbers(out@);
            let index = dither::tile_indices(
                starts@,
                k as int,
                seed_of(self@.zdither0),
                samples@.len(),
            );
            assert forall|j: int| 0 <= j < pixels.len() implies 0 <= #[trigger] pixels[j]
                <= u64::MAX && call_ensures(
                *scale_by,
                (
                    dither::plan_of(
                        self.quantize,
                        tile_compress::numbers_of(samples@)[j] as i64,
                        narrow(tile_compress::int_value(blank)),
                        index[j],
                    ),
                    scale,
                    zero,
                ),
                pixels[j] as u64,
            ) by {
                assert(pixels[j] == out@[j]);
                assert(plans@[j] == dither::plan_of(
                    self.quantize,
                    samples@[j],
                    blank,
                    index[j],
                ));
            }
        }
        out
    }

    /// Decompress all tiles of a floating-point image, scale them, and put the image together.
    /// `scale_by` gives the bit pattern of a pixel from what becomes of it and from the
    /// scale and the zero point of its tile; `starts` says where each run through the
    /// pseudo-random sequence starts.
    fn decompress_scaled<F: Fn(PixelPlan, FloatBits, FloatBits) -> u64>(
        &self,
        starts: &[usize],
        scale_by: F,
    ) -> (r: Result<ImageData>)
        requires
            self@.zbitpix < 0,
            self@.geometry.znaxis.len() <= self@.geometry.ztile.len(),
            dither::starts_valid(starts@),
            forall|p: PixelPlan, s: FloatBits, z: FloatBits|
                #[trigger] call_requires(scale_by, (p, s, z)),
        ensures
            match (r, tile_compress::float_tiles_of(self@)) {
                (Ok(image), Ok(tiles)) => exists|pixels: Seq<Seq<int>>| #[trigger]
                    image_scaled(self@, starts@, scale_by, tiles, image@, pixels),
                (Err(e), Err(f)) => e@ == f,
                _ => false,
            },
    {
        let tiles: Vec<FloatTile> = match self.float_tiles() {
            Ok(t) => t,
            Err(e) => return Err(e),
        };
        let ghost views = tile_compress::float_views(tiles@);
        let mut patterns: Vec<Vec<u64>> = Vec::new();
        let mut k: usize = 0;
        while k < tiles.len()
            invariant
                k <= tiles@.len(),
                patterns@.len() == k,
                views == tile_compress::float_views(tiles@),
                dither::starts_valid(starts@),
                forall|p: PixelPlan, s: FloatBits, z: FloatBits|
                    #[trigger] call_requires(scale_by, (p, s, z)),
                forall|j: int|
                    0 <= j < tiles@.len() ==> tile_compress::tile_whole(
                        #[trigger] tiles@[j],
                        self@.geometry,
                        j,
                    ),
                forall|j: int|
                    0 <= j < k ==> (#[trigger] patterns@[j])@.len() == grid::tile_volume(
                        self@.geometry.znaxis,
                        self@.geometry.ztile,
                        j,
                    ) && tile_scaled(
                        self@,
                        starts@,
                        scale_by,
                        views[j],
                        j,
                        words::numbers(patterns@[j]@),
                    ),
            decreases tiles@.len() - k,
        {
            assert(tile_compress::tile_whole(tiles@[k as int], self@.geometry, k as int));
            assert(views[k as int] == tiles@[k as int]@);
            let pixels: Vec<u64> = match &tiles[k] {
                FloatTile::Raw(v) => vstd::slice::slice_to_vec(v.as_slice()),
                FloatTile::Quantized { samples, scale, zero, blank } => self.unquantize(
                    k,
                    samples.as_slice(),
                    *scale,
                    *zero,
                    *blank,
                    starts,
                    &scale_by,
                ),
            };
            patterns.push(pixels);
            k += 1;
        }
        let r = self.assemble_floats(patterns.as_slice());
        proof {
            let px = tile_compress::pattern_tiles(patterns@);
            assert(tile_compress::tiles_complete(patterns@, self@.geometry));
            assert forall|j: int| 0 <= j < views.len() implies tile_scaled(
                self@,
                starts@,
                scale_by,
                views[j],
                j,
                #[trigger] px[j],
            ) by {
                assert(px[j] == words::numbers(patterns@[j]@));
            }
            match &r {
                Ok(image) => {
                    assert(image_scaled(self@, starts@, scale_by, views, image@, px));
                },
                Err(_) => {},
            }
        }
        r
    }

    /// Decompress all tiles and reassemble the full image into an [`ImageData`].
    ///
    /// Integer `ZBITPIX` images are decoded with `RICE_1`, `GZIP_1`/`GZIP_2`, `PLIO_1`,
    /// `HCOMPRESS_1` and `NOCOMPRESS`. Float images are decoded from raw floats, or from
    /// quantized integers: for these, `scale_by` gives the bit pattern of a pixel from what
    /// becomes of it and from the scale and the zero point of its tile, and `starts` says where
    /// each run through the pseudo-random sequence starts. An image without quantized tiles
    /// does not depend on the two.
    pub fn decompress<F: Fn(PixelPlan, FloatBits, FloatBits) -> u64>(
        &self,
        starts: &[usize],
        scale_by: F,
    ) -> (r: Result<ImageData>)
        requires
            self@.geometry.znaxis.len() <= self@.geometry.ztile.len(),
            dither::starts_valid(starts@),
            forall|p: PixelPlan, s: FloatBits, z: FloatBits|
                #[trigger] call_requires(scale_by, (p, s, z)),
        ensures
            self@.zbitpix >= 0 ==> match (r, tile_compress::decompressed_int(self@)) {
                (Ok(image), Ok(t)) => image@ == t,
                (Err(e), Err(f)) => e@ == f,
                _ => false,
            },
            self@.zbitpix < 0 ==> match (r, tile_compress::float_tiles_of(self@)) {
                (Ok(image), Ok(tiles)) => exists|pixels: Seq<Seq<int>>| #[trigger]
                    image_scaled(self@, starts@, scale_by, tiles, image@, pixels),
                (Err(e), Err(f)) => e@ == f,
                _ => false,
            },
            tile_compress::decompressed(self@) matches Ok(t) ==> r matches Ok(image) && image@
                == t,
    {
        if self.zbitpix >= 0 {
            return self.decompress_exact();
        }
        let r = self.decompress_scaled(starts, scale_by);
        proof {
            match (&r, tile_compress::float_tiles_of(self@)) {
                (Ok(image), Ok(tiles)) => if tile_compress::all_raw(tiles) {
                    let pixels = choose|pixels: Seq<Seq<int>>| #[trigger]
                        image_scaled(self@, starts@, scale_by, tiles, image@, pixels);
                    assert forall|k: int| 0 <= k < tiles.len() implies pixels[k]
                        == tile_compress::patterns(tiles)[k] by {
                        assert(tiles[k] is Raw);
                        assert(tile_scaled(self@, starts@, scale_by, tiles[k], k, pixels[k]));
                    }
                    assert(pixels =~= tile_compress::patterns(tiles));
                },
                _ => {},
            }
        }
        r
    }
}

/// What becomes of each pixel of tile `k` that is quantized.
pub open spec fn tile_plans(
    opts: CompressOptions,
    wide: bool,
    starts: Seq<usize>,
    k: int,
    bits: Seq<u64>,
) -> Seq<QuantizePlan> {
    let index = dither::tile_indices(
        starts,
        k,
        seed_of(tile_compress::int_value(opts.dither_seed)),
        bits.len(),
    );
    Seq::new(
        bits.len(),
        |i: int| dither::quantize_plan_of(opts.dither, bits[i], wide, index[i]),
    )
}

/// Whether a quantized tile holds what `round_by` made of the pixels of tile `k`: its scale,
/// its zero point and its rounded values, with the values that flag undefined pixels and
/// exact zeros in their places.
pub open spec fn tile_rounded<F: Fn(&[u64], &[QuantizePlan]) -> (u64, u64, Vec<i64>)>(
    opts: CompressOptions,
    wide: bool,
    starts: Seq<usize>,
    round_by: F,
    k: int,
    bits: Seq<int>,
    tile: QuantizedTile,
) -> bool {
    exists|b: &[u64], p: &[QuantizePlan], out: (u64, u64, Vec<i64>)|
        {
            &&& #[trigger] call_ensures(round_by, (b, p), out)
            &&& words::numbers(b@) == bits
            &&& p@ == tile_plans(opts, wide, starts, k, b@)
            &&& tile.scale == out.0
            &&& tile.zero == out.1
            &&& tile.samples@ == rounded_samples(p@, out.2@)
            &&& out.2@.len() == bits.len()
        }
}

/// Whether `round_by` can give some other number of values than tile `k` has pixels.
pub open spec fn tile_misrounded<F: Fn(&[u64], &[QuantizePlan]) -> (u64, u64, Vec<i64>)>(
    opts: CompressOptions,
    wide: bool,
    starts: Seq<usize>,
    round_by: F,
    k: int,
    bits: Seq<int>,
) -> bool {
    exists|b: &[u64], p: &[QuantizePlan], out: (u64, u64, Vec<i64>)|
        {
            &&& #[trigger] call_ensures(round_by, (b, p), out)
            &&& words::numbers(b@) == bits
            &&& p@ == tile_plans(opts, wide, starts, k, b@)
            &&& out.2@.len() != bits.len()
        }
}

/// The quantized values of a tile from what becomes of its pixels and the rounded values.
pub open spec fn rounded_samples(plans: Seq<QuantizePlan>, rounded: Seq<i64>) -> Seq<i64> {
    Seq::new(plans.len(), |i: int| dither::sample_of(plans[i], rounded[i]))
}

/// Whether quantized tiles hold what `round_by` made of the tiles of an image.
pub open spec fn image_rounded<F: Fn(&[u64], &[QuantizePlan]) -> (u64, u64, Vec<i64>)>(
    image: ImageView,
    opts: CompressOptions,
    starts: Seq<usize>,
    round_by: F,
    tiles: Seq<QuantizedTile>,
) -> bool {
    let ztile = tile_encode::wanted_tile(opts, image.axes);
    &&& tiles.len() == grid::volume(grid::grid_of(image.axes, ztile))
    &&& forall|k: int|
        0 <= k < tiles.len() ==> tile_rounded(
            opts,
            image.pixels.kind == Bitpix::F64,
            starts,
            round_by,
            k,
            grid::tile_of(image.pixels.values, image.axes, ztile, k),
            #[trigger] tiles[k],
        )
}

/// Whether `round_by` can give some other number of values than tile `k` of an image has
/// pixels.
pub open spec fn image_misrounded<F: Fn(&[u64], &[QuantizePlan]) -> (u64, u64, Vec<i64>)>(
    image: ImageView,
    opts: CompressOptions,
    starts: Seq<usize>,
    round_by: F,
    k: int,
) -> bool {
    let ztile = tile_encode::wanted_tile(opts, image.axes);
    &&& 0 <= k < grid::volume(grid::grid_of(image.axes, ztile))
    &&& tile_misrounded(
        opts,
        image.pixels.kind == Bitpix::F64,
        starts,
        round_by,
        k,
        grid::tile_of(image.pixels.values, image.axes, ztile, k),
    )
}

/// Whether an HDU holds the quantized tiles that `round_by` made of an image.
pub open spec fn holds_rounded<F: Fn(&[u64], &[QuantizePlan]) -> (u64, u64, Vec<i64>)>(
    image: ImageView,
    opts: CompressOptions,
    starts: Seq<usize>,
    round_by: F,
    u: HduView,
    tiles: Seq<QuantizedTile>,
) -> bool {
    &&& image_rounded(image, opts, starts, round_by, tiles)
    &&& exists|encs: Seq<Seq<u8>>|
        #[trigger] tile_encode::encodes_quantized(encs, tiles, opts) && u
            == tile_encode::quantized_hdu(image, opts, encs, tiles)
}

/// Quantize the pixels of tile `k`; `None` where `round_by` gives some other number of
/// values than the tile has pixels.
fn quantize_tile<F: Fn(&[u64], &[QuantizePlan]) -> (u64, u64, Vec<i64>)>(
    bits: &[u64],
    opts: &CompressOptions,
    wide: bool,
    k: usize,
    starts: &[usize],
    round_by: &F,
) -> (r: Option<QuantizedTile>)
    requires
        dither::starts_valid(starts@),
        forall|b: &[u64], p: &[QuantizePlan]| #[trigger] call_requires(*round_by, (b, p)),
    ensures
        match r {
            Some(tile) => tile.samples@.len() == bits@.len() && tile_rounded(
                *opts,
                wide,
                starts@,
                *round_by,
                k as int,
                words::numbers(bits@),
                tile,
            ),
            None => tile_misrounded(
                *opts,
                wide,
                starts@,
                *round_by,
                k as int,
                words::numbers(bits@),
            ),
        },
{
    let plans: Vec<QuantizePlan> = dither::quantize_plan(
        opts.dither,
        bits,
        wide,
        k,
        opts.dither_seed,
        starts,
    );
    let p = plans.as_slice();
    let out: (u64, u64, Vec<i64>) = round_by(bits, p);
    assert(p@ =~= tile_plans(*opts, wide, starts@, k as int, bits@));
    let ghost given = out;
    assert(call_ensures(*round_by, (bits, p), given));
    if out.2.len() != bits.len() {
        return None;
    }
    let samples: Vec<i64> = dither::quantized_samples(p, out.2.as_slice());
    assert(samples@ =~= rounded_samples(p@, given.2@));
    Some(QuantizedTile { samples, scale: out.0, zero: out.1 })
}

/// Compress a floating-point image (`ZBITPIX` -32/-64): without `opts.quantize` losslessly,
/// as [`compress_exact`](crate::tile_encode::compress_exact) does, else with per-tile
/// quantization. `round_by` gives the scale, the zero point and the rounded scaled values of
/// a tile from the bit patterns of its pixels and from what becomes of each; `starts` says
/// where each run through the pseudo-random sequence starts.
pub fn compress_float_image<F: Fn(&[u64], &[QuantizePlan]) -> (u64, u64, Vec<i64>)>(
    image: &ImageData,
    opts: &CompressOptions,
    starts: &[usize],
    round_by: F,
) -> (r: Result<Hdu>)
    requires
        dither::starts_valid(starts@),
        forall|b: &[u64], p: &[QuantizePlan]| #[trigger] call_requires(round_by, (b, p)),
    ensures
        opts.quantize is None ==> match (r, tile_encode::compress_error(image@, *opts)) {
            (Ok(u), None) => tile_encode::compresses(image@, *opts, u@),
            (Err(e), Some(f)) => e@ == f,
            _ => false,
        },
        opts.quantize is Some ==> match (r, tile_encode::shape_error(image@, *opts)) {
            (Ok(u), None) => image@.pixels.kind.number() < 0 && exists|tiles: Seq<QuantizedTile>|
                #[trigger] holds_rounded(image@, *opts, starts@, round_by, u@, tiles),
            (Err(e), Some(f)) => e@ == f,
            (Err(e), None) => if image@.pixels.kind.number() > 0 {
                e@ == ErrorView::CompressionError("not a float image"@)
            } else {
                e@ == ErrorView::CompressionError("a tile has a wrong number of values"@) && exists|
                    k: int,
                | #[trigger]
                    image_misrounded(image@, *opts, starts@, round_by, k)
            },
            _ => false,
        },
{
    if opts.quantize.is_none() {
        return tile_encode::compress_exact(image, opts);
    }
    let cut: Vec<Vec<u64>> = match tile_encode::cut_float_tiles(image, opts) {
        Ok(c) => c,
        Err(e) => return Err(e),
    };
    let wide: bool = match image.bitpix() {
        Bitpix::F64 => true,
        _ => false,
    };
    let ghost ztile = tile_encode::wanted_tile(*opts, image@.axes);
    let mut tiles: Vec<QuantizedTile> = Vec::new();
    let mut k: usize = 0;
    while k < cut.len()
        invariant
            k <= cut@.len(),
            tiles@.len() == k,
            dither::starts_valid(starts@),
            forall|b: &[u64], p: &[QuantizePlan]| #[trigger] call_requires(round_by, (b, p)),
            opts.quantize is Some,
            wide == (image@.pixels.kind == Bitpix::F64),
            ztile == tile_encode::wanted_tile(*opts, image@.axes),
            tile_encode::shape_error(image@, *opts) is None,
            image@.pixels.kind.number() < 0,
            cut@.len() == grid::volume(grid::grid_of(image@.axes, ztile)),
            forall|j: int|
                0 <= j < cut@.len() ==> words::numbers((#[trigger] cut@[j])@) == grid::tile_of(
                    image@.pixels.values,
                    image@.axes,
                    ztile,
                    j,
                ),
            forall|j: int|
                0 <= j < k ==> (#[trigger] tiles@[j]).samples@.len() == cut@[j]@.len()
                    && tile_rounded(
                    *opts,
                    wide,
                    starts@,
                    round_by,
                    j,
                    grid::tile_of(image@.pixels.values, image@.axes, ztile, j),
                    tiles@[j],
                ),
        decreases cut@.len() - k,
    {
        let bits = cut[k].as_slice();
        assert(words::numbers(cut@[k as int]@) == grid::tile_of(
            image@.pixels.values,
            image@.axes,
            ztile,
            k as int,
        ));
        match quantize_tile(bits, opts, wide, k, starts, &round_by) {
            Some(tile) => tiles.push(tile),
            None => {
                assert(image_misrounded(image@, *opts, starts@, round_by, k as int));
                return Err(
                    Error::CompressionError("a tile has a wrong number of values".to_owned()),
                );
            },
        }
        k += 1;
    }
    proof {
        assert forall|j: int| 0 <= j < tiles@.len() implies (#[trigger] tiles@[j]).samples@.len()
            == grid::tile_volume(image@.axes, ztile, j) by {
            let t = grid::tile_of(image@.pixels.values, image@.axes, ztile, j);
            assert(words::numbers(cut@[j]@).len() == t.len());
            grid::lemma_tile_map(
                image@.pixels.values,
                image@.pixels.values,
                image@.axes,
                ztile,
                j,
                |v: int| v,
            );
        }
        assert(tile_encode::quantized_complete(tiles@, image@.axes, ztile));
    }
    let r = tile_encode::compress_quantized(image, opts, tiles.as_slice());
    proof {
        match &r {
            Ok(u) => {
                assert(image_rounded(image@, *opts, starts@, round_by, tiles@));
                assert(holds_rounded(image@, *opts, starts@, round_by, u@, tiles@));
            },
            Err(_) => {},
        }
    }
    r
}

/// Whether an image is compressed as it is: an integer image, or one that is not quantized.
pub open spec fn compressed_exactly(image: ImageView, opts: CompressOptions) -> bool {
    image.pixels.kind.number() > 0 || opts.quantize is None
}

/// Compress an [`ImageData`] into a tile-compressed BINTABLE [`Hdu`] (`ZIMAGE = T`).
///
/// The returned HDU's `data` is [`HduData::BinTable`](crate::hdu::HduData::BinTable) with a
/// `COMPRESSED_DATA` (`1PB`) variable-length-array column holding one RICE/GZIP-encoded tile
/// per row, plus the full set of `Z*` driver keywords. It is ready to hand to
/// [`FitsFile::push_extension`](crate::fits::FitsFile::push_extension).
///
/// - Integer images (`ZBITPIX` 8/16/32) compress losslessly with `RICE_1`/`GZIP_1`/
///   `GZIP_2`.
/// - Float images (`ZBITPIX` -32/-64) compress losslessly with `GZIP_1` when
///   `opts.quantize` is `None` (raw big-endian floats, `ZQUANTIZ` = `NONE`), else with
///   per-tile quantization: see [`compress_float_image`] for `starts` and `round_by`, which
///   nothing else depends on.
///
/// `PLIO_1`, `HCOMPRESS_1`, `NOCOMPRESS`, and 64-bit integer images are rejected with
/// [`Error::UnsupportedCompression`]/[`Error::CompressionError`].
pub fn compress_image<F: Fn(&[u64], &[QuantizePlan]) -> (u64, u64, Vec<i64>)>(
    image: &ImageData,
    opts: &CompressOptions,
    starts: &[usize],
    round_by: F,
) -> (r: Result<Hdu>)
    requires
        dither::starts_valid(starts@),
        forall|b: &[u64], p: &[QuantizePlan]| #[trigger] call_requires(round_by, (b, p)),
    ensures
        compressed_exactly(image@, *opts) ==> match (
            r,
            tile_encode::compress_error(image@, *opts),
        ) {
            (Ok(u), None) => tile_encode::compresses(image@, *opts, u@),
            (Err(e), Some(f)) => e@ == f,
            _ => false,
        },
        !compressed_exactly(image@, *opts) ==> match (r, tile_encode::shape_error(image@, *opts)) {
            (Ok(u), None) => exists|tiles: Seq<QuantizedTile>| #[trigger]
                holds_rounded(image@, *opts, starts@, round_by, u@, tiles),
            (Err(e), Some(f)) => e@ == f,
            (Err(e), None) => e@ == ErrorView::CompressionError(
                "a tile has a wrong number of values"@,
            ) && exists|k: int| #[trigger]
                image_misrounded(image@, *opts, starts@, round_by, k),
            _ => false,
        },
{
    if image.bitpix().to_i64() > 0 {
        tile_encode::compress_exact(image, opts)
    } else {
        compress_float_image(image, opts, starts, round_by)
    }
}

impl ImageData {
    /// Compress this image into a tile-compressed BINTABLE [`Hdu`] (`ZIMAGE = T`),
    /// ready for [`FitsFile::push_extension`](crate::fits::FitsFile::push_extension).
    ///
    /// Thin wrapper over [`compress_image`]. The round-trip inverse is
    /// [`Hdu::as_compressed_image`] + [`CompressedImage::decompress`].
    pub fn compress<F: Fn(&[u64], &[QuantizePlan]) -> (u64, u64, Vec<i64>)>(
        &self,
        opts: &CompressOptions,
        starts: &[usize],
        round_by: F,
    ) -> (r: Result<Hdu>)
        requires
            dither::starts_valid(starts@),
            forall|b: &[u64], p: &[QuantizePlan]| #[trigger] call_requires(round_by, (b, p)),
        ensures
            compressed_exactly(self@, *opts) ==> match (
                r,
                tile_encode::compress_error(self@, *opts),
            ) {
                (Ok(u), None) => tile_encode::compresses(self@, *opts, u@),
                (Err(e), Some(f)) => e@ == f,
                _ => false,
            },
            !compressed_exactly(self@, *opts) ==> match (
                r,
                tile_encode::shape_error(self@, *opts),
            ) {
                (Ok(u), None) => exists|tiles: Seq<QuantizedTile>| #[trigger]
                    holds_rounded(self@, *opts, starts@, round_by, u@, tiles),
                (Err(e), Some(f)) => e@ == f,
                (Err(e), None) => e@ == ErrorView::CompressionError(
                    "a tile has a wrong number of values"@,
                ) && exists|k: int| #[trigger]
                    image_misrounded(self@, *opts, starts@, round_by, k),
                _ => false,
            },
    {
        compress_image(self, opts, starts, round_by)
    }
}

/// A pixel comes back as it went: what a reader takes a quantized pixel for, with the method
/// and the seed that the header holds, is what the writer took it for, unless the rounded
/// value is one of those that flag undefined pixels and exact zeros.
pub proof fn quantized_pixel_returns(
    opts: CompressOptions,
    wide: bool,
    starts: Seq<usize>,
    k: int,
    bits: Seq<u64>,
    rounded: Seq<i64>,
    i: int,
)
    requires
        rounded.len() == bits.len(),
        0 <= i < bits.len(),
        rounded[i] != dither::NULL_VALUE,
        opts.dither == Quantize::SubtractiveDither2 ==> rounded[i] != dither::ZERO_VALUE,
    ensures
        ({
            let plans = tile_plans(opts, wide, starts, k, bits);
            let index = dither::tile_indices(
                starts,
                k,
                seed_of(quantized_reading::written_seed(opts)),
                bits.len(),
            );
            dither::plan_of(
                opts.dither,
                rounded_samples(plans, rounded)[i],
                Some(dither::NULL_VALUE),
                index[i],
            ) == match plans[i] {
                QuantizePlan::Null => PixelPlan::Blank,
                QuantizePlan::Zero => PixelPlan::Zero,
                QuantizePlan::Plain => PixelPlan::Plain(rounded[i]),
                QuantizePlan::Dithered(j) => PixelPlan::Dithered(rounded[i], j),
            }
        }),
{
    let index = dither::tile_indices(
        starts,
        k,
        seed_of(tile_compress::int_value(opts.dither_seed)),
        bits.len(),
    );
    dither::decoding_follows_encoding(opts.dither, bits[i], wide, index[i], rounded[i]);
}

/// The elements of the sequence for the first pixels of a tile, up to the end of the first run.
proof fn lemma_first_run(starts: Seq<usize>, k: int, seed: int, n: nat, i: int)
    requires
        dither::starts_valid(starts),
        0 <= i < n,
        starts[(k + seed - 1) % 10000] + i < 10000,
    ensures
        dither::tile_indices(starts, k, seed, n).len() == n,
        dither::tile_indices(starts, k, seed, n)[i] == starts[(k + seed - 1) % 10000] + i,
    decreases i,
{
    dither::pixels_take_turns(starts, k, seed, n, if i > 0 {
        i - 1
    } else {
        0
    });
    if i > 0 {
        lemma_first_run(starts, k, seed, n, i - 1);
    }
}

/// A quantized pixel is scaled with the element of the sequence whose turn it is: tile `k` takes
/// the elements from where the run of element `k`, moved on by the seed less one, starts.
/// Without a seed it is one. Undefined pixels and exact zeros take their turn, but are not
/// scaled.
pub proof fn pixels_are_scaled_in_turn<F: Fn(PixelPlan, FloatBits, FloatBits) -> u64>(
    c: CompressedView,
    starts: Seq<usize>,
    scale_by: F,
    samples: Seq<int>,
    scale: FloatBits,
    zero: FloatBits,
    blank: Option<int>,
    k: int,
    pixels: Seq<int>,
    seed: int,
    i: int,
)
    requires
        dither::starts_valid(starts),
        tile_scaled(
            c,
            starts,
            scale_by,
            FloatTileView::Quantized { samples, scale, zero, blank },
            k,
            pixels,
        ),
        c.zdither0 == Some(seed) || c.zdither0 is None && seed == 1,
        0 <= i < samples.len(),
        i64::MIN <= samples[i] <= i64::MAX,
        blank matches Some(b) ==> i64::MIN <= b <= i64::MAX,
        starts[(k + seed - 1) % 10000] + i < 10000,
    ensures
        ({
            let q = samples[i] as i64;
            let plan = if blank == Some(samples[i]) {
                PixelPlan::Blank
            } else {
                match c.quantize {
                    Quantize::NoDither => PixelPlan::Plain(q),
                    Quantize::SubtractiveDither1 => PixelPlan::Dithered(
                        q,
                        (starts[(k + seed - 1) % 10000] + i) as usize,
                    ),
                    Quantize::SubtractiveDither2 => if samples[i] == -2147483646 {
                        PixelPlan::Zero
                    } else {
                        PixelPlan::Dithered(q, (starts[(k + seed - 1) % 10000] + i) as usize)
                    },
                }
            };
            pixels.len() == samples.len() && call_ensures(
                scale_by,
                (plan, scale, zero),
                pixels[i] as u64,
            )
        }),
{
    lemma_first_run(starts, k, seed, samples.len(), i);
    assert(0 <= pixels[i] <= u64::MAX);
}

/// A pixel that is quantized is dithered with the element of the sequence whose turn it is, as
/// in [`pixels_are_scaled_in_turn`].
pub proof fn pixels_are_rounded_in_turn(
    opts: CompressOptions,
    wide: bool,
    starts: Seq<usize>,
    k: int,
    bits: Seq<u64>,
    seed: int,
    i: int,
)
    requires
        dither::starts_valid(starts),
        tile_compress::int_value(opts.dither_seed) == Some(seed) || opts.dither_seed is None && seed
            == 1,
        0 <= i < bits.len(),
        starts[(k + seed - 1) % 10000] + i < 10000,
    ensures
        tile_plans(opts, wide, starts, k, bits).len() == bits.len(),
        tile_plans(opts, wide, starts, k, bits)[i] matches QuantizePlan::Dithered(j) ==> j
            == starts[(k + seed - 1) % 10000] + i && opts.dither != Quantize::NoDither,
        tile_plans(opts, wide, starts, k, bits)[i] is Plain ==> opts.dither == Quantize::NoDither,
{
    lemma_first_run(starts, k, seed, bits.len(), i);
}

} // verus!
