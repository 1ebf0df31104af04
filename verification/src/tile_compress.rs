//! Tiled image compression (the BINTABLE-based compressed-image convention).
//!
//! A tile-compressed image is stored physically as a `BINTABLE` extension but is
//! logically an image. The original image is divided into a rectangular grid of
//! *tiles*; each tile is compressed independently and stored as a byte stream in a
//! variable-length-array column (`COMPRESSED_DATA`). One table row holds one tile,
//! axis 1 fastest.
use crate::bintable;
use crate::bintable::{BinCellValue, BinTable, BinTableView, CellView};
use crate::bitstream;
use crate::casts;
use crate::cell_text;
use crate::error;
use crate::error::{Error, ErrorView, Result};
use crate::grid;
use crate::gzip;
use crate::hcompress;
use crate::hdu;
use crate::hdu::{Hdu, HduData};
use crate::header;
use crate::header::Header;
use crate::htransform;
use crate::image_data;
use crate::image_data::{ImageData, ImageView, PixelData, PixelView};
use crate::keyword::KeywordView;
use crate::plio;
use crate::rice;
use crate::text;
use crate::types::Bitpix;
use crate::words;
pub use crate::float_images::compress_image;
pub use crate::gzip::gzip_inflate;
pub use crate::hcompress::hcompress_decompress;
pub use crate::plio::plio_decompress;
pub use crate::rice::{rice_compress_i16, rice_compress_i32, rice_compress_i8};
pub use crate::rice::{rice_decompress_i16, rice_decompress_i32, rice_decompress_i8};
pub use crate::tile_encode::CompressOptions;
use vstd::prelude::*;

verus! {

/// Compression algorithm named by the `ZCMPTYPE` keyword.
#[derive(Debug, Clone, Copy, PartialEq, Eq, Structural)]
pub enum CompressionType {
    /// `RICE_1` (also `RICE_ONE`) — Rice coding of pixel differences. Most common.
    Rice1,
    /// `GZIP_1` — DEFLATE over the raw tile bytes.
    Gzip1,
    /// `GZIP_2` — DEFLATE over byte-shuffled tile bytes.
    Gzip2,
    /// `HCOMPRESS_1` — H-transform + quantization (lossy/lossless).
    Hcompress1,
    /// `PLIO_1` — IRAF pixel-list run-length encoding (integer masks).
    Plio1,
    /// `NOCOMPRESS` — tiles stored uncompressed.
    NoCompress,
}

/// The algorithm of a `ZCMPTYPE` value.
pub open spec fn ctype_of(s: Seq<char>) -> Option<CompressionType> {
    let t = text::ascii_upper(text::trim(s));
    if t == "RICE_1"@ || t == "RICE_ONE"@ {
        Some(CompressionType::Rice1)
    } else if t == "GZIP_1"@ {
        Some(CompressionType::Gzip1)
    } else if t == "GZIP_2"@ {
        Some(CompressionType::Gzip2)
    } else if t == "HCOMPRESS_1"@ {
        Some(CompressionType::Hcompress1)
    } else if t == "PLIO_1"@ {
        Some(CompressionType::Plio1)
    } else if t == "NOCOMPRESS"@ {
        Some(CompressionType::NoCompress)
    } else {
        None
    }
}

/// The error for a `ZCMPTYPE` value that names no algorithm.
pub open spec fn ctype_fault(s: Seq<char>) -> ErrorView {
    ErrorView::UnsupportedCompression(text::ascii_upper(text::trim(s)))
}

impl CompressionType {
    /// The `ZCMPTYPE` value of an algorithm.
    pub open spec fn name(self) -> Seq<char> {
        match self {
            CompressionType::Rice1 => "RICE_1"@,
            CompressionType::Gzip1 => "GZIP_1"@,
            CompressionType::Gzip2 => "GZIP_2"@,
            CompressionType::Hcompress1 => "HCOMPRESS_1"@,
            CompressionType::Plio1 => "PLIO_1"@,
            CompressionType::NoCompress => "NOCOMPRESS"@,
        }
    }

    /// The name of an algorithm in messages.
    pub open spec fn variant(self) -> Seq<char> {
        match self {
            CompressionType::Rice1 => "Rice1"@,
            CompressionType::Gzip1 => "Gzip1"@,
            CompressionType::Gzip2 => "Gzip2"@,
            CompressionType::Hcompress1 => "Hcompress1"@,
            CompressionType::Plio1 => "Plio1"@,
            CompressionType::NoCompress => "NoCompress"@,
        }
    }

    /// The name of the algorithm in messages.
    pub(crate) fn to_variant(self) -> (r: &'static str)
        ensures
            r@ == self.variant(),
    {
        match self {
            CompressionType::Rice1 => "Rice1",
            CompressionType::Gzip1 => "Gzip1",
            CompressionType::Gzip2 => "Gzip2",
            CompressionType::Hcompress1 => "Hcompress1",
            CompressionType::Plio1 => "Plio1",
            CompressionType::NoCompress => "NoCompress",
        }
    }

    /// Parse a `ZCMPTYPE` keyword value.
    pub fn parse(s: &str) -> (r: Result<Self>)
        ensures
            match r {
                Ok(t) => ctype_of(s@) == Some(t),
                Err(e) => ctype_of(s@) is None && e@ == ctype_fault(s@),
            },
    {
        let chars: Vec<char> = text::char_vec(s);
        let upper: Vec<char> = text::to_ascii_upper(text::trimmed(chars.as_slice()));
        let t = upper.as_slice();
        if text::is_text(t, "RICE_1") || text::is_text(t, "RICE_ONE") {
            Ok(CompressionType::Rice1)
        } else if text::is_text(t, "GZIP_1") {
            Ok(CompressionType::Gzip1)
        } else if text::is_text(t, "GZIP_2") {
            Ok(CompressionType::Gzip2)
        } else if text::is_text(t, "HCOMPRESS_1") {
            Ok(CompressionType::Hcompress1)
        } else if text::is_text(t, "PLIO_1") {
            Ok(CompressionType::Plio1)
        } else if text::is_text(t, "NOCOMPRESS") {
            Ok(CompressionType::NoCompress)
        } else {
            Err(Error::UnsupportedCompression(text::string_from(t)))
        }
    }

    /// The `ZCMPTYPE` value of an algorithm.
    pub fn to_name(self) -> (r: &'static str)
        ensures
            r@ == self.name(),
    {
        match self {
            CompressionType::Rice1 => "RICE_1",
            CompressionType::Gzip1 => "GZIP_1",
            CompressionType::Gzip2 => "GZIP_2",
            CompressionType::Hcompress1 => "HCOMPRESS_1",
            CompressionType::Plio1 => "PLIO_1",
            CompressionType::NoCompress => "NOCOMPRESS",
        }
    }
}

/// The name of an algorithm gives that algorithm.
pub proof fn ctype_of_name(t: CompressionType)
    ensures
        ctype_of(t.name()) == Some(t),
{
    reveal_strlit("RICE_1");
    reveal_strlit("RICE_ONE");
    reveal_strlit("GZIP_1");
    reveal_strlit("GZIP_2");
    reveal_strlit("HCOMPRESS_1");
    reveal_strlit("PLIO_1");
    reveal_strlit("NOCOMPRESS");
    let s = t.name();
    text::lemma_trim_same(s);
    assert(text::ascii_upper(s) =~= s);
}

/// Float quantization / dithering method named by `ZQUANTIZ`.
#[derive(Debug, Clone, Copy, PartialEq, Eq, Structural)]
pub enum Quantize {
    /// No dithering (or keyword absent).
    NoDither,
    /// `SUBTRACTIVE_DITHER_1`.
    SubtractiveDither1,
    /// `SUBTRACTIVE_DITHER_2` (preserves exact zeros).
    SubtractiveDither2,
}

/// The method of a `ZQUANTIZ` value, or of its absence.
pub open spec fn quantize_of(s: Option<Seq<char>>) -> Option<Quantize> {
    match s {
        None => Some(Quantize::NoDither),
        Some(v) => {
            let t = text::ascii_upper(text::trim(v));
            if t == "NO_DITHER"@ || t == "NONE"@ {
                Some(Quantize::NoDither)
            } else if t == "SUBTRACTIVE_DITHER_1"@ {
                Some(Quantize::SubtractiveDither1)
            } else if t == "SUBTRACTIVE_DITHER_2"@ {
                Some(Quantize::SubtractiveDither2)
            } else {
                None
            }
        },
    }
}

/// The error for a `ZQUANTIZ` value that names no method.
pub open spec fn quantize_fault(s: Seq<char>) -> ErrorView {
    ErrorView::UnsupportedCompression("ZQUANTIZ="@ + text::ascii_upper(text::trim(s)))
}

impl Quantize {
    /// The `ZQUANTIZ` value of a method.
    pub open spec fn name(self) -> Seq<char> {
        match self {
            Quantize::SubtractiveDither1 => "SUBTRACTIVE_DITHER_1"@,
            Quantize::SubtractiveDither2 => "SUBTRACTIVE_DITHER_2"@,
            Quantize::NoDither => "NO_DITHER"@,
        }
    }

    /// Whether pixels are dithered.
    pub open spec fn dithers(self) -> bool {
        self != Quantize::NoDither
    }

    /// Parse a `ZQUANTIZ` keyword value (absent ⇒ [`Quantize::NoDither`]).
    pub fn parse(s: Option<&str>) -> (r: Result<Self>)
        ensures
            match r {
                Ok(q) => quantize_of(crate::keyword::str_of(s)) == Some(q),
                Err(e) => quantize_of(crate::keyword::str_of(s)) is None && s is Some && e@
                    == quantize_fault(s->0@),
            },
    {
        let v: &str = match s {
            Some(v) => v,
            None => return Ok(Quantize::NoDither),
        };
        let chars: Vec<char> = text::char_vec(v);
        let upper: Vec<char> = text::to_ascii_upper(text::trimmed(chars.as_slice()));
        let t = upper.as_slice();
        // `NONE` is written for losslessly-stored float tiles (GZIP of the raw
        // floats, no quantization) and is treated like the absent case here.
        if text::is_text(t, "NO_DITHER") || text::is_text(t, "NONE") {
            Ok(Quantize::NoDither)
        } else if text::is_text(t, "SUBTRACTIVE_DITHER_1") {
            Ok(Quantize::SubtractiveDither1)
        } else if text::is_text(t, "SUBTRACTIVE_DITHER_2") {
            Ok(Quantize::SubtractiveDither2)
        } else {
            Err(
                Error::UnsupportedCompression(
                    "ZQUANTIZ=".to_owned().concat(text::string_from(t).as_str()),
                ),
            )
        }
    }

    /// The `ZQUANTIZ` value of a method.
    pub fn to_name(self) -> (r: &'static str)
        ensures
            r@ == self.name(),
    {
        match self {
            Quantize::SubtractiveDither1 => "SUBTRACTIVE_DITHER_1",
            Quantize::SubtractiveDither2 => "SUBTRACTIVE_DITHER_2",
            Quantize::NoDither => "NO_DITHER",
        }
    }
}

/// The name of a method gives that method.
pub proof fn quantize_of_name(q: Quantize)
    ensures
        quantize_of(Some(q.name())) == Some(q),
{
    reveal_strlit("NO_DITHER");
    reveal_strlit("NONE");
    reveal_strlit("SUBTRACTIVE_DITHER_1");
    reveal_strlit("SUBTRACTIVE_DITHER_2");
    let s = q.name();
    text::lemma_trim_same(s);
    assert(text::ascii_upper(s) =~= s);
    if q == Quantize::SubtractiveDither1 {
        assert(s[19] == '1');
        assert("SUBTRACTIVE_DITHER_2"@[19] == '2');
    }
}

/// Tile-grid geometry derived from `ZNAXIS`/`ZNAXISn`/`ZTILEn`.
#[derive(Debug)]
pub struct TileGeometry {
    /// Original image dimensions (`ZNAXISn`), axis-1 first.
    pub znaxis: Vec<usize>,
    /// Tile dimensions (`ZTILEn`), axis-1 first.
    pub ztile: Vec<usize>,
}

/// What a geometry stands for.
pub struct GeometryView {
    pub znaxis: Seq<usize>,
    pub ztile: Seq<usize>,
}

impl View for TileGeometry {
    type V = GeometryView;

    open spec fn view(&self) -> GeometryView {
        GeometryView { znaxis: self.znaxis@, ztile: self.ztile@ }
    }
}

impl Clone for TileGeometry {
    fn clone(&self) -> (r: Self)
        ensures
            r@ == self@,
    {
        TileGeometry {
            znaxis: clone_dims(self.znaxis.as_slice()),
            ztile: clone_dims(self.ztile.as_slice()),
        }
    }
}

impl GeometryView {
    /// The number of tiles along each axis.
    pub open spec fn grid(self) -> Seq<usize> {
        grid::grid_of(self.znaxis, self.ztile)
    }

    /// The number of tiles.
    pub open spec fn tiles(self) -> nat {
        grid::volume(self.grid())
    }
}

/// The tile dimensions that a header gives for an image: by default a tile is one
/// row.
pub open spec fn tile_shape(h: Seq<KeywordView>, dims: Seq<usize>) -> Seq<usize> {
    Seq::new(
        dims.len(),
        |a: int|
            match header::int_of(h, "ZTILE"@ + text::decimal(a + 1)) {
                Some(v) => casts::size_of(v),
                None => if a == 0 {
                    dims[0]
                } else {
                    1
                },
            },
    )
}

/// The geometry that a header describes.
pub open spec fn geometry_of(h: Seq<KeywordView>) -> std::result::Result<GeometryView, ErrorView> {
    match header::required_int(h, "ZNAXIS"@) {
        Err(e) => Err(e),
        Ok(n) => match image_data::axes_from(h, "ZNAXIS"@, 1, casts::size_of(n) as nat) {
            Err(e) => Err(e),
            Ok(dims) => Ok(GeometryView { znaxis: dims, ztile: tile_shape(h, dims) }),
        },
    }
}

impl TileGeometry {
    /// Build geometry from the compressed-image header.
    ///
    /// Defaults to row-by-row tiling (`ZTILE1 = ZNAXIS1`, others = 1) when the
    /// `ZTILEn` keywords are absent.
    pub fn from_header(header: &Header) -> (r: Result<Self>)
        ensures
            match (r, geometry_of(header@)) {
                (Ok(g), Ok(w)) => g@ == w && w.znaxis.len() == w.ztile.len(),
                (Err(e), Err(f)) => e@ == f,
                _ => false,
            },
    {
        let n: usize = match header.require_int("ZNAXIS") {
            Ok(n) => casts::usize_of_i64(n),
            Err(e) => return Err(e),
        };
        let dims: Vec<usize> = match image_data::axes_from_header(header, "ZNAXIS", n) {
            Ok(d) => d,
            Err(e) => return Err(e),
        };
        let mut tile: Vec<usize> = Vec::new();
        let mut a: usize = 0;
        let len: usize = dims.len();
        while a < len
            invariant
                a <= len,
                len == dims@.len(),
                tile@ == tile_shape(header@, dims@).take(a as int),
            decreases len - a,
        {
            let t: usize = match header.get_int(text::numbered("ZTILE", a + 1).as_str()) {
                Some(v) => casts::usize_of_i64(v),
                None => if a == 0 {
                    dims[0]
                } else {
                    1
                },
            };
            tile.push(t);
            a += 1;
            assert(tile@ =~= tile_shape(header@, dims@).take(a as int));
        }
        assert(tile@ =~= tile_shape(header@, dims@));
        Ok(TileGeometry { znaxis: dims, ztile: tile })
    }

    /// Number of tiles along each axis.
    pub fn tiles_per_axis(&self) -> (r: Vec<usize>)
        ensures
            r@ == self@.grid(),
    {
        grid::tiles_per_axis_of(self.znaxis.as_slice(), self.ztile.as_slice())
    }

    /// Total number of tiles (== expected number of table rows).
    pub fn num_tiles(&self) -> (r: usize)
        requires
            self@.tiles() <= usize::MAX,
        ensures
            r == self@.tiles(),
    {
        let grid: Vec<usize> = self.tiles_per_axis();
        match grid::checked_volume(grid.as_slice()) {
            Some(n) => n,
            None => 0,
        }
    }
}

/// A compressed image read from a BINTABLE, ready to be decompressed.
///
/// Borrows the already-parsed [`BinTable`]; the heavy lifting happens in
/// [`CompressedImage::decompress`].
#[derive(Debug)]
pub struct CompressedImage<'a> {
    /// Compression algorithm.
    pub ctype: CompressionType,
    /// BITPIX of the original (uncompressed) image.
    pub zbitpix: i64,
    /// Tile-grid geometry.
    pub geometry: TileGeometry,
    /// Float quantization/dither method.
    pub quantize: Quantize,
    /// Dither seed (`ZDITHER0`), if present.
    pub zdither0: Option<i64>,
    /// Integer blank sentinel (`ZBLANK` keyword), if present.
    pub blank: Option<i64>,
    /// RICE `BLOCKSIZE` parameter (default 32).
    pub blocksize: usize,
    /// RICE `BYTEPIX` parameter (default 4).
    pub bytepix: usize,
    /// HCOMPRESS `SMOOTH` parameter (default 0 = no smoothing).
    pub smooth: i32,
    /// The borrowed binary table holding the compressed tiles + heap.
    pub table: &'a BinTable,
}

/// What a compressed image stands for.
pub struct CompressedView {
    pub ctype: CompressionType,
    pub zbitpix: int,
    pub geometry: GeometryView,
    pub quantize: Quantize,
    pub zdither0: Option<int>,
    pub blank: Option<int>,
    pub params: Params,
    pub table: BinTableView,
}

/// The parameters of the algorithms.
pub struct Params {
    pub blocksize: usize,
    pub bytepix: usize,
    pub smooth: int,
}

/// An optional 64-bit integer as a number.
pub open spec fn int_value(v: Option<i64>) -> Option<int> {
    match v {
        Some(i) => Some(i as int),
        None => None,
    }
}

impl<'a> View for CompressedImage<'a> {
    type V = CompressedView;

    open spec fn view(&self) -> CompressedView {
        CompressedView {
            ctype: self.ctype,
            zbitpix: self.zbitpix as int,
            geometry: self.geometry@,
            quantize: self.quantize,
            zdither0: int_value(self.zdither0),
            blank: int_value(self.blank),
            params: Params {
                blocksize: self.blocksize,
                bytepix: self.bytepix,
                smooth: self.smooth as int,
            },
            table: self.table@,
        }
    }
}

/// The number of `ZNAMEi` keywords that are there without a gap, from `n` on.
pub open spec fn param_count(h: Seq<KeywordView>, n: nat) -> nat
    decreases h.len() - n,
{
    if n < h.len() && header::position(h, "ZNAME"@ + text::decimal(n as int + 1)) < h.len() {
        param_count(h, n + 1)
    } else {
        n
    }
}

/// The parameters with pair `i` of `ZNAMEi` and `ZVALi` taken in.
pub open spec fn with_param(p: Params, h: Seq<KeywordView>, i: nat) -> Params {
    match header::string_of(h, "ZNAME"@ + text::decimal(i as int)) {
        None => p,
        Some(name) => {
            let value = header::int_or(h, "ZVAL"@ + text::decimal(i as int), 0);
            let t = text::ascii_upper(text::trim(name));
            if t == "BLOCKSIZE"@ {
                Params { blocksize: casts::size_of(value), ..p }
            } else if t == "BYTEPIX"@ {
                Params { bytepix: casts::size_of(value), ..p }
            } else if t == "SMOOTH"@ {
                Params { smooth: casts::signed_residue(value, 0x1_0000_0000), ..p }
            } else {
                p
            }
        },
    }
}

/// The parameters of the first `n` pairs: a block size of 32 and samples of four
/// bytes where they give no other.
pub open spec fn params_of(h: Seq<KeywordView>, n: nat) -> Params
    decreases n,
{
    if n == 0 {
        Params { blocksize: 32, bytepix: 4, smooth: 0 }
    } else {
        with_param(params_of(h, (n - 1) as nat), h, n)
    }
}

/// Whether a header describes a tile-compressed image.
pub open spec fn is_compressed(h: Seq<KeywordView>) -> bool {
    header::bool_of(h, "ZIMAGE"@) == Some(true)
}

/// The compressed image that a header and its table describe.
pub open spec fn compressed_of(h: Seq<KeywordView>, table: BinTableView) -> std::result::Result<
    CompressedView,
    ErrorView,
> {
    if !is_compressed(h) {
        Err(
            ErrorView::CompressionError("header is not a tile-compressed image (ZIMAGE != T)"@),
        )
    } else {
        match header::string_of(h, "ZCMPTYPE"@) {
            None => Err(ErrorView::MissingKeyword("ZCMPTYPE"@)),
            Some(name) => match (
                ctype_of(name),
                header::required_int(h, "ZBITPIX"@),
                geometry_of(h),
                quantize_of(header::string_of(h, "ZQUANTIZ"@)),
            ) {
                (None, _, _, _) => Err(ctype_fault(name)),
                (_, Err(e), _, _) => Err(e),
                (_, _, Err(e), _) => Err(e),
                (_, _, _, None) => Err(quantize_fault(header::string_of(h, "ZQUANTIZ"@)->0)),
                (Some(ctype), Ok(zbitpix), Ok(geometry), Some(quantize)) => Ok(
                    CompressedView {
                        ctype,
                        zbitpix,
                        geometry,
                        quantize,
                        zdither0: header::int_of(h, "ZDITHER0"@),
                        blank: header::int_of(h, "ZBLANK"@),
                        params: params_of(h, param_count(h, 0)),
                        table,
                    },
                ),
            },
        }
    }
}

/// Count the contiguous `ZNAMEi`/`ZVALi` parameter pairs present in the header.
fn count_zname_params(header: &Header) -> (r: usize)
    ensures
        r == param_count(header@, 0),
{
    let mut n: usize = 0;
    let len: usize = header.keywords.len();
    assert(len == header@.len());
    while n < len && header.find(text::numbered("ZNAME", n + 1).as_str()).is_some()
        invariant
            n <= len,
            len == header@.len(),
            param_count(header@, 0) == param_count(header@, n as nat),
        decreases len - n,
    {
        n += 1;
    }
    proof {
        header::lemma_position(header@, "ZNAME"@ + text::decimal(n + 1));
    }
    n
}

/// Parameters as they are read.
struct ParamValues {
    blocksize: usize,
    bytepix: usize,
    smooth: i32,
}

impl View for ParamValues {
    type V = Params;

    closed spec fn view(&self) -> Params {
        Params { blocksize: self.blocksize, bytepix: self.bytepix, smooth: self.smooth as int }
    }
}

fn read_params(header: &Header) -> (r: ParamValues)
    ensures
        r@ == params_of(header@, param_count(header@, 0)),
{
    let n: usize = count_zname_params(header);
    let mut p = ParamValues { blocksize: 32, bytepix: 4, smooth: 0 };
    let mut i: usize = 0;
    while i < n
        invariant
            i <= n,
            p@ == params_of(header@, i as nat),
        decreases n - i,
    {
        i += 1;
        match header.get_string(text::numbered("ZNAME", i).as_str()) {
            Some(name) => {
                let value: i64 = header.int_or(text::numbered("ZVAL", i).as_str(), 0);
                let chars: Vec<char> = text::char_vec(name);
                let upper: Vec<char> = text::to_ascii_upper(text::trimmed(chars.as_slice()));
                let t = upper.as_slice();
                if text::is_text(t, "BLOCKSIZE") {
                    p.blocksize = casts::usize_of_i64(value);
                } else if text::is_text(t, "BYTEPIX") {
                    p.bytepix = casts::usize_of_i64(value);
                } else if text::is_text(t, "SMOOTH") {
                    p.smooth = casts::i32_of_i64(value);
                }
            },
            None => {},
        }
    }
    p
}

impl<'a> CompressedImage<'a> {
    /// True if `header` describes a tile-compressed image (`ZIMAGE = T`).
    pub fn detect(header: &Header) -> (r: bool)
        ensures
            r == is_compressed(header@),
    {
        match header.get_bool("ZIMAGE") {
            Some(b) => b,
            None => false,
        }
    }

    /// Build a [`CompressedImage`] from a compressed-image BINTABLE header and the
    /// parsed table. Parses the `Z*` driver keywords; does not yet decompress.
    pub fn from_bintable(header: &Header, table: &'a BinTable) -> (r: Result<Self>)
        ensures
            match (r, compressed_of(header@, table@)) {
                (Ok(v), Ok(w)) => v@ == w && w.geometry.znaxis.len() == w.geometry.ztile.len(),
                (Err(e), Err(f)) => e@ == f,
                _ => false,
            },
    {
        if !CompressedImage::detect(header) {
            return Err(
                Error::CompressionError(
                    "header is not a tile-compressed image (ZIMAGE != T)".to_owned(),
                ),
            );
        }
        let ctype: CompressionType = match header.get_string("ZCMPTYPE") {
            Some(name) => match CompressionType::parse(name) {
                Ok(t) => t,
                Err(e) => return Err(e),
            },
            None => return Err(Error::MissingKeyword("ZCMPTYPE".to_owned())),
        };
        let zbitpix: i64 = match header.require_int("ZBITPIX") {
            Ok(n) => n,
            Err(e) => return Err(e),
        };
        let geometry: TileGeometry = match TileGeometry::from_header(header) {
            Ok(g) => g,
            Err(e) => return Err(e),
        };
        let quantize: Quantize = match Quantize::parse(header.get_string("ZQUANTIZ")) {
            Ok(q) => q,
            Err(e) => return Err(e),
        };
        let p: ParamValues = read_params(header);
        Ok(
            CompressedImage {
                ctype,
                zbitpix,
                geometry,
                quantize,
                zdither0: header.get_int("ZDITHER0"),
                blank: header.get_int("ZBLANK"),
                blocksize: p.blocksize,
                bytepix: p.bytepix,
                smooth: p.smooth,
                table,
            },
        )
    }

    /// The compression algorithm (`ZCMPTYPE`). Cheap inspector.
    pub fn compression(&self) -> (r: CompressionType)
        ensures
            r == self@.ctype,
    {
        self.ctype
    }

    /// The tile-grid geometry (`ZNAXISn`/`ZTILEn`). Cheap inspector.
    pub fn geometry(&self) -> (r: &TileGeometry)
        ensures
            r@ == self@.geometry,
    {
        &self.geometry
    }
}

impl Hdu {
    /// View this HDU as a tile-compressed image, if it is one.
    ///
    /// A tile-compressed image is stored on disk as a `BINTABLE` extension with
    /// `ZIMAGE = T` (the FITS Tiled Image Compression convention). This is a *cheap*
    /// detection step: it inspects the header and, when it matches, returns a
    /// [`CompressedImage`] view that borrows the underlying [`BinTable`].
    ///
    /// Returns `None` when the HDU is not a compressed-image BINTABLE. The actual
    /// decoding happens in [`CompressedImage::decompress`].
    pub fn as_compressed_image(&self) -> (r: Option<CompressedImage<'_>>)
        ensures
            match self@.data {
                hdu::DataView::BinTable(t) => match compressed_of(self@.header, t) {
                    Ok(w) => r matches Some(c) && c@ == w && w.geometry.znaxis.len()
                        == w.geometry.ztile.len(),
                    Err(_) => r is None,
                },
                _ => r is None,
            },
    {
        match &self.data {
            HduData::BinTable(table) => match CompressedImage::from_bintable(&self.header, table) {
                Ok(c) => Some(c),
                Err(_) => None,
            },
            _ => None,
        }
    }
}

/// The position of the first column with a name, in any case and without blanks
/// around it; the number of columns where there is none.
pub open spec fn column_position(columns: Seq<bintable::BinColumnView>, name: Seq<char>) -> int
    decreases columns.len(),
{
    if columns.len() == 0 || text::same_ignoring_case(text::trim(columns[0].name), name) {
        0
    } else {
        1 + column_position(columns.skip(1), name)
    }
}

/// The big-endian numbers of `w` bytes at the start of some bytes; `None` where
/// there are fewer than `n`. Numbers of one byte have no sign.
pub open spec fn stored_samples(bytes: Seq<u8>, w: int, n: nat) -> Option<Seq<int>> {
    let all = words::words_decoded(w != 1, w as nat, bytes);
    if all.len() < n {
        None
    } else {
        Some(all.take(n as int))
    }
}

/// The bytes of one stored integer of a compressed image: quantized floats are
/// 32-bit integers.
pub open spec fn sample_width(zbitpix: int) -> int {
    if zbitpix < 0 {
        4
    } else {
        zbitpix / 8
    }
}

/// Samples as numbers.
pub open spec fn numbers_of(s: Seq<i64>) -> Seq<int> {
    Seq::new(s.len(), |i: int| s[i] as int)
}

/// The samples of a tile of `n` pixels that is compressed with one of the byte
/// codecs; `None` where its bytes are not valid.
#[verifier::opaque]
pub open spec fn byte_tile(c: CompressedView, raw: Seq<u8>, n: nat) -> Option<Seq<int>> {
    let w = sample_width(c.zbitpix);
    match c.ctype {
        CompressionType::Rice1 => if c.params.bytepix == 1 {
            match rice::rice_decoded(raw, n, c.params.blocksize, rice::rice_width(1)) {
                Some(v) => Some(numbers_of(rice::widened_u8(rice::cut_u8(v)))),
                None => None,
            }
        } else if c.params.bytepix == 2 {
            match rice::rice_decoded(raw, n, c.params.blocksize, rice::rice_width(2)) {
                Some(v) => Some(numbers_of(rice::widened_i16(rice::cut_i16(v)))),
                None => None,
            }
        } else if c.params.bytepix == 4 {
            match rice::rice_decoded(raw, n, c.params.blocksize, rice::rice_width(4)) {
                Some(v) => Some(numbers_of(rice::widened_i32(rice::cut_i32(v)))),
                None => None,
            }
        } else {
            None
        },
        CompressionType::NoCompress => stored_samples(raw, w, n),
        CompressionType::Gzip1 => match gzip::gzip_decoded(raw) {
            Some(bytes) => stored_samples(bytes, w, n),
            None => None,
        },
        CompressionType::Gzip2 => match gzip::gzip_decoded(raw) {
            Some(bytes) => stored_samples(gzip::unshuffled(bytes, w as nat), w, n),
            None => None,
        },
        _ => None,
    }
}

/// The error for a tile with too few integers.
pub open spec fn short_tile(avail: int, n: nat) -> ErrorView {
    ErrorView::CompressionError(
        "tile has "@ + text::decimal(avail) + " integers, expected "@ + text::decimal(n as int),
    )
}

/// Why the bytes of a tile of `n` pixels are not valid.
#[verifier::opaque]
pub open spec fn byte_fault(c: CompressedView, raw: Seq<u8>, n: nat) -> ErrorView {
    let w = sample_width(c.zbitpix);
    match c.ctype {
        CompressionType::Rice1 => if c.params.bytepix == 1 || c.params.bytepix == 2
            || c.params.bytepix == 4 {
            bitstream::rice_end()
        } else {
            ErrorView::CompressionError(
                "RICE_1 BYTEPIX="@ + text::decimal(c.params.bytepix as int)
                    + " not supported (expected 1, 2, or 4)"@,
            )
        },
        CompressionType::NoCompress => short_tile(raw.len() as int / w, n),
        CompressionType::Gzip1 => match gzip::gzip_decoded(raw) {
            Some(bytes) => short_tile(bytes.len() as int / w, n),
            None => gzip::gzip_fault(raw),
        },
        CompressionType::Gzip2 => match gzip::gzip_decoded(raw) {
            Some(bytes) => short_tile(gzip::unshuffled(bytes, w as nat).len() as int / w, n),
            None => gzip::gzip_fault(raw),
        },
        CompressionType::Plio1 => ErrorView::CompressionError(
            "internal: PLIO_1 must be decoded via plio_decompress"@,
        ),
        CompressionType::Hcompress1 => ErrorView::CompressionError(
            "internal: HCOMPRESS_1 must be decoded via decode_hcompress"@,
        ),
    }
}

/// The error for a HCOMPRESS_1 tile that has not as many pixels as expected.
pub open spec fn tile_size_fault(nx: int, ny: int, n: nat) -> ErrorView {
    ErrorView::CompressionError(
        "HCOMPRESS tile size "@ + text::decimal(nx) + "x"@ + text::decimal(ny)
            + " = "@ + text::decimal(nx * ny) + " != expected "@ + text::decimal(n as int),
    )
}

/// The samples of a HCOMPRESS_1 tile, whose stream must hold as many as the tile.
#[verifier::opaque]
pub open spec fn hcompress_tile(c: CompressedView, raw: Seq<u8>, n: nat) -> std::result::Result<
    Seq<int>,
    ErrorView,
> {
    let wide = !(c.zbitpix == 8 || c.zbitpix == 16);
    match hcompress::tile_coefficients(raw, wide) {
        None => Err(hcompress::tile_fault(raw, wide)),
        Some((a, nx, ny)) => if c.params.smooth != 0 {
            Err(hcompress::unsmoothed())
        } else if nx * ny != n {
            Err(tile_size_fault(nx, ny, n))
        } else {
            Ok(hcompress::tile_pixels(raw, a, nx, ny, wide))
        },
    }
}

/// The bytes of a cell of a byte array.
pub open spec fn cell_bytes(c: CompressedView, row: int, col: int) -> std::result::Result<
    Seq<u8>,
    ErrorView,
> {
    match bintable::table_cell(c.table, row as usize, col as usize) {
        Err(e) => Err(e),
        Ok(CellView::Bytes(b)) => Ok(b),
        Ok(other) => Err(
            ErrorView::CompressionError(
                "COMPRESSED_DATA cell is not a byte VLA: "@ + cell_text::shown(other),
            ),
        ),
    }
}

/// The words of a cell of 16-bit integers, or of a byte array taken two by two.
pub open spec fn cell_words(c: CompressedView, row: int, col: int) -> std::result::Result<
    Seq<int>,
    ErrorView,
> {
    match bintable::table_cell(c.table, row as usize, col as usize) {
        Err(e) => Err(e),
        Ok(CellView::I16(v)) => Ok(v),
        Ok(CellView::Bytes(b)) => Ok(words::words_decoded(true, 2, b)),
        Ok(other) => Err(
            ErrorView::CompressionError(
                "PLIO_1 COMPRESSED_DATA cell is not an i16 VLA: "@ + cell_text::shown(other),
            ),
        ),
    }
}

/// The samples that compressed bytes hold: a tile of `n` pixels of any algorithm but
/// PLIO_1.
pub open spec fn stream_samples(c: CompressedView, raw: Seq<u8>, n: nat) -> std::result::Result<
    Seq<int>,
    ErrorView,
> {
    if c.ctype == CompressionType::Hcompress1 {
        hcompress_tile(c, raw, n)
    } else {
        match byte_tile(c, raw, n) {
            Some(v) => Ok(v),
            None => Err(byte_fault(c, raw, n)),
        }
    }
}

/// Words as 16-bit integers.
pub open spec fn as_words(v: Seq<int>) -> Seq<i16> {
    Seq::new(v.len(), |i: int| v[i] as i16)
}

/// The samples of tile `k` of an integer image, whose data is in column `col`.
#[verifier::opaque]
pub open spec fn tile_samples(c: CompressedView, k: int, col: int) -> std::result::Result<
    Seq<int>,
    ErrorView,
> {
    let n = grid::tile_volume(c.geometry.znaxis, c.geometry.ztile, k);
    if c.ctype == CompressionType::Plio1 {
        match cell_words(c, k, col) {
            Err(e) => Err(e),
            Ok(v) => match plio::plio_decoded(as_words(v), n) {
                Some(p) => Ok(Seq::new(p.len(), |i: int| p[i] as int)),
                None => Err(plio::plio_fault(as_words(v))),
            },
        }
    } else {
        match cell_bytes(c, k, col) {
            Err(e) => Err(e),
            Ok(raw) => stream_samples(c, raw, n),
        }
    }
}

/// The samples of all tiles from `k` on.
pub open spec fn tiles_from(c: CompressedView, k: nat, col: int) -> std::result::Result<
    Seq<Seq<int>>,
    ErrorView,
>
    decreases c.geometry.tiles() - k,
{
    if k >= c.geometry.tiles() {
        Ok(Seq::empty())
    } else {
        match tile_samples(c, k as int, col) {
            Err(e) => Err(e),
            Ok(s) => match tiles_from(c, k + 1, col) {
                Err(e) => Err(e),
                Ok(t) => Ok(seq![s] + t),
            },
        }
    }
}

/// A sample cut to the size of a pixel.
pub open spec fn narrow(kind: Bitpix, v: int) -> int {
    match kind {
        Bitpix::U8 => v % 0x100,
        Bitpix::I16 => casts::signed_residue(v, 0x1_0000),
        Bitpix::I32 => casts::signed_residue(v, 0x1_0000_0000),
        _ => v,
    }
}

/// Samples cut to the size of a pixel.
pub open spec fn narrowed(kind: Bitpix, v: Seq<int>) -> Seq<int> {
    Seq::new(v.len(), |i: int| narrow(kind, v[i]))
}

/// Where the compressed tiles of an image are: the column of their data, or an
/// error where there are too few rows or no such column, or too many pixels.
pub open spec fn tile_column(c: CompressedView) -> std::result::Result<int, ErrorView> {
    let col = column_position(c.table.columns, "COMPRESSED_DATA"@);
    if grid::volume(c.geometry.znaxis) > usize::MAX {
        Err(ErrorView::CompressionError("too many pixels"@))
    } else if c.table.nrows < c.geometry.tiles() {
        Err(
            ErrorView::CompressionError(
                "compressed image expects "@ + text::decimal(c.geometry.tiles() as int)
                    + " tiles but BINTABLE has "@ + text::decimal(c.table.nrows as int)
                    + " rows"@,
            ),
        )
    } else if col >= c.table.columns.len() {
        Err(ErrorView::CompressionError("compressed image has no COMPRESSED_DATA column"@))
    } else {
        Ok(col)
    }
}

/// The image that a compressed integer image holds.
pub open spec fn decompressed_int(c: CompressedView) -> std::result::Result<ImageView, ErrorView> {
    match Bitpix::of(c.zbitpix) {
        None => Err(ErrorView::UnsupportedBitpix(c.zbitpix)),
        Some(kind) => match tile_column(c) {
            Err(e) => Err(e),
            Ok(col) => match tiles_from(c, 0, col) {
                Err(e) => Err(e),
                Ok(tiles) => Ok(
                    ImageView {
                        axes: c.geometry.znaxis,
                        pixels: PixelView {
                            kind,
                            values: narrowed(
                                kind,
                                grid::assembled(tiles, c.geometry.znaxis, c.geometry.ztile),
                            ),
                        },
                    },
                ),
            },
        },
    }
}

/// The stored integers at the start of some bytes.
fn read_stored(bytes: &[u8], w: usize, n: usize) -> (r: Result<Vec<i64>>)
    requires
        w == 1 || w == 2 || w == 4 || w == 8,
    ensures
        match (r, stored_samples(bytes@, w as int, n as nat)) {
            (Ok(v), Some(t)) => numbers_of(v@) == t && v@.len() == n,
            (Err(e), None) => e@ == short_tile(bytes@.len() as int / w as int, n as nat),
            _ => false,
        },
{
    let len: usize = bytes.len();
    let avail: usize = len / w;
    if avail < n {
        let found: String = error::with_number("tile has ", avail as u64);
        return Err(
            Error::CompressionError(
                error::with_number(found.concat(" integers, expected ").as_str(), n as u64),
            ),
        );
    }
    let ghost all = words::words_decoded(w != 1, w as nat, bytes@);
    let mut out: Vec<i64> = Vec::new();
    let mut i: usize = 0;
    proof {
        vstd::arithmetic::div_mod::lemma_fundamental_div_mod(len as int, w as int);
    }
    while i < n
        invariant
            i <= n <= avail,
            avail == len / w,
            w * avail <= len,
            len == bytes@.len(),
            w == 1 || w == 2 || w == 4 || w == 8,
            all == words::words_decoded(w != 1, w as nat, bytes@),
            out@.len() == i,
            forall|k: int| 0 <= k < i ==> out@[k] == #[trigger] all[k],
        decreases n - i,
    {
        assert(0 <= i * w && i * w + w <= w * avail) by (nonlinear_arith)
            requires
                0 <= i < avail,
                w >= 0,
        ;
        let v: i64 = if w == 1 {
            let u: u64 = crate::bigendian::read_be(bytes, i * w, 1);
            proof {
                crate::bigendian::lemma_byte_powers();
            }
            u as i64
        } else {
            crate::bigendian::read_be_signed(bytes, i * w, w)
        };
        assert(all[i as int] == words::word_number(
            w != 1,
            bytes@.subrange(i * w, i * w + w),
        ));
        out.push(v);
        i += 1;
    }
    assert(numbers_of(out@) =~= all.take(n as int));
    Ok(out)
}

impl<'a> CompressedImage<'a> {
    /// Index of a column by (case-insensitive, trimmed) `TTYPE` name; the number of
    /// columns where there is none.
    fn find_column(&self, name: &str) -> (r: usize)
        ensures
            r == column_position(self@.table.columns, name@),
            r <= self@.table.columns.len(),
            r <= self.table.columns@.len(),
    {
        let ghost all = self@.table.columns;
        let n: usize = self.table.columns.len();
        let mut i: usize = 0;
        assert(all.skip(0) =~= all);
        while i < n
            invariant
                i <= n,
                n == self.table.columns@.len(),
                all == bintable::column_views(self.table.columns@),
                column_position(all, name@) == i + column_position(all.skip(i as int), name@),
            decreases n - i,
        {
            let chars: Vec<char> = text::char_vec(self.table.columns[i].name.as_str());
            let other: Vec<char> = text::char_vec(name);
            assert(all.skip(i as int)[0] == self.table.columns@[i as int]@);
            if text::eq_ignore_case(text::trimmed(chars.as_slice()), other.as_slice()) {
                return i;
            }
            assert(all.skip(i as int).skip(1) =~= all.skip(i + 1));
            i += 1;
        }
        i
    }

    /// Bytes of one stored integer.
    fn sample_bytes(&self) -> (r: usize)
        requires
            self@.zbitpix < 0 || Bitpix::of(self@.zbitpix) is Some,
        ensures
            r == sample_width(self@.zbitpix),
            r == 1 || r == 2 || r == 4 || r == 8,
    {
        if self.zbitpix < 0 {
            4
        } else {
            (self.zbitpix / 8) as usize
        }
    }

    /// Decode one tile's bytes into a flat array of `n` integer values (axis-1
    /// fastest) according to the compression type.
    fn decode_tile(&self, raw: &[u8], n: usize) -> (r: Result<Vec<i64>>)
        requires
            self@.zbitpix < 0 || Bitpix::of(self@.zbitpix) is Some,
        ensures
            match (r, byte_tile(self@, raw@, n as nat)) {
                (Ok(v), Some(t)) => numbers_of(v@) == t && v@.len() == n,
                (Err(e), None) => e@ == byte_fault(self@, raw@, n as nat),
                _ => false,
            },
    {
        proof {
            reveal(byte_fault);
            reveal(byte_tile);
        }
        match self.ctype {
            CompressionType::Rice1 => if self.bytepix == 1 {
                match rice::rice_decompress_i8(raw, n, self.blocksize) {
                    Ok(v) => Ok(rice::widen_u8(v.as_slice())),
                    Err(e) => Err(e),
                }
            } else if self.bytepix == 2 {
                match rice::rice_decompress_i16(raw, n, self.blocksize) {
                    Ok(v) => Ok(rice::widen_i16(v.as_slice())),
                    Err(e) => Err(e),
                }
            } else if self.bytepix == 4 {
                match rice::rice_decompress_i32(raw, n, self.blocksize) {
                    Ok(v) => Ok(rice::widen_i32(v.as_slice())),
                    Err(e) => Err(e),
                }
            } else {
                Err(
                    Error::CompressionError(
                        error::with_number("RICE_1 BYTEPIX=", self.bytepix as u64).concat(
                            " not supported (expected 1, 2, or 4)",
                        ),
                    ),
                )
            },
            CompressionType::NoCompress => read_stored(raw, self.sample_bytes(), n),
            CompressionType::Gzip1 => match gzip::gzip_inflate(raw) {
                Ok(bytes) => read_stored(bytes.as_slice(), self.sample_bytes(), n),
                Err(e) => Err(e),
            },
            CompressionType::Gzip2 => match gzip::gzip_inflate(raw) {
                Ok(bytes) => {
                    let w: usize = self.sample_bytes();
                    let plain: Vec<u8> = gzip::gzip2_unshuffle(bytes.as_slice(), w);
                    read_stored(plain.as_slice(), w, n)
                },
                Err(e) => Err(e),
            },
            // PLIO_1 and HCOMPRESS_1 tiles have decoders of their own.
            CompressionType::Plio1 => Err(
                Error::CompressionError(
                    "internal: PLIO_1 must be decoded via plio_decompress".to_owned(),
                ),
            ),
            CompressionType::Hcompress1 => Err(
                Error::CompressionError(
                    "internal: HCOMPRESS_1 must be decoded via decode_hcompress".to_owned(),
                ),
            ),
        }
    }

    /// Decode one HCOMPRESS_1 tile into a flat array of `n` integer samples (axis-1
    /// fastest, matching the tile's pixel layout).
    ///
    /// The tile dimensions and digitization scale are read from the encoded stream
    /// itself; the number of pixels of the tile only validates the decoded size.
    fn decode_hcompress(&self, raw: &[u8], n: usize) -> (r: Result<Vec<i64>>)
        ensures
            match (r, hcompress_tile(self@, raw@, n as nat)) {
                (Ok(v), Ok(t)) => numbers_of(v@) == t && v@.len() == n,
                (Err(e), Err(f)) => e@ == f,
                _ => false,
            },
    {
        proof {
            reveal(hcompress_tile);
        }
        // The 32-bit H-transform is for ZBITPIX 8/16; every other original type
        // (32-bit ints, and quantized -32/-64 floats) uses the 64-bit transform to
        // avoid intermediate overflow.
        let wide: bool = !(self.zbitpix == 8 || self.zbitpix == 16);
        match hcompress::hcompress_decompress(raw, wide, self.smooth) {
            Ok((v, nx, ny)) => {
                if v.len() != n {
                    let slow: String = error::with_number("HCOMPRESS tile size ", nx as u64);
                    let fast: String = error::with_number(slow.concat("x").as_str(), ny as u64);
                    let all: String = error::with_number(
                        fast.concat(" = ").as_str(),
                        v.len() as u64,
                    );
                    return Err(
                        Error::CompressionError(
                            error::with_number(all.concat(" != expected ").as_str(), n as u64),
                        ),
                    );
                }
                assert(numbers_of(v@) =~= htransform::ints(v@));
                Ok(v)
            },
            Err(e) => Err(e),
        }
    }

    /// Decode the samples that compressed bytes hold.
    fn decode_stream(&self, raw: &[u8], n: usize) -> (r: Result<Vec<i64>>)
        requires
            self@.zbitpix < 0 || Bitpix::of(self@.zbitpix) is Some,
        ensures
            match (r, stream_samples(self@, raw@, n as nat)) {
                (Ok(v), Ok(t)) => numbers_of(v@) == t && v@.len() == n,
                (Err(e), Err(f)) => e@ == f,
                _ => false,
            },
    {
        match self.ctype {
            CompressionType::Hcompress1 => self.decode_hcompress(raw, n),
            _ => self.decode_tile(raw, n),
        }
    }

    /// Read the raw compressed bytes for one tile (one table row) from the VLA column.
    fn tile_bytes(&self, row: usize, col: usize) -> (r: Result<Vec<u8>>)
        ensures
            match (r, cell_bytes(self@, row as int, col as int)) {
                (Ok(v), Ok(t)) => v@ == t,
                (Err(e), Err(f)) => e@ == f,
                _ => false,
            },
    {
        match self.table.get_cell(row, col) {
            Ok(BinCellValue::Bytes(b)) => Ok(b),
            Ok(other) => Err(
                Error::CompressionError(
                    "COMPRESSED_DATA cell is not a byte VLA: ".to_owned().concat(
                        cell_text::show(&other).as_str(),
                    ),
                ),
            ),
            Err(e) => Err(e),
        }
    }

    /// Read one tile's `1PI`/`1QI` cell as native `i16` words (PLIO_1 line list).
    /// Some writers may declare the list as a byte VLA; it is taken as big-endian
    /// pairs in that case.
    fn tile_words_i16(&self, row: usize, col: usize) -> (r: Result<Vec<i16>>)
        ensures
            match (r, cell_words(self@, row as int, col as int)) {
                (Ok(v), Ok(t)) => words::numbers(v@) == t,
                (Err(e), Err(f)) => e@ == f,
                _ => false,
            },
    {
        match self.table.get_cell(row, col) {
            Ok(BinCellValue::I16(v)) => Ok(v),
            Ok(BinCellValue::Bytes(b)) => Ok(words::decode_vec(b.as_slice())),
            Ok(other) => Err(
                Error::CompressionError(
                    "PLIO_1 COMPRESSED_DATA cell is not an i16 VLA: ".to_owned().concat(
                        cell_text::show(&other).as_str(),
                    ),
                ),
            ),
            Err(e) => Err(e),
        }
    }

    /// Decode tile `k` of an integer image.
    fn decode_int_tile(&self, k: usize, col: usize) -> (r: Result<Vec<i64>>)
        requires
            self@.zbitpix < 0 || Bitpix::of(self@.zbitpix) is Some,
            self@.geometry.znaxis.len() <= self@.geometry.ztile.len(),
            grid::volume(self@.geometry.znaxis) <= usize::MAX,
            k < self@.geometry.tiles(),
        ensures
            match (r, tile_samples(self@, k as int, col as int)) {
                (Ok(v), Ok(t)) => numbers_of(v@) == t && v@.len() == grid::tile_volume(
                    self@.geometry.znaxis,
                    self@.geometry.ztile,
                    k as int,
                ),
                (Err(e), Err(f)) => e@ == f,
                _ => false,
            },
    {
        proof {
            reveal(tile_samples);
        }
        let n: usize = grid::tile_size(
            self.geometry.znaxis.as_slice(),
            self.geometry.ztile.as_slice(),
            k,
        );
        match self.ctype {
            CompressionType::Plio1 => {
                let list: Vec<i16> = match self.tile_words_i16(k, col) {
                    Ok(v) => v,
                    Err(e) => return Err(e),
                };
                assert(as_words(words::numbers(list@)) =~= list@);
                match plio::plio_decompress(list.as_slice(), n) {
                    Ok(p) => {
                        let v: Vec<i64> = rice::widen_i32(p.as_slice());
                        assert(numbers_of(v@) =~= Seq::new(p@.len(), |i: int| p@[i] as int));
                        Ok(v)
                    },
                    Err(e) => Err(e),
                }
            },
            _ => {
                let raw: Vec<u8> = match self.tile_bytes(k, col) {
                    Ok(v) => v,
                    Err(e) => return Err(e),
                };
                self.decode_stream(raw.as_slice(), n)
            },
        }
    }

    /// The column of the compressed tiles of an image.
    fn compressed_data_column(&self) -> (r: Result<usize>)
        requires
            self@.geometry.znaxis.len() <= self@.geometry.ztile.len(),
        ensures
            match (r, tile_column(self@)) {
                (Ok(v), Ok(t)) => v == t && v < self@.table.columns.len() && grid::volume(
                    self@.geometry.znaxis,
                ) <= usize::MAX && self@.geometry.tiles() <= self@.table.nrows,
                (Err(e), Err(f)) => e@ == f,
                _ => false,
            },
    {
        if grid::checked_volume(self.geometry.znaxis.as_slice()).is_none() {
            return Err(Error::CompressionError("too many pixels".to_owned()));
        }
        proof {
            grid::lemma_grid_volume(self@.geometry.znaxis, self@.geometry.ztile);
        }
        let tiles: usize = self.geometry.num_tiles();
        if self.table.nrows < tiles {
            let wanted: String = error::with_number("compressed image expects ", tiles as u64);
            let found: String = error::with_number(
                wanted.concat(" tiles but BINTABLE has ").as_str(),
                self.table.nrows as u64,
            );
            return Err(Error::CompressionError(found.concat(" rows")));
        }
        let col: usize = self.find_column("COMPRESSED_DATA");
        if col >= self.table.columns.len() {
            return Err(
                Error::CompressionError(
                    "compressed image has no COMPRESSED_DATA column".to_owned(),
                ),
            );
        }
        Ok(col)
    }

    /// Decode all tiles of an integer image.
    fn decode_int_tiles(&self, col: usize) -> (r: Result<Vec<Vec<i64>>>)
        requires
            self@.zbitpix < 0 || Bitpix::of(self@.zbitpix) is Some,
            self@.geometry.znaxis.len() <= self@.geometry.ztile.len(),
            grid::volume(self@.geometry.znaxis) <= usize::MAX,
        ensures
            match (r, tiles_from(self@, 0, col as int)) {
                (Ok(v), Ok(t)) => samples_of(v@) == t && tiles_complete(v@, self@.geometry),
                (Err(e), Err(f)) => e@ == f,
                _ => false,
            },
    {
        proof {
            grid::lemma_grid_volume(self@.geometry.znaxis, self@.geometry.ztile);
        }
        let n: usize = self.geometry.num_tiles();
        let ghost whole = tiles_from(self@, 0, col as int);
        let mut tiles: Vec<Vec<i64>> = Vec::new();
        let mut k: usize = 0;
        proof {
            match whole {
                Ok(t) => {
                    assert(samples_of(tiles@) + t =~= t);
                },
                Err(_) => {},
            }
        }
        while k < n
            invariant
                k <= n,
                n == self@.geometry.tiles(),
                self@.zbitpix < 0 || Bitpix::of(self@.zbitpix) is Some,
                self@.geometry.znaxis.len() <= self@.geometry.ztile.len(),
                grid::volume(self@.geometry.znaxis) <= usize::MAX,
                tiles@.len() == k,
                forall|j: int|
                    0 <= j < k ==> (#[trigger] tiles@[j])@.len() == grid::tile_volume(
                        self@.geometry.znaxis,
                        self@.geometry.ztile,
                        j,
                    ),
                whole == tiles_from(self@, 0, col as int),
                whole == (match tiles_from(self@, k as nat, col as int) {
                    Err(e) => Err(e),
                    Ok(t) => Ok::<Seq<Seq<int>>, ErrorView>(samples_of(tiles@) + t),
                }),
            decreases n - k,
        {
            let v: Vec<i64> = match self.decode_int_tile(k, col) {
                Ok(v) => v,
                Err(e) => return Err(e),
            };
            let ghost before = samples_of(tiles@);
            let ghost s = numbers_of(v@);
            tiles.push(v);
            proof {
                assert(samples_of(tiles@) =~= before.push(s));
                match tiles_from(self@, (k + 1) as nat, col as int) {
                    Ok(t) => {
                        assert(before + (seq![s] + t) =~= samples_of(tiles@) + t);
                    },
                    Err(_) => {},
                }
            }
            k += 1;
        }
        assert(samples_of(tiles@) + Seq::<Seq<int>>::empty() =~= samples_of(tiles@));
        Ok(tiles)
    }

    /// Decompress the tiles of an integer image and reassemble the full image.
    ///
    /// Each tile is read from the `COMPRESSED_DATA` variable-length-array column,
    /// decoded to a flat array of integers, and scattered into the correct
    /// sub-rectangle of the output buffer per the tile grid (axis-1 fastest). `ZBLANK`
    /// integer sentinels are carried through unchanged into the output array.
    fn decompress_int(&self) -> (r: Result<ImageData>)
        requires
            self@.zbitpix >= 0,
            self@.geometry.znaxis.len() <= self@.geometry.ztile.len(),
        ensures
            match (r, decompressed_int(self@)) {
                (Ok(v), Ok(t)) => v@ == t,
                (Err(e), Err(f)) => e@ == f,
                _ => false,
            },
    {
        let kind: Bitpix = match Bitpix::from_i64(self.zbitpix) {
            Ok(b) => b,
            Err(e) => return Err(e),
        };
        let col: usize = match self.compressed_data_column() {
            Ok(c) => c,
            Err(e) => return Err(e),
        };
        let tiles: Vec<Vec<i64>> = match self.decode_int_tiles(col) {
            Ok(t) => t,
            Err(e) => return Err(e),
        };
        let full: Vec<i64> = grid::assemble(
            tiles.as_slice(),
            self.geometry.znaxis.as_slice(),
            self.geometry.ztile.as_slice(),
            0,
        );
        proof {
            let t = samples_of(tiles@);
            let g = self@.geometry;
            grid::lemma_assembled_map(
                grid::contents(tiles@),
                t,
                g.znaxis,
                g.ztile,
                |v: i64| v as int,
            );
            assert(numbers_of(full@) =~= grid::assembled(t, g.znaxis, g.ztile));
        }
        Ok(ImageData::new(clone_dims(self.geometry.znaxis.as_slice()), narrow_pixels(kind, full)))
    }
}

/// The samples of tiles.
pub open spec fn samples_of(tiles: Seq<Vec<i64>>) -> Seq<Seq<int>> {
    Seq::new(tiles.len(), |k: int| numbers_of(tiles[k]@))
}

/// Every tile of a grid is there with all its pixels.
pub open spec fn tiles_complete<T>(tiles: Seq<Vec<T>>, g: GeometryView) -> bool {
    &&& tiles.len() == g.tiles()
    &&& forall|k: int|
        0 <= k < tiles.len() ==> (#[trigger] tiles[k])@.len() == grid::tile_volume(
            g.znaxis,
            g.ztile,
            k,
        )
}

pub(crate) fn clone_dims(dims: &[usize]) -> (r: Vec<usize>)
    ensures
        r@ == dims@,
{
    vstd::slice::slice_to_vec(dims)
}

/// Samples as pixels of a type.
fn narrow_pixels(kind: Bitpix, full: Vec<i64>) -> (r: PixelData)
    requires
        kind != Bitpix::F32,
        kind != Bitpix::F64,
    ensures
        r@ == (PixelView { kind, values: narrowed(kind, numbers_of(full@)) }),
{
    let ghost t = narrowed(kind, numbers_of(full@));
    match kind {
        Bitpix::U8 => {
            let v: Vec<u8> = rice::to_u8(full.as_slice());
            assert(words::numbers(v@) =~= t);
            PixelData::U8(v)
        },
        Bitpix::I16 => {
            let v: Vec<i16> = rice::to_i16(full.as_slice());
            assert(words::numbers(v@) =~= t);
            PixelData::I16(v)
        },
        Bitpix::I32 => {
            let v: Vec<i32> = rice::to_i32(full.as_slice());
            assert(words::numbers(v@) =~= t);
            PixelData::I32(v)
        },
        _ => {
            assert(words::numbers(full@) =~= t);
            PixelData::I64(full)
        },
    }
}

/// The bit pattern of a floating-point number of one of two sizes.
#[derive(Debug, Clone, Copy, PartialEq, Eq)]
pub enum FloatBits {
    Single(u32),
    Double(u64),
}

impl FloatBits {
    /// Whether the number is zero, of either sign.
    pub open spec fn zero(self) -> bool {
        match self {
            FloatBits::Single(b) => b == 0 || b == 0x8000_0000,
            FloatBits::Double(b) => b == 0 || b == 0x8000_0000_0000_0000,
        }
    }

    /// Whether the number is zero, of either sign.
    pub fn is_zero(&self) -> (r: bool)
        ensures
            r == self.zero(),
    {
        match self {
            FloatBits::Single(b) => *b == 0 || *b == 0x8000_0000,
            FloatBits::Double(b) => *b == 0 || *b == 0x8000_0000_0000_0000,
        }
    }
}

/// One tile of a compressed floating-point image.
#[derive(Debug)]
pub enum FloatTile {
    /// The bit patterns of the pixels.
    Raw(Vec<u64>),
    /// Quantized pixels, which stand for `value * scale + zero`. Pixels equal to
    /// `blank` are undefined.
    Quantized { samples: Vec<i64>, scale: FloatBits, zero: FloatBits, blank: Option<i64> },
}

/// What a tile of a compressed floating-point image stands for.
pub enum FloatTileView {
    Raw(Seq<int>),
    Quantized { samples: Seq<int>, scale: FloatBits, zero: FloatBits, blank: Option<int> },
}

impl View for FloatTile {
    type V = FloatTileView;

    open spec fn view(&self) -> FloatTileView {
        match self {
            FloatTile::Raw(v) => FloatTileView::Raw(words::numbers(v@)),
            FloatTile::Quantized { samples, scale, zero, blank } => FloatTileView::Quantized {
                samples: numbers_of(samples@),
                scale: *scale,
                zero: *zero,
                blank: int_value(*blank),
            },
        }
    }
}

/// What tiles stand for.
pub open spec fn float_views(tiles: Seq<FloatTile>) -> Seq<FloatTileView> {
    Seq::new(tiles.len(), |k: int| tiles[k]@)
}

/// The first number of a cell of floating-point numbers.
pub open spec fn scalar_cell(c: CompressedView, row: int, col: int) -> Option<FloatBits> {
    match bintable::table_cell(c.table, row as usize, col as usize) {
        Ok(CellView::F64(v)) => if v.len() > 0 {
            Some(FloatBits::Double(v[0] as u64))
        } else {
            None
        },
        Ok(CellView::F32(v)) => if v.len() > 0 {
            Some(FloatBits::Single(v[0] as u32))
        } else {
            None
        },
        _ => None,
    }
}

/// The first number of a cell of integers.
pub open spec fn int_cell(c: CompressedView, row: int, col: int) -> Option<int> {
    match bintable::table_cell(c.table, row as usize, col as usize) {
        Ok(CellView::I16(v)) => if v.len() > 0 {
            Some(v[0])
        } else {
            None
        },
        Ok(CellView::I32(v)) => if v.len() > 0 {
            Some(v[0])
        } else {
            None
        },
        Ok(CellView::I64(v)) => if v.len() > 0 {
            Some(v[0])
        } else {
            None
        },
        _ => None,
    }
}

/// The pixel type of a compressed floating-point image.
pub open spec fn float_kind(zbitpix: int) -> Bitpix {
    if zbitpix == -64 {
        Bitpix::F64
    } else {
        Bitpix::F32
    }
}

/// The bit patterns of `n` pixels at the start of some bytes.
pub open spec fn raw_pixels(c: CompressedView, bytes: Seq<u8>, n: nat) -> std::result::Result<
    FloatTileView,
    ErrorView,
> {
    let all = words::words_decoded(false, float_kind(c.zbitpix).width(), bytes);
    if all.len() < n {
        Err(
            ErrorView::CompressionError(
                "raw float tile has "@ + text::decimal(bytes.len() as int)
                    + " bytes, expected at least "@ + text::decimal(
                    (n * float_kind(c.zbitpix).width()) as int,
                ),
            ),
        )
    } else {
        Ok(FloatTileView::Raw(all.take(n as int)))
    }
}

/// The bit patterns of the pixels of tile `k` that is not quantized: in the column of
/// compressed data, or else in one of two other columns.
#[verifier::opaque]
pub open spec fn raw_tile(c: CompressedView, k: int, data: Seq<u8>, n: nat) -> std::result::Result<
    FloatTileView,
    ErrorView,
> {
    let columns = c.table.columns;
    let zipped = cell_bytes(c, k, column_position(columns, "GZIP_COMPRESSED_DATA"@));
    let plain = cell_bytes(c, k, column_position(columns, "UNCOMPRESSED_DATA"@));
    if data.len() > 0 && c.ctype == CompressionType::NoCompress {
        raw_pixels(c, data, n)
    } else if data.len() > 0 || zipped is Ok {
        let member = if data.len() > 0 {
            data
        } else {
            zipped->Ok_0
        };
        match gzip::gzip_decoded(member) {
            Some(bytes) => raw_pixels(c, bytes, n),
            None => Err(gzip::gzip_fault(member)),
        }
    } else if plain is Ok {
        raw_pixels(c, plain->Ok_0, n)
    } else {
        Err(
            ErrorView::CompressionError(
                "float tile "@ + text::decimal(k)
                    + " has no quantization scale and no raw-float fallback data"@,
            ),
        )
    }
}

/// Tile `k` of a compressed floating-point image: quantized where it has a zero point
/// and a scale that is not zero.
#[verifier::opaque]
pub open spec fn float_tile(c: CompressedView, k: int, col: int) -> std::result::Result<
    FloatTileView,
    ErrorView,
> {
    let n = grid::tile_volume(c.geometry.znaxis, c.geometry.ztile, k);
    let columns = c.table.columns;
    let scale = scalar_cell(c, k, column_position(columns, "ZSCALE"@));
    let zero = scalar_cell(c, k, column_position(columns, "ZZERO"@));
    let own = int_cell(c, k, column_position(columns, "ZBLANK"@));
    match cell_bytes(c, k, col) {
        Err(e) => Err(e),
        Ok(data) => if data.len() > 0 && scale is Some && zero is Some && !scale->0.zero() {
            match stream_samples(c, data, n) {
                Err(e) => Err(e),
                Ok(samples) => Ok(
                    FloatTileView::Quantized {
                        samples,
                        scale: scale->0,
                        zero: zero->0,
                        blank: if own is Some {
                            own
                        } else {
                            c.blank
                        },
                    },
                ),
            }
        } else {
            raw_tile(c, k, data, n)
        },
    }
}

/// All tiles of a compressed floating-point image from `k` on.
pub open spec fn float_tiles_from(c: CompressedView, k: nat, col: int) -> std::result::Result<
    Seq<FloatTileView>,
    ErrorView,
>
    decreases c.geometry.tiles() - k,
{
    if k >= c.geometry.tiles() {
        Ok(Seq::empty())
    } else {
        match float_tile(c, k as int, col) {
            Err(e) => Err(e),
            Ok(s) => match float_tiles_from(c, k + 1, col) {
                Err(e) => Err(e),
                Ok(t) => Ok(seq![s] + t),
            },
        }
    }
}

/// The tiles of a compressed floating-point image.
pub open spec fn float_tiles_of(c: CompressedView) -> std::result::Result<
    Seq<FloatTileView>,
    ErrorView,
> {
    match tile_column(c) {
        Err(e) => Err(e),
        Ok(col) => float_tiles_from(c, 0, col),
    }
}

/// Whether no tile is quantized.
pub open spec fn all_raw(tiles: Seq<FloatTileView>) -> bool {
    forall|k: int| 0 <= k < tiles.len() ==> (#[trigger] tiles[k]) is Raw
}

/// The bit patterns of tiles.
pub open spec fn patterns(tiles: Seq<FloatTileView>) -> Seq<Seq<int>> {
    Seq::new(tiles.len(), |k: int| tiles[k]->Raw_0)
}

/// A bit pattern cut to the size of a pixel.
pub open spec fn cut_pattern(kind: Bitpix, v: int) -> int {
    if kind == Bitpix::F64 {
        v
    } else {
        v % 0x1_0000_0000
    }
}

/// The floating-point image that bit patterns of tiles make up.
pub open spec fn float_image(c: CompressedView, tiles: Seq<Seq<int>>) -> ImageView {
    let kind = float_kind(c.zbitpix);
    let all = grid::assembled(tiles, c.geometry.znaxis, c.geometry.ztile);
    ImageView {
        axes: c.geometry.znaxis,
        pixels: PixelView {
            kind,
            values: Seq::new(all.len(), |i: int| cut_pattern(kind, all[i])),
        },
    }
}

/// The image that a compressed image holds, where none of its tiles is quantized.
pub open spec fn decompressed(c: CompressedView) -> std::result::Result<ImageView, ErrorView> {
    if c.zbitpix >= 0 {
        decompressed_int(c)
    } else {
        match float_tiles_of(c) {
            Err(e) => Err(e),
            Ok(tiles) => if all_raw(tiles) {
                Ok(float_image(c, patterns(tiles)))
            } else {
                Err(
                    ErrorView::UnsupportedCompression(
                        "quantized tiles are to be scaled before they are put together"@,
                    ),
                )
            },
        }
    }
}

/// The error for a raw-float tile that is too short.
fn short_floats(len: usize, n: usize, width: u128) -> (r: Error)
    requires
        width <= 8,
    ensures
        r@ == ErrorView::CompressionError(
            "raw float tile has "@ + text::decimal(len as int) + " bytes, expected at least "@
                + text::decimal(n * width),
        ),
{
    assert(n * width <= 0xffff_ffff_ffff_ffff * 8) by (nonlinear_arith)
        requires
            n <= 0xffff_ffff_ffff_ffff,
            width <= 8,
    ;
    let found: String = error::with_number("raw float tile has ", len as u64);
    Error::CompressionError(
        found.concat(" bytes, expected at least ").concat(
            text::decimal_u128(n as u128 * width).as_str(),
        ),
    )
}

/// Numbers of 64 bits cut to 32.
fn cut_u32(v: &[u64]) -> (r: Vec<u32>)
    ensures
        r@.len() == v@.len(),
        forall|i: int| 0 <= i < r@.len() ==> #[trigger] r@[i] == v@[i] % 0x1_0000_0000,
{
    let mut out: Vec<u32> = Vec::new();
    let mut i: usize = 0;
    while i < v.len()
        invariant
            i <= v@.len(),
            out@.len() == i,
            forall|k: int| 0 <= k < i ==> #[trigger] out@[k] == v@[k] % 0x1_0000_0000,
        decreases v@.len() - i,
    {
        out.push(casts::u32_of_u64(v[i]));
        i += 1;
    }
    out
}

/// The first `n` of some numbers, as numbers of 64 bits.
fn widen_patterns(v: &[u32], n: usize) -> (r: Vec<u64>)
    requires
        n <= v@.len(),
    ensures
        r@.len() == n,
        forall|i: int| 0 <= i < n ==> #[trigger] r@[i] == v@[i],
{
    let len: usize = v.len();
    let mut out: Vec<u64> = Vec::new();
    let mut i: usize = 0;
    while i < n
        invariant
            i <= n <= len,
            len == v@.len(),
            out@.len() == i,
            forall|k: int| 0 <= k < i ==> #[trigger] out@[k] == v@[k],
        decreases n - i,
    {
        out.push(v[i] as u64);
        i += 1;
    }
    out
}

impl<'a> CompressedImage<'a> {
    /// Read a single `D`/`E` scalar cell (per-tile ZSCALE/ZZERO).
    fn tile_double(&self, row: usize, col: usize) -> (r: Option<FloatBits>)
        ensures
            r == scalar_cell(self@, row as int, col as int),
    {
        match self.table.get_cell(row, col) {
            Ok(BinCellValue::F64(v)) => if v.len() > 0 {
                assert(words::numbers(v@)[0] == v@[0]);
                Some(FloatBits::Double(v[0]))
            } else {
                None
            },
            Ok(BinCellValue::F32(v)) => if v.len() > 0 {
                assert(words::numbers(v@)[0] == v@[0]);
                Some(FloatBits::Single(v[0]))
            } else {
                None
            },
            _ => None,
        }
    }

    /// Read a single integer scalar cell as `i64` (per-tile ZBLANK).
    fn tile_int(&self, row: usize, col: usize) -> (r: Option<i64>)
        ensures
            int_value(r) == int_cell(self@, row as int, col as int),
    {
        match self.table.get_cell(row, col) {
            Ok(BinCellValue::I16(v)) => if v.len() > 0 {
                assert(words::numbers(v@)[0] == v@[0]);
                Some(v[0] as i64)
            } else {
                None
            },
            Ok(BinCellValue::I32(v)) => if v.len() > 0 {
                assert(words::numbers(v@)[0] == v@[0]);
                Some(v[0] as i64)
            } else {
                None
            },
            Ok(BinCellValue::I64(v)) => if v.len() > 0 {
                assert(words::numbers(v@)[0] == v@[0]);
                Some(v[0])
            } else {
                None
            },
            _ => None,
        }
    }

    /// Reinterpret big-endian bytes as the bit patterns of `n` floats. Used for
    /// unquantized (raw-float) tiles.
    fn raw_floats(&self, bytes: &[u8], n: usize) -> (r: Result<FloatTile>)
        ensures
            match (r, raw_pixels(self@, bytes@, n as nat)) {
                (Ok(v), Ok(t)) => v@ == t && v is Raw && v->Raw_0@.len() == n,
                (Err(e), Err(f)) => e@ == f,
                _ => false,
            },
    {
        let ghost all = words::words_decoded(false, float_kind(self@.zbitpix).width(), bytes@);
        if self.zbitpix == -64 {
            let mut v: Vec<u64> = words::decode_vec(bytes);
            if v.len() < n {
                return Err(short_floats(bytes.len(), n, 8));
            }
            v.truncate(n);
            assert(words::numbers(v@) =~= all.take(n as int));
            Ok(FloatTile::Raw(v))
        } else {
            let v: Vec<u32> = words::decode_vec(bytes);
            if v.len() < n {
                return Err(short_floats(bytes.len(), n, 4));
            }
            let w: Vec<u64> = widen_patterns(v.as_slice(), n);
            assert(words::numbers(w@) =~= all.take(n as int)) by {
                assert forall|i: int| 0 <= i < n implies words::numbers(w@)[i] == all[i] by {
                    assert(words::numbers(v@)[i] == v@[i]);
                }
            }
            Ok(FloatTile::Raw(w))
        }
    }

    /// The pixels of a raw-float tile.
    fn decode_raw(&self, k: usize, data: Vec<u8>, n: usize) -> (r: Result<FloatTile>)
        ensures
            match (r, raw_tile(self@, k as int, data@, n as nat)) {
                (Ok(v), Ok(t)) => v@ == t && v is Raw && v->Raw_0@.len() == n,
                (Err(e), Err(f)) => e@ == f,
                _ => false,
            },
    {
        proof {
            reveal(raw_tile);
        }
        let is_plain: bool = match self.ctype {
            CompressionType::NoCompress => true,
            _ => false,
        };
        if data.len() > 0 && is_plain {
            return self.raw_floats(data.as_slice(), n);
        }
        let zipped: Option<Vec<u8>> = if data.len() > 0 {
            // For a lossless GZIP image the raw floats are gzip-compressed here.
            Some(data)
        } else {
            match self.tile_bytes(k, self.find_column("GZIP_COMPRESSED_DATA")) {
                Ok(b) => Some(b),
                Err(_) => None,
            }
        };
        match zipped {
            Some(b) => match gzip::gzip_inflate(b.as_slice()) {
                Ok(bytes) => self.raw_floats(bytes.as_slice(), n),
                Err(e) => Err(e),
            },
            None => match self.tile_bytes(k, self.find_column("UNCOMPRESSED_DATA")) {
                Ok(b) => self.raw_floats(b.as_slice(), n),
                Err(_) => Err(
                    Error::CompressionError(
                        error::with_number("float tile ", k as u64).concat(
                            " has no quantization scale and no raw-float fallback data",
                        ),
                    ),
                ),
            },
        }
    }

    /// Decode tile `k` of a floating-point image.
    fn decode_float_tile(&self, k: usize, col: usize) -> (r: Result<FloatTile>)
        requires
            self@.zbitpix < 0,
            self@.geometry.znaxis.len() <= self@.geometry.ztile.len(),
            grid::volume(self@.geometry.znaxis) <= usize::MAX,
            k < self@.geometry.tiles(),
        ensures
            match (r, float_tile(self@, k as int, col as int)) {
                (Ok(v), Ok(t)) => v@ == t && tile_whole(v, self@.geometry, k as int),
                (Err(e), Err(f)) => e@ == f,
                _ => false,
            },
    {
        proof {
            reveal(float_tile);
        }
        let n: usize = grid::tile_size(
            self.geometry.znaxis.as_slice(),
            self.geometry.ztile.as_slice(),
            k,
        );
        let scale: Option<FloatBits> = self.tile_double(k, self.find_column("ZSCALE"));
        let zero: Option<FloatBits> = self.tile_double(k, self.find_column("ZZERO"));
        // Per-tile blank sentinel (J column) overrides the ZBLANK keyword.
        let blank: Option<i64> = match self.tile_int(k, self.find_column("ZBLANK")) {
            Some(b) => Some(b),
            None => self.blank,
        };
        let data: Vec<u8> = match self.tile_bytes(k, col) {
            Ok(b) => b,
            Err(e) => return Err(e),
        };
        match (scale, zero) {
            (Some(s), Some(z)) => if data.len() > 0 && !s.is_zero() {
                return match self.decode_stream(data.as_slice(), n) {
                    Ok(samples) => Ok(FloatTile::Quantized { samples, scale: s, zero: z, blank }),
                    Err(e) => Err(e),
                };
            },
            _ => {},
        }
        self.decode_raw(k, data, n)
    }

    /// Decode the tiles of a floating-point image (`ZBITPIX = -32` / `-64`).
    ///
    /// Float images are normally stored as per-tile linearly-quantized 32-bit
    /// integers plus per-tile `ZSCALE`/`ZZERO` scale/offset columns. A tile that could
    /// not be quantized is stored instead as the raw big-endian float bytes — either
    /// in a `GZIP_COMPRESSED_DATA`/`UNCOMPRESSED_DATA` fallback column for that single
    /// tile, or, for a wholly-lossless image, in `COMPRESSED_DATA` with no
    /// `ZSCALE`/`ZZERO` columns at all. Such tiles are passed through verbatim.
    pub fn float_tiles(&self) -> (r: Result<Vec<FloatTile>>)
        requires
            self@.zbitpix < 0,
            self@.geometry.znaxis.len() <= self@.geometry.ztile.len(),
        ensures
            match (r, float_tiles_of(self@)) {
                (Ok(v), Ok(t)) => float_views(v@) == t && v@.len() == self@.geometry.tiles()
                    && forall|k: int|
                    0 <= k < v@.len() ==> tile_whole(#[trigger] v@[k], self@.geometry, k),
                (Err(e), Err(f)) => e@ == f,
                _ => false,
            },
    {
        let col: usize = match self.compressed_data_column() {
            Ok(c) => c,
            Err(e) => return Err(e),
        };
        self.decode_float_tiles(col)
    }

    fn decode_float_tiles(&self, col: usize) -> (r: Result<Vec<FloatTile>>)
        requires
            self@.zbitpix < 0,
            self@.geometry.znaxis.len() <= self@.geometry.ztile.len(),
            grid::volume(self@.geometry.znaxis) <= usize::MAX,
        ensures
            match (r, float_tiles_from(self@, 0, col as int)) {
                (Ok(v), Ok(t)) => float_views(v@) == t && v@.len() == self@.geometry.tiles()
                    && forall|k: int|
                    0 <= k < v@.len() ==> tile_whole(#[trigger] v@[k], self@.geometry, k),
                (Err(e), Err(f)) => e@ == f,
                _ => false,
            },
    {
        proof {
            grid::lemma_grid_volume(self@.geometry.znaxis, self@.geometry.ztile);
        }
        let n: usize = self.geometry.num_tiles();
        let ghost whole = float_tiles_from(self@, 0, col as int);
        let mut tiles: Vec<FloatTile> = Vec::new();
        let mut k: usize = 0;
        proof {
            match whole {
                Ok(t) => {
                    assert(float_views(tiles@) + t =~= t);
                },
                Err(_) => {},
            }
        }
        while k < n
            invariant
                k <= n,
                n == self@.geometry.tiles(),
                self@.zbitpix < 0,
                self@.geometry.znaxis.len() <= self@.geometry.ztile.len(),
                grid::volume(self@.geometry.znaxis) <= usize::MAX,
                tiles@.len() == k,
                forall|j: int| 0 <= j < k ==> tile_whole(#[trigger] tiles@[j], self@.geometry, j),
                whole == float_tiles_from(self@, 0, col as int),
                whole == (match float_tiles_from(self@, k as nat, col as int) {
                    Err(e) => Err(e),
                    Ok(t) => Ok::<Seq<FloatTileView>, ErrorView>(float_views(tiles@) + t),
                }),
            decreases n - k,
        {
            let v: FloatTile = match self.decode_float_tile(k, col) {
                Ok(v) => v,
                Err(e) => return Err(e),
            };
            let ghost before = float_views(tiles@);
            let ghost s = v@;
            tiles.push(v);
            proof {
                assert(float_views(tiles@) =~= before.push(s));
                match float_tiles_from(self@, (k + 1) as nat, col as int) {
                    Ok(t) => {
                        assert(before + (seq![s] + t) =~= float_views(tiles@) + t);
                    },
                    Err(_) => {},
                }
            }
            k += 1;
        }
        assert(float_views(tiles@) + Seq::<FloatTileView>::empty() =~= float_views(tiles@));
        Ok(tiles)
    }

    /// Put a floating-point image together from the bit patterns of its tiles.
    pub fn assemble_floats(&self, tiles: &[Vec<u64>]) -> (r: Result<ImageData>)
        requires
            self@.geometry.znaxis.len() <= self@.geometry.ztile.len(),
        ensures
            match r {
                Ok(img) => tiles_complete(tiles@, self@.geometry) && grid::volume(
                    self@.geometry.znaxis,
                ) <= usize::MAX && img@ == float_image(self@, pattern_tiles(tiles@)),
                Err(e) => if grid::volume(self@.geometry.znaxis) > usize::MAX {
                    e@ == ErrorView::CompressionError("too many pixels"@)
                } else if tiles@.len() != self@.geometry.tiles() {
                    e@ == ErrorView::CompressionError("wrong number of tiles"@)
                } else {
                    exists|k: int| #[trigger] first_wrong(tiles@, self@.geometry, k) && e@
                        == tile_count_fault(tiles@, self@.geometry, k)
                },
            },
    {
        if grid::checked_volume(self.geometry.znaxis.as_slice()).is_none() {
            return Err(Error::CompressionError("too many pixels".to_owned()));
        }
        proof {
            grid::lemma_grid_volume(self@.geometry.znaxis, self@.geometry.ztile);
        }
        let n: usize = self.geometry.num_tiles();
        if tiles.len() != n {
            return Err(Error::CompressionError("wrong number of tiles".to_owned()));
        }
        let mut k: usize = 0;
        while k < n
            invariant
                k <= n,
                n == self@.geometry.tiles(),
                n == tiles@.len(),
                self@.geometry.znaxis.len() <= self@.geometry.ztile.len(),
                grid::volume(self@.geometry.znaxis) <= usize::MAX,
                forall|j: int|
                    0 <= j < k ==> (#[trigger] tiles@[j])@.len() == grid::tile_volume(
                        self@.geometry.znaxis,
                        self@.geometry.ztile,
                        j,
                    ),
            decreases n - k,
        {
            let size: usize = grid::tile_size(
                self.geometry.znaxis.as_slice(),
                self.geometry.ztile.as_slice(),
                k,
            );
            if tiles[k].len() != size {
                assert(first_wrong(tiles@, self@.geometry, k as int));
                let which: String = error::with_number("float tile ", k as u64);
                let found: String = error::with_number(
                    which.concat(" produced ").as_str(),
                    tiles[k].len() as u64,
                );
                return Err(
                    Error::CompressionError(
                        error::with_number(found.concat(" values, expected ").as_str(), size as u64),
                    ),
                );
            }
            k += 1;
        }
        let full: Vec<u64> = grid::assemble(
            tiles,
            self.geometry.znaxis.as_slice(),
            self.geometry.ztile.as_slice(),
            0,
        );
        let ghost t = pattern_tiles(tiles@);
        proof {
            let g = self@.geometry;
            grid::lemma_assembled_map(
                grid::contents(tiles@),
                t,
                g.znaxis,
                g.ztile,
                |v: u64| v as int,
            );
            assert(words::numbers(full@) =~= grid::assembled(t, g.znaxis, g.ztile));
        }
        let axes: Vec<usize> = clone_dims(self.geometry.znaxis.as_slice());
        let ghost want = float_image(self@, t).pixels.values;
        if self.zbitpix == -64 {
            assert(words::numbers(full@) =~= want);
            Ok(ImageData::new(axes, PixelData::F64(full)))
        } else {
            let v: Vec<u32> = cut_u32(full.as_slice());
            assert(words::numbers(v@) =~= want) by {
                assert forall|i: int| 0 <= i < v@.len() implies words::numbers(v@)[i] == want[i] by {
                    assert(words::numbers(full@)[i] == full@[i]);
                }
            }
            Ok(ImageData::new(axes, PixelData::F32(v)))
        }
    }

    /// Decompress a floating-point image none of whose tiles is quantized.
    fn decompress_float(&self) -> (r: Result<ImageData>)
        requires
            self@.zbitpix < 0,
            self@.geometry.znaxis.len() <= self@.geometry.ztile.len(),
        ensures
            match (r, decompressed(self@)) {
                (Ok(v), Ok(t)) => v@ == t,
                (Err(e), Err(f)) => e@ == f,
                _ => false,
            },
    {
        let tiles: Vec<FloatTile> = match self.float_tiles() {
            Ok(t) => t,
            Err(e) => return Err(e),
        };
        let ghost views = float_views(tiles@);
        match raw_patterns(tiles) {
            Some(raw) => {
                assert(pattern_tiles(raw@) =~= patterns(views)) by {
                    assert forall|k: int| 0 <= k < raw@.len() implies pattern_tiles(raw@)[k]
                        == patterns(views)[k] by {
                        assert(views[k] is Raw);
                        assert(raw@[k]@ == raw_of(tiles@[k]));
                    }
                }
                assert forall|k: int| 0 <= k < raw@.len() implies (#[trigger] raw@[k])@.len()
                    == grid::tile_volume(self@.geometry.znaxis, self@.geometry.ztile, k) by {
                    assert(tile_whole(tiles@[k], self@.geometry, k));
                    assert(views[k] is Raw);
                }
                self.assemble_floats(raw.as_slice())
            },
            None => Err(
                Error::UnsupportedCompression(
                    "quantized tiles are to be scaled before they are put together".to_owned(),
                ),
            ),
        }
    }

    /// Decompress an image that needs no arithmetic on floating-point numbers: an integer
    /// image, or a float image whose tiles hold the raw floats. Any image is decompressed by
    /// [`CompressedImage::decompress`].
    pub fn decompress_exact(&self) -> (r: Result<ImageData>)
        requires
            self@.geometry.znaxis.len() <= self@.geometry.ztile.len(),
        ensures
            match (r, decompressed(self@)) {
                (Ok(v), Ok(t)) => v@ == t,
                (Err(e), Err(f)) => e@ == f,
                _ => false,
            },
    {
        if self.zbitpix < 0 {
            self.decompress_float()
        } else {
            self.decompress_int()
        }
    }
}

/// Tile `k` is the first that has not as many pixels as expected.
pub open spec fn first_wrong(tiles: Seq<Vec<u64>>, g: GeometryView, k: int) -> bool {
    &&& 0 <= k < tiles.len()
    &&& tiles[k]@.len() != grid::tile_volume(g.znaxis, g.ztile, k)
    &&& forall|j: int|
        0 <= j < k ==> (#[trigger] tiles[j])@.len() == grid::tile_volume(g.znaxis, g.ztile, j)
}

/// The error for a tile that has not as many pixels as expected.
pub open spec fn tile_count_fault(tiles: Seq<Vec<u64>>, g: GeometryView, k: int) -> ErrorView {
    ErrorView::CompressionError(
        "float tile "@ + text::decimal(k) + " produced "@ + text::decimal(tiles[k]@.len() as int)
            + " values, expected "@ + text::decimal(
            grid::tile_volume(g.znaxis, g.ztile, k) as int,
        ),
    )
}

/// A tile has all its pixels.
pub open spec fn tile_whole(tile: FloatTile, g: GeometryView, k: int) -> bool {
    let n = grid::tile_volume(g.znaxis, g.ztile, k);
    match tile {
        FloatTile::Raw(v) => v@.len() == n,
        FloatTile::Quantized { samples, scale, zero, blank } => samples@.len() == n,
    }
}

/// The bit patterns of tiles as numbers.
pub open spec fn pattern_tiles(tiles: Seq<Vec<u64>>) -> Seq<Seq<int>> {
    Seq::new(tiles.len(), |k: int| words::numbers(tiles[k]@))
}

/// The bit patterns of a tile that is not quantized.
pub open spec fn raw_of(tile: FloatTile) -> Seq<u64> {
    match tile {
        FloatTile::Raw(v) => v@,
        _ => Seq::empty(),
    }
}

/// The bit patterns of tiles of which none is quantized.
fn raw_patterns(tiles: Vec<FloatTile>) -> (r: Option<Vec<Vec<u64>>>)
    ensures
        match r {
            Some(raw) => all_raw(float_views(tiles@)) && raw@.len() == tiles@.len() && forall|
                k: int,
            |
                0 <= k < raw@.len() ==> (#[trigger] raw@[k])@ == raw_of(tiles@[k]),
            None => !all_raw(float_views(tiles@)),
        },
{
    let mut raw: Vec<Vec<u64>> = Vec::new();
    let mut k: usize = 0;
    while k < tiles.len()
        invariant
            k <= tiles@.len(),
            raw@.len() == k,
            forall|j: int| 0 <= j < k ==> (#[trigger] tiles@[j]) is Raw,
            forall|j: int| 0 <= j < k ==> (#[trigger] raw@[j])@ == raw_of(tiles@[j]),
        decreases tiles@.len() - k,
    {
        match &tiles[k] {
            FloatTile::Raw(v) => {
                raw.push(vstd::slice::slice_to_vec(v.as_slice()));
            },
            FloatTile::Quantized { .. } => {
                assert(!(float_views(tiles@)[k as int] is Raw));
                return None;
            },
        }
        k += 1;
    }
    Some(raw)
}

} // verus!
