//! Writing tile-compressed images: encoding tiles, and the table and header that hold
//! them.
use crate::bigendian;
use crate::bintable;
use crate::bintable::{BinColumnType, BinTable, BinTableBuilder, BinTableView, RowWriter};
use crate::dither;
use crate::error;
use crate::error::{Error, ErrorView, Result};
use crate::grid;
use crate::gzip;
use crate::hdu;
use crate::hdu::{Hdu, HduData, HduView};
use crate::header;
use crate::header::Header;
use crate::image_data::{ImageData, ImageView, PixelData};
use crate::keyword;
use crate::keyword::{HeaderValue, KeywordView, ValueView};
use crate::number::Real;
use crate::rice;
use crate::text;
use crate::tile_compress;
use crate::tile_compress::{clone_dims, CompressionType, Quantize};
use crate::types::Bitpix;
use crate::words;
use vstd::prelude::*;

verus! {

/// Options controlling how [`ImageData::compress`] /
/// [`compress_image`](crate::float_images::compress_image) encode an
/// image into a tile-compressed BINTABLE HDU.
#[derive(Debug)]
pub struct CompressOptions {
    /// Compression algorithm (`ZCMPTYPE`). `RICE_1`, `GZIP_1`, `GZIP_2` are supported
    /// for encoding; `PLIO_1`/`HCOMPRESS_1`/`NOCOMPRESS` are rejected.
    pub algorithm: CompressionType,
    /// Tile shape (`ZTILEn`), axis-1 first. `None` selects the default: one row
    /// per tile (`ZTILE1 = NAXIS1`, all other axes = 1).
    pub tile: Option<Vec<usize>>,
    /// For float images: quantization parameter `q` (controls the per-tile scale).
    /// `None` ⇒ lossless float storage (raw big-endian floats, only valid with
    /// GZIP_1). For RICE on floats a quantization value is required.
    pub quantize: Option<Real>,
    /// Subtractive-dithering method for quantized floats (`ZQUANTIZ`). Ignored for the
    /// lossless and integer paths.
    pub dither: Quantize,
    /// Dither seed (`ZDITHER0`, 1..=10000). `None` ⇒ 1.
    pub dither_seed: Option<i64>,
    /// RICE block size (`BLOCKSIZE`); default 32.
    pub blocksize: usize,
}

impl Clone for CompressOptions {
    fn clone(&self) -> (r: Self)
        ensures
            r.algorithm == self.algorithm,
            match (r.tile, self.tile) {
                (Some(a), Some(b)) => a@ == b@,
                (None, None) => true,
                _ => false,
            },
            bintable::real_of(r.quantize) == bintable::real_of(self.quantize),
            r.dither == self.dither,
            r.dither_seed == self.dither_seed,
            r.blocksize == self.blocksize,
    {
        CompressOptions {
            algorithm: self.algorithm,
            tile: match &self.tile {
                Some(t) => Some(tile_compress::clone_dims(t.as_slice())),
                None => None,
            },
            quantize: bintable::real_clone(&self.quantize),
            dither: self.dither,
            dither_seed: self.dither_seed,
            blocksize: self.blocksize,
        }
    }
}

impl Default for CompressOptions {
    fn default() -> (r: Self)
        ensures
            r.algorithm == CompressionType::Rice1,
            r.tile is None,
            bintable::real_of(r.quantize) == Some("4.0"@),
            r.dither == Quantize::SubtractiveDither1,
            r.dither_seed == Some(1i64),
            r.blocksize == 32,
    {
        CompressOptions {
            algorithm: CompressionType::Rice1,
            tile: None,
            quantize: Some(Real { text: "4.0".to_owned() }),
            dither: Quantize::SubtractiveDither1,
            dither_seed: Some(1),
            blocksize: 32,
        }
    }
}

/// Whether tiles can be encoded with an algorithm.
pub open spec fn encodable(algorithm: CompressionType) -> bool {
    algorithm == CompressionType::Rice1 || algorithm == CompressionType::Gzip1 || algorithm
        == CompressionType::Gzip2
}

/// A block size of zero counts as one.
pub open spec fn block_size(blocksize: usize) -> usize {
    if blocksize == 0 {
        1
    } else {
        blocksize
    }
}

/// Whether bytes are what an algorithm makes of the samples of a tile.
pub open spec fn encodes(
    enc: Seq<u8>,
    samples: Seq<i64>,
    algorithm: CompressionType,
    bytepix: usize,
    blocksize: usize,
) -> bool {
    let raw = words::words_encoded(true, bytepix as nat, tile_compress::numbers_of(samples));
    match algorithm {
        CompressionType::Rice1 => rice::filled_up(
            enc,
            rice::rice_bits(
                if bytepix == 1 {
                    rice::widened_u8(rice::cut_u8(samples))
                } else if bytepix == 2 {
                    rice::widened_i16(rice::cut_i16(samples))
                } else {
                    rice::widened_i32(rice::cut_i32(samples))
                },
                blocksize,
                rice::rice_width(bytepix as int),
            ),
        ),
        CompressionType::Gzip1 => enc == gzip::gzip_member(raw, gzip::deflated(raw, 6))
            && gzip::gzip_decoded(enc) == Some(raw),
        CompressionType::Gzip2 => {
            let planes = gzip::shuffled(raw, bytepix as nat);
            enc == gzip::gzip_member(planes, gzip::deflated(planes, 6)) && gzip::gzip_decoded(enc)
                == Some(planes)
        },
        _ => false,
    }
}

/// Serialise integer samples to big-endian bytes of width `bytepix` (used by GZIP).
fn int_samples_to_be(samples: &[i64], bytepix: usize) -> (r: Vec<u8>)
    requires
        1 <= bytepix <= 8,
    ensures
        r@ == words::words_encoded(true, bytepix as nat, tile_compress::numbers_of(samples@)),
{
    let ghost all = tile_compress::numbers_of(samples@);
    let mut out: Vec<u8> = Vec::new();
    let mut i: usize = 0;
    assert(all.take(0) =~= Seq::empty());
    while i < samples.len()
        invariant
            i <= samples@.len(),
            1 <= bytepix <= 8,
            all == tile_compress::numbers_of(samples@),
            out@ == words::words_encoded(true, bytepix as nat, all.take(i as int)),
        decreases samples@.len() - i,
    {
        bigendian::push_be_signed(&mut out, samples[i], bytepix);
        i += 1;
        assert(all.take(i as int).drop_last() =~= all.take(i - 1));
    }
    assert(all.take(i as int) =~= all);
    out
}

/// Encode one integer tile's samples into its compressed byte stream per `algorithm`.
fn encode_int_tile(
    samples: &[i64],
    algorithm: CompressionType,
    bytepix: usize,
    blocksize: usize,
) -> (r: Result<Vec<u8>>)
    requires
        bytepix == 1 || bytepix == 2 || bytepix == 4,
    ensures
        match r {
            Ok(enc) => encodes(enc@, samples@, algorithm, bytepix, blocksize),
            Err(e) => e@ == unencodable(algorithm) && !encodable(algorithm),
        },
{
    match algorithm {
        CompressionType::Rice1 => if bytepix == 1 {
            let v: Vec<u8> = rice::to_u8(samples);
            Ok(rice::rice_compress_i8(v.as_slice(), blocksize))
        } else if bytepix == 2 {
            let v: Vec<i16> = rice::to_i16(samples);
            Ok(rice::rice_compress_i16(v.as_slice(), blocksize))
        } else {
            let v: Vec<i32> = rice::to_i32(samples);
            Ok(rice::rice_compress_i32(v.as_slice(), blocksize))
        },
        CompressionType::Gzip1 => {
            let raw: Vec<u8> = int_samples_to_be(samples, bytepix);
            Ok(gzip::gzip_deflate(raw.as_slice()))
        },
        CompressionType::Gzip2 => {
            let raw: Vec<u8> = int_samples_to_be(samples, bytepix);
            let planes: Vec<u8> = gzip::gzip2_shuffle(raw.as_slice(), bytepix);
            Ok(gzip::gzip_deflate(planes.as_slice()))
        },
        _ => Err(unsupported_encoding(algorithm)),
    }
}

/// The error for an algorithm that has no encoder.
pub open spec fn unencodable(algorithm: CompressionType) -> ErrorView {
    ErrorView::UnsupportedCompression(
        algorithm.variant() + " encoding is not supported (only RICE_1, GZIP_1, GZIP_2)"@,
    )
}

fn unsupported_encoding(algorithm: CompressionType) -> (r: Error)
    ensures
        r@ == unencodable(algorithm),
{
    Error::UnsupportedCompression(
        algorithm.to_variant().to_owned().concat(
            " encoding is not supported (only RICE_1, GZIP_1, GZIP_2)",
        ),
    )
}

/// The descriptor of a compressed tile: its length and its place in the heap.
pub open spec fn tile_descriptor(len: nat, heap_len: nat) -> Seq<u8> {
    bigendian::be_signed_digits(((len as usize) as i32) as int, 4)
        + bigendian::be_digits(heap_len, 4)
}

/// A column of a table of compressed tiles.
pub open spec fn tile_table_column(
    name: Seq<char>,
    format: BinColumnType,
) -> bintable::BinColumnView {
    bintable::BinColumnView { name, format, tscal: None, tzero: None, tunit: None }
}

/// The table of compressed tiles.
pub open spec fn tile_table(encs: Seq<Seq<u8>>) -> BinTableView
    decreases encs.len(),
{
    if encs.len() == 0 {
        BinTableView {
            columns: seq![tile_table_column("COMPRESSED_DATA"@, BinColumnType::VarP('B'))],
            nrows: 0,
            row_len: 8,
            main_data: Seq::empty(),
            heap: Seq::empty(),
        }
    } else {
        let t = tile_table(encs.drop_last());
        bintable::with_row(
            t,
            tile_descriptor(encs.last().len(), t.heap.len()),
            t.heap + encs.last(),
        )
    }
}

/// Append the row of a compressed tile.
fn push_tile(builder: BinTableBuilder, enc: &[u8]) -> (r: BinTableBuilder)
    requires
        builder@.nrows < usize::MAX,
    ensures
        r@ == bintable::with_row(
            builder@,
            tile_descriptor(enc@.len(), builder@.heap.len()),
            builder@.heap + enc@,
        ),
{
    let len: usize = enc.len();
    let count: i32 = len as i32;
    let ghost start = builder@.heap;
    let r = builder.push_row(
        |row: &mut RowWriter| -> (done: ())
            ensures
                final(row).row() == old(row).row() + bigendian::be_signed_digits(
                    count as int,
                    4,
                ) + bigendian::be_digits(old(row).heap().len(), 4),
                final(row).heap() == old(row).heap() + enc@
            {
                row.write_var_p(
                    count,
                    |heap: &mut Vec<u8>| -> (done: ())
                        ensures
                            final(heap)@ == old(heap)@ + enc@
                        {
                            heap.extend_from_slice(enc);
                            assert(heap@ =~= old(heap)@ + enc@);
                        },
                );
            },
    );
    proof {
        let d = tile_descriptor(enc@.len(), start.len());
        assert(Seq::<u8>::empty() + bigendian::be_signed_digits(count as int, 4)
            + bigendian::be_digits(start.len(), 4) =~= d);
    }
    r
}

/// A numbered keyword with an integer value for each of some numbers.
pub open spec fn with_numbered(
    h: Seq<KeywordView>,
    name: Seq<char>,
    values: Seq<usize>,
    comment: Option<Seq<char>>,
) -> Seq<KeywordView>
    decreases values.len(),
{
    if values.len() == 0 {
        h
    } else {
        header::with_set(
            with_numbered(h, name, values.drop_last(), comment),
            name + text::decimal(values.len() as int),
            ValueView::Integer((values.last() as i64) as int),
            comment,
        )
    }
}

/// Set a numbered keyword for each of some numbers.
fn set_numbered(header: &mut Header, name: &str, values: &[usize], comment: Option<&str>)
    ensures
        final(header)@ == with_numbered(
            old(header)@,
            name@,
            values@,
            keyword::str_of(comment),
        ),
{
    let ghost start = header@;
    let mut i: usize = 0;
    assert(values@.take(0) =~= Seq::empty());
    while i < values.len()
        invariant
            i <= values@.len(),
            header@ == with_numbered(
                start,
                name@,
                values@.take(i as int),
                keyword::str_of(comment),
            ),
        decreases values@.len() - i,
    {
        let v: usize = values[i];
        i += 1;
        header.set(
            text::numbered(name, i).as_str(),
            HeaderValue::Integer(v as i64),
            comment,
        );
        assert(values@.take(i as int).drop_last() =~= values@.take(i - 1));
    }
    assert(values@.take(i as int) =~= values@);
}

/// The keywords of the parameters of RICE_1, or none.
pub open spec fn with_rice_params(h: Seq<KeywordView>, params: Option<(usize, usize)>) -> Seq<
    KeywordView,
> {
    match params {
        None => h,
        Some((blocksize, bytepix)) => {
            let h1 = header::with_set(h, "ZNAME1"@, ValueView::Text("BLOCKSIZE"@), None);
            let h2 = header::with_set(
                h1,
                "ZVAL1"@,
                ValueView::Integer((blocksize as i64) as int),
                None,
            );
            let h3 = header::with_set(h2, "ZNAME2"@, ValueView::Text("BYTEPIX"@), None);
            header::with_set(h3, "ZVAL2"@, ValueView::Integer((bytepix as i64) as int), None)
        },
    }
}

/// The keywords before those of the original image.
pub open spec fn z_start(
    ztile: Seq<usize>,
    algorithm: CompressionType,
    params: Option<(usize, usize)>,
) -> Seq<KeywordView> {
    let h1 = header::with_set(
        Seq::empty(),
        "ZIMAGE"@,
        ValueView::Logical(true),
        Some("extension contains compressed image"@),
    );
    let h2 = with_numbered(h1, "ZTILE"@, ztile, Some("size of tiles to be compressed"@));
    let h3 = header::with_set(
        h2,
        "ZCMPTYPE"@,
        ValueView::Text(algorithm.name()),
        Some("compression algorithm"@),
    );
    with_rice_params(h3, params)
}

/// The driver keywords of a compressed image.
pub open spec fn z_header(
    kind: Bitpix,
    axes: Seq<usize>,
    ztile: Seq<usize>,
    algorithm: CompressionType,
    params: Option<(usize, usize)>,
) -> Seq<KeywordView> {
    let h4 = z_start(ztile, algorithm, params);
    let h5 = header::with_set(h4, "EXTNAME"@, ValueView::Text("COMPRESSED_IMAGE"@), None);
    let h6 = header::with_set(
        h5,
        "ZTENSION"@,
        ValueView::Text("IMAGE"@),
        Some("Image extension"@),
    );
    let h7 = header::with_set(
        h6,
        "ZBITPIX"@,
        ValueView::Integer(kind.number()),
        Some("data type of original image"@),
    );
    let h8 = header::with_set(
        h7,
        "ZNAXIS"@,
        ValueView::Integer((axes.len() as i64) as int),
        Some("dimension of original image"@),
    );
    let h9 = with_numbered(h8, "ZNAXIS"@, axes, None);
    let h10 = header::with_set(
        h9,
        "ZPCOUNT"@,
        ValueView::Integer(0),
        Some("original PCOUNT"@),
    );
    header::with_set(h10, "ZGCOUNT"@, ValueView::Integer(1), Some("original GCOUNT"@))
}

/// Build the `Z*` driver keywords for a compressed-image BINTABLE, in the order in
/// which they are conventionally written.
///
/// The order is load-bearing: other readers reconstruct the uncompressed image
/// header by walking the cards in order and translating `ZBITPIX`/`ZNAXIS`/... into
/// `BITPIX`/`NAXIS`/..., emitting the leading `XTENSION` card from `ZTENSION`. The
/// accepted order is: `ZIMAGE`, `ZTILEn`, `ZCMPTYPE`, `ZNAMEi`/`ZVALi`, `EXTNAME`,
/// `ZTENSION`, `ZBITPIX`, `ZNAXIS`, `ZNAXISn`, `ZPCOUNT`, `ZGCOUNT`.
fn build_z_header(
    image: &ImageData,
    ztile: &[usize],
    algorithm: CompressionType,
    params: Option<(usize, usize)>,
) -> (r: Header)
    ensures
        r@ == z_header(image@.pixels.kind, image@.axes, ztile@, algorithm, params),
{
    let mut header = Header::new();
    header.set(
        "ZIMAGE",
        HeaderValue::Logical(true),
        Some("extension contains compressed image"),
    );
    set_numbered(&mut header, "ZTILE", ztile, Some("size of tiles to be compressed"));
    header.set(
        "ZCMPTYPE",
        HeaderValue::String(algorithm.to_name().to_owned()),
        Some("compression algorithm"),
    );
    match params {
        Some((blocksize, bytepix)) => {
            header.set("ZNAME1", HeaderValue::String("BLOCKSIZE".to_owned()), None);
            header.set("ZVAL1", HeaderValue::Integer(blocksize as i64), None);
            header.set("ZNAME2", HeaderValue::String("BYTEPIX".to_owned()), None);
            header.set("ZVAL2", HeaderValue::Integer(bytepix as i64), None);
        },
        None => {},
    }
    header.set("EXTNAME", HeaderValue::String("COMPRESSED_IMAGE".to_owned()), None);
    // The compressed image always reconstructs as an IMAGE extension.
    header.set("ZTENSION", HeaderValue::String("IMAGE".to_owned()), Some("Image extension"));
    header.set(
        "ZBITPIX",
        HeaderValue::Integer(image.bitpix().to_i64()),
        Some("data type of original image"),
    );
    let n: usize = image.axes.len();
    header.set(
        "ZNAXIS",
        HeaderValue::Integer(n as i64),
        Some("dimension of original image"),
    );
    set_numbered(&mut header, "ZNAXIS", image.axes.as_slice(), None);
    header.set("ZPCOUNT", HeaderValue::Integer(0), Some("original PCOUNT"));
    header.set("ZGCOUNT", HeaderValue::Integer(1), Some("original GCOUNT"));
    header
}

/// The header of a compressed image: the keywords of its table, the column of the
/// tiles with the length of the longest, and the driver keywords.
pub open spec fn compressed_header(
    z: Seq<KeywordView>,
    table: BinTableView,
    longest: int,
) -> Seq<KeywordView> {
    header::with_set(
        bintable::with_table(Seq::empty(), table),
        "TFORM1"@,
        ValueView::Text("1PB("@ + text::decimal(longest) + ")"@),
        Some("variable length array"@),
    ) + z
}

/// Finalise a compressed-image HDU: fill the BINTABLE keywords, then fix up `TFORM1` to
/// the `1PB(maxlen)` form (so that readers know the max VLA element count), and append
/// the driver keywords.
fn finalize_compressed_hdu(z: &Header, table: &BinTable, longest: usize) -> (r: Header)
    ensures
        r@ == compressed_header(z@, table@, longest as int),
{
    let mut out = Header::new();
    table.fill_header(&mut out);
    let form: String = text::numbered("1PB(", longest).concat(")");
    out.set("TFORM1", HeaderValue::String(form), Some("variable length array"));
    let ghost front = out@;
    let mut i: usize = 0;
    let n: usize = z.keywords.len();
    assert(front + z@.take(0) =~= front);
    while i < n
        invariant
            i <= n,
            n == z.keywords@.len(),
            out@ == front + z@.take(i as int),
        decreases n - i,
    {
        out.push(z.keywords[i].clone());
        i += 1;
        assert(front + z@.take(i as int) =~= (front + z@.take(i - 1)).push(z@[i - 1]));
    }
    assert(z@.take(i as int) =~= z@);
    out
}

/// The length of the longest of some byte sequences.
pub open spec fn longest_of(encs: Seq<Seq<u8>>) -> int
    decreases encs.len(),
{
    if encs.len() == 0 {
        0
    } else {
        let front = longest_of(encs.drop_last());
        if encs.last().len() > front {
            encs.last().len() as int
        } else {
            front
        }
    }
}

/// The parameters that an algorithm is written with.
pub open spec fn written_params(
    algorithm: CompressionType,
    blocksize: usize,
    bytepix: usize,
) -> Option<(usize, usize)> {
    if algorithm == CompressionType::Rice1 {
        Some((block_size(blocksize), bytepix))
    } else {
        None
    }
}

/// The tile shape that options ask for.
pub open spec fn wanted_tile(opts: CompressOptions, axes: Seq<usize>) -> Seq<usize> {
    match opts.tile {
        Some(t) => t@,
        None => grid::row_tile(axes),
    }
}

/// The error with which an image cannot be compressed whatever its pixels are.
pub open spec fn shape_error(image: ImageView, opts: CompressOptions) -> Option<ErrorView> {
    if !encodable(opts.algorithm) {
        Some(unencodable(opts.algorithm))
    } else if image.axes.len() == 0 {
        Some(ErrorView::CompressionError("cannot compress an image with zero axes"@))
    } else if grid::volume(image.axes) > usize::MAX {
        Some(ErrorView::CompressionError("axis dimensions overflow"@))
    } else if image.pixels.values.len() != grid::volume(image.axes) {
        Some(
            ErrorView::CompressionError(
                "image has "@ + text::decimal(image.pixels.values.len() as int)
                    + " pixels but axes imply "@ + text::decimal(grid::volume(image.axes) as int),
            ),
        )
    } else if wanted_tile(opts, image.axes).len() != image.axes.len() {
        Some(
            ErrorView::CompressionError(
                "tile shape has "@ + text::decimal(wanted_tile(opts, image.axes).len() as int)
                    + " axes but image has "@ + text::decimal(image.axes.len() as int),
            ),
        )
    } else {
        None
    }
}

/// Pixel values as samples.
pub open spec fn samples_from(values: Seq<int>) -> Seq<i64> {
    Seq::new(values.len(), |i: int| values[i] as i64)
}

/// Whether byte sequences are the compressed tiles of samples.
pub open spec fn encodes_tiles(
    encs: Seq<Seq<u8>>,
    full: Seq<i64>,
    axes: Seq<usize>,
    ztile: Seq<usize>,
    opts: CompressOptions,
    bytepix: usize,
) -> bool {
    &&& encs.len() == grid::volume(grid::grid_of(axes, ztile))
    &&& forall|k: int|
        0 <= k < encs.len() ==> encodes(
            #[trigger] encs[k],
            grid::tile_of(full, axes, ztile, k),
            opts.algorithm,
            bytepix,
            block_size(opts.blocksize),
        )
}

/// The HDU of a compressed integer image.
pub open spec fn int_hdu(image: ImageView, opts: CompressOptions, encs: Seq<Seq<u8>>) -> HduView {
    let ztile = wanted_tile(opts, image.axes);
    let params = written_params(
        opts.algorithm,
        opts.blocksize,
        image.pixels.kind.width() as usize,
    );
    let z = z_header(image.pixels.kind, image.axes, ztile, opts.algorithm, params);
    let t = tile_table(encs);
    HduView {
        header: compressed_header(z, t, longest_of(encs)),
        data: hdu::DataView::BinTable(t),
    }
}

/// Contents of byte vectors.
pub open spec fn byte_views(v: Seq<Vec<u8>>) -> Seq<Seq<u8>> {
    Seq::new(v.len(), |i: int| v[i]@)
}

/// Build the table of compressed tiles, and find the length of the longest.
fn build_tile_table(encs: &[Vec<u8>]) -> (r: (BinTable, usize))
    ensures
        r.0@ == tile_table(byte_views(encs@)),
        r.1 == longest_of(byte_views(encs@)),
{
    let ghost all = byte_views(encs@);
    let mut builder = BinTableBuilder::new().add_column(
        "COMPRESSED_DATA",
        BinColumnType::VarP('B'),
    );
    let mut longest: usize = 0;
    let mut i: usize = 0;
    proof {
        assert(all.take(0) =~= Seq::empty());
        assert(builder@.columns =~= seq![
            tile_table_column("COMPRESSED_DATA"@, BinColumnType::VarP('B')),
        ]);
    }
    while i < encs.len()
        invariant
            i <= encs@.len(),
            all == byte_views(encs@),
            builder@ == tile_table(all.take(i as int)),
            builder@.nrows == i,
            longest == longest_of(all.take(i as int)),
        decreases encs@.len() - i,
    {
        let enc = encs[i].as_slice();
        if enc.len() > longest {
            longest = enc.len();
        }
        builder = push_tile(builder, enc);
        i += 1;
        assert(all.take(i as int).drop_last() =~= all.take(i - 1));
        assert(all.take(i as int).last() == encs@[i - 1]@);
    }
    assert(all.take(i as int) =~= all);
    (builder.build(), longest)
}

/// Encode the tiles of an integer image.
fn encode_int_tiles(
    full: &[i64],
    axes: &[usize],
    ztile: &[usize],
    opts: &CompressOptions,
    bytepix: usize,
) -> (r: Result<Vec<Vec<u8>>>)
    requires
        bytepix == 1 || bytepix == 2 || bytepix == 4,
        axes@.len() == ztile@.len(),
        full@.len() == grid::volume(axes@),
        encodable(opts.algorithm),
    ensures
        r is Ok,
        encodes_tiles(byte_views(r->Ok_0@), full@, axes@, ztile@, *opts, bytepix),
{
    let grid: Vec<usize> = grid::tiles_per_axis_of(axes, ztile);
    let len: usize = full.len();
    proof {
        grid::lemma_grid_volume(axes@, ztile@);
    }
    let n: usize = match grid::checked_volume(grid.as_slice()) {
        Some(n) => n,
        None => 0,
    };
    let blocksize: usize = if opts.blocksize == 0 {
        1
    } else {
        opts.blocksize
    };
    let mut encs: Vec<Vec<u8>> = Vec::new();
    let mut k: usize = 0;
    while k < n
        invariant
            k <= n,
            n == grid::volume(grid::grid_of(axes@, ztile@)),
            bytepix == 1 || bytepix == 2 || bytepix == 4,
            axes@.len() == ztile@.len(),
            full@.len() == grid::volume(axes@),
            encodable(opts.algorithm),
            blocksize == block_size(opts.blocksize),
            encs@.len() == k,
            forall|j: int|
                0 <= j < k ==> encodes(
                    (#[trigger] encs@[j])@,
                    grid::tile_of(full@, axes@, ztile@, j),
                    opts.algorithm,
                    bytepix,
                    blocksize,
                ),
        decreases n - k,
    {
        let samples: Vec<i64> = grid::cut_tile(full, axes, ztile, k);
        let enc: Vec<u8> = match encode_int_tile(
            samples.as_slice(),
            opts.algorithm,
            bytepix,
            blocksize,
        ) {
            Ok(e) => e,
            Err(e) => return Err(e),
        };
        encs.push(enc);
        k += 1;
    }
    Ok(encs)
}

/// The error for an image of 64-bit integers.
pub open spec fn wide_integers() -> ErrorView {
    ErrorView::CompressionError(
        "RICE_1/GZIP tile compression of 64-bit integer images is not supported"@,
    )
}

/// Extract the flat integer samples of an integer image as `i64` (axis-1 fastest, the
/// native FITS storage order), along with the `BYTEPIX` to feed RICE.
fn integer_samples(image: &ImageData) -> (r: Result<(Vec<i64>, usize)>)
    ensures
        match r {
            Ok((v, bytepix)) => v@ == samples_from(image@.pixels.values) && bytepix
                == image@.pixels.kind.width() && (bytepix == 1 || bytepix == 2 || bytepix == 4)
                && !(image@.pixels.kind is F32),
            Err(e) => if image@.pixels.kind is I64 {
                e@ == wide_integers()
            } else {
                image@.pixels.kind.number() < 0 && e@ == ErrorView::CompressionError(
                    "internal: float image routed to the integer encoder"@,
                )
            },
        },
{
    let ghost want = samples_from(image@.pixels.values);
    match &image.pixels {
        PixelData::U8(v) => {
            let s: Vec<i64> = rice::widen_u8(v.as_slice());
            assert(s@ =~= want);
            Ok((s, 1))
        },
        PixelData::I16(v) => {
            let s: Vec<i64> = rice::widen_i16(v.as_slice());
            assert(s@ =~= want);
            Ok((s, 2))
        },
        PixelData::I32(v) => {
            let s: Vec<i64> = rice::widen_i32(v.as_slice());
            assert(s@ =~= want);
            Ok((s, 4))
        },
        PixelData::I64(_) => Err(
            Error::CompressionError(
                "RICE_1/GZIP tile compression of 64-bit integer images is not supported".to_owned(),
            ),
        ),
        _ => Err(
            Error::CompressionError(
                "internal: float image routed to the integer encoder".to_owned(),
            ),
        ),
    }
}

/// The tile shape for an image, where it can be compressed with the options.
fn checked_tile(image: &ImageData, opts: &CompressOptions) -> (r: Result<Vec<usize>>)
    ensures
        match r {
            Ok(t) => shape_error(image@, *opts) is None && t@ == wanted_tile(*opts, image@.axes),
            Err(e) => shape_error(image@, *opts) == Some(e@),
        },
{
    match opts.algorithm {
        CompressionType::Rice1 | CompressionType::Gzip1 | CompressionType::Gzip2 => {},
        _ => return Err(unsupported_encoding(opts.algorithm)),
    }
    if image.axes.len() == 0 {
        return Err(
            Error::CompressionError("cannot compress an image with zero axes".to_owned()),
        );
    }
    let len: usize = image.pixels.len();
    let expected: usize = match grid::checked_volume(image.axes.as_slice()) {
        Some(n) => n,
        None => return Err(Error::CompressionError("axis dimensions overflow".to_owned())),
    };
    if len != expected {
        let found: String = error::with_number("image has ", len as u64);
        return Err(
            Error::CompressionError(
                error::with_number(
                    found.concat(" pixels but axes imply ").as_str(),
                    expected as u64,
                ),
            ),
        );
    }
    let ztile: Vec<usize> = match &opts.tile {
        Some(t) => clone_dims(t.as_slice()),
        None => grid::default_tile(image.axes.as_slice()),
    };
    if ztile.len() != image.axes.len() {
        let found: String = error::with_number("tile shape has ", ztile.len() as u64);
        return Err(
            Error::CompressionError(
                error::with_number(
                    found.concat(" axes but image has ").as_str(),
                    image.axes.len() as u64,
                ),
            ),
        );
    }
    Ok(ztile)
}

/// Compress an integer image.
fn compress_int_image(image: &ImageData, opts: &CompressOptions, ztile: &[usize]) -> (r: Result<
    Hdu,
>)
    requires
        shape_error(image@, *opts) is None,
        ztile@ == wanted_tile(*opts, image@.axes),
        image@.pixels.kind.number() > 0,
    ensures
        match r {
            Ok(u) => image@.pixels.kind != Bitpix::I64 && exists|encs: Seq<Seq<u8>>|
                #[trigger] encodes_tiles(
                    encs,
                    samples_from(image@.pixels.values),
                    image@.axes,
                    ztile@,
                    *opts,
                    image@.pixels.kind.width() as usize,
                ) && u@ == int_hdu(image@, *opts, encs),
            Err(e) => e@ == wide_integers() && image@.pixels.kind == Bitpix::I64,
        },
{
    let (full, bytepix) = match integer_samples(image) {
        Ok(s) => s,
        Err(e) => return Err(e),
    };
    let encs: Vec<Vec<u8>> = match encode_int_tiles(
        full.as_slice(),
        image.axes.as_slice(),
        ztile,
        opts,
        bytepix,
    ) {
        Ok(e) => e,
        Err(e) => return Err(e),
    };
    let (table, longest) = build_tile_table(encs.as_slice());
    let params: Option<(usize, usize)> = match opts.algorithm {
        CompressionType::Rice1 => Some(
            (
                if opts.blocksize == 0 {
                    1
                } else {
                    opts.blocksize
                },
                bytepix,
            ),
        ),
        _ => None,
    };
    let z: Header = build_z_header(image, ztile, opts.algorithm, params);
    let header: Header = finalize_compressed_hdu(&z, &table, longest);
    let u = Hdu::new(header, HduData::BinTable(table));
    proof {
        let e = byte_views(encs@);
        assert(encodes_tiles(
            e,
            samples_from(image@.pixels.values),
            image@.axes,
            ztile@,
            *opts,
            image@.pixels.kind.width() as usize,
        ));
        assert(params == written_params(opts.algorithm, opts.blocksize, bytepix));
        assert(u@ == int_hdu(image@, *opts, e));
    }
    Ok(u)
}

/// Whether bytes are a gzip member of the big-endian bit patterns of a tile.
pub open spec fn encodes_raw(enc: Seq<u8>, values: Seq<int>, w: nat) -> bool {
    let raw = words::words_encoded(false, w, values);
    enc == gzip::gzip_member(raw, gzip::deflated(raw, 6)) && gzip::gzip_decoded(enc) == Some(raw)
}

/// Whether byte sequences are the compressed tiles of bit patterns.
pub open spec fn encodes_raw_tiles(
    encs: Seq<Seq<u8>>,
    values: Seq<int>,
    axes: Seq<usize>,
    ztile: Seq<usize>,
    w: nat,
) -> bool {
    &&& encs.len() == grid::volume(grid::grid_of(axes, ztile))
    &&& forall|k: int|
        0 <= k < encs.len() ==> encodes_raw(
            #[trigger] encs[k],
            grid::tile_of(values, axes, ztile, k),
            w,
        )
}

/// Encode the tiles of a floating-point image without loss.
fn encode_raw_tiles<T: words::BigEndian>(full: &[T], axes: &[usize], ztile: &[usize]) -> (r: Vec<
    Vec<u8>,
>)
    requires
        !T::signed(),
        axes@.len() == ztile@.len(),
        full@.len() == grid::volume(axes@),
    ensures
        encodes_raw_tiles(byte_views(r@), words::numbers(full@), axes@, ztile@, T::width()),
{
    let grid: Vec<usize> = grid::tiles_per_axis_of(axes, ztile);
    let len: usize = full.len();
    let ghost values = words::numbers(full@);
    proof {
        grid::lemma_grid_volume(axes@, ztile@);
    }
    let n: usize = match grid::checked_volume(grid.as_slice()) {
        Some(n) => n,
        None => 0,
    };
    let mut encs: Vec<Vec<u8>> = Vec::new();
    let mut k: usize = 0;
    while k < n
        invariant
            k <= n,
            n == grid::volume(grid::grid_of(axes@, ztile@)),
            !T::signed(),
            axes@.len() == ztile@.len(),
            full@.len() == grid::volume(axes@),
            values == words::numbers(full@),
            encs@.len() == k,
            forall|j: int|
                0 <= j < k ==> encodes_raw(
                    (#[trigger] encs@[j])@,
                    grid::tile_of(values, axes@, ztile@, j),
                    T::width(),
                ),
        decreases n - k,
    {
        let tile: Vec<T> = grid::cut_tile(full, axes, ztile, k);
        let mut raw: Vec<u8> = Vec::new();
        words::encode_into(tile.as_slice(), &mut raw);
        proof {
            grid::lemma_tile_map(full@, values, axes@, ztile@, k as int, |v: T| v.number());
            assert(words::numbers(tile@) =~= grid::tile_of(values, axes@, ztile@, k as int));
            assert(raw@ =~= words::words_encoded(false, T::width(), words::numbers(tile@)));
        }
        encs.push(gzip::gzip_deflate(raw.as_slice()));
        k += 1;
    }
    encs
}

/// The HDU of a floating-point image that is compressed without loss.
pub open spec fn raw_hdu(image: ImageView, opts: CompressOptions, encs: Seq<Seq<u8>>) -> HduView {
    let ztile = wanted_tile(opts, image.axes);
    let z = header::with_set(
        z_header(image.pixels.kind, image.axes, ztile, opts.algorithm, None),
        "ZQUANTIZ"@,
        ValueView::Text("NONE"@),
        Some("no dithering"@),
    );
    let t = tile_table(encs);
    HduView {
        header: compressed_header(z, t, longest_of(encs)),
        data: hdu::DataView::BinTable(t),
    }
}

/// Compress a floating-point image without loss: GZIP over the raw big-endian floats.
/// Only GZIP_1 is supported: the byte-shuffle of GZIP_2 is not undone on the raw-float
/// path that the decoder reads.
fn compress_raw_image(image: &ImageData, opts: &CompressOptions, ztile: &[usize]) -> (r: Result<
    Hdu,
>)
    requires
        shape_error(image@, *opts) is None,
        ztile@ == wanted_tile(*opts, image@.axes),
        image@.pixels.kind.number() < 0,
    ensures
        match r {
            Ok(u) => opts.algorithm == CompressionType::Gzip1 && exists|encs: Seq<Seq<u8>>|
                #[trigger] encodes_raw_tiles(
                    encs,
                    image@.pixels.values,
                    image@.axes,
                    ztile@,
                    image@.pixels.kind.width(),
                ) && u@ == raw_hdu(image@, *opts, encs),
            Err(e) => e@ == lossy_only(opts.algorithm) && opts.algorithm
                != CompressionType::Gzip1,
        },
{
    match opts.algorithm {
        CompressionType::Gzip1 => {},
        _ => {
            return Err(
                Error::UnsupportedCompression(
                    "lossless float compression (quantize=None) needs GZIP_1, not ".to_owned().concat(
                        opts.algorithm.to_variant(),
                    ),
                ),
            );
        },
    }
    let encs: Vec<Vec<u8>> = match &image.pixels {
        PixelData::F32(v) => encode_raw_tiles(v.as_slice(), image.axes.as_slice(), ztile),
        PixelData::F64(v) => encode_raw_tiles(v.as_slice(), image.axes.as_slice(), ztile),
        _ => Vec::new(),
    };
    let (table, longest) = build_tile_table(encs.as_slice());
    let mut z: Header = build_z_header(image, ztile, opts.algorithm, None);
    z.set("ZQUANTIZ", HeaderValue::String("NONE".to_owned()), Some("no dithering"));
    let header: Header = finalize_compressed_hdu(&z, &table, longest);
    let u = Hdu::new(header, HduData::BinTable(table));
    proof {
        let e = byte_views(encs@);
        assert(encodes_raw_tiles(
            e,
            image@.pixels.values,
            image@.axes,
            ztile@,
            image@.pixels.kind.width(),
        ));
        assert(u@ == raw_hdu(image@, *opts, e));
    }
    Ok(u)
}

/// The error for an algorithm that does not compress floating-point pixels as they are.
pub open spec fn lossy_only(algorithm: CompressionType) -> ErrorView {
    ErrorView::UnsupportedCompression(
        "lossless float compression (quantize=None) needs GZIP_1, not "@ + algorithm.variant(),
    )
}

/// The error with which an image cannot be compressed.
pub open spec fn compress_error(image: ImageView, opts: CompressOptions) -> Option<ErrorView> {
    match shape_error(image, opts) {
        Some(f) => Some(f),
        None => if image.pixels.kind.number() > 0 {
            if image.pixels.kind == Bitpix::I64 {
                Some(wide_integers())
            } else {
                None
            }
        } else if opts.quantize is Some {
            Some(
                ErrorView::UnsupportedCompression(
                    "a quantized float image is compressed from its quantized tiles"@,
                ),
            )
        } else if opts.algorithm != CompressionType::Gzip1 {
            Some(lossy_only(opts.algorithm))
        } else {
            None
        },
    }
}

/// Whether an HDU is a compressed form of an image.
pub open spec fn compresses(image: ImageView, opts: CompressOptions, u: HduView) -> bool {
    let ztile = wanted_tile(opts, image.axes);
    if image.pixels.kind.number() > 0 {
        exists|encs: Seq<Seq<u8>>| #[trigger]
            encodes_tiles(
                encs,
                samples_from(image.pixels.values),
                image.axes,
                ztile,
                opts,
                image.pixels.kind.width() as usize,
            ) && u == int_hdu(image, opts, encs)
    } else {
        exists|encs: Seq<Seq<u8>>| #[trigger]
            encodes_raw_tiles(
                encs,
                image.pixels.values,
                image.axes,
                ztile,
                image.pixels.kind.width(),
            ) && u == raw_hdu(image, opts, encs)
    }
}

/// Compress an image without arithmetic on floating-point numbers: an integer image, or a
/// float image that is not quantized. Any image is compressed by
/// [`compress_image`](crate::float_images::compress_image).
pub fn compress_exact(image: &ImageData, opts: &CompressOptions) -> (r: Result<Hdu>)
    ensures
        match (r, compress_error(image@, *opts)) {
            (Ok(u), None) => compresses(image@, *opts, u@),
            (Err(e), Some(f)) => e@ == f,
            _ => false,
        },
{
    let ztile: Vec<usize> = match checked_tile(image, opts) {
        Ok(t) => t,
        Err(e) => return Err(e),
    };
    if image.bitpix().to_i64() > 0 {
        return compress_int_image(image, opts, ztile.as_slice());
    }
    match &opts.quantize {
        Some(_) => Err(
            Error::UnsupportedCompression(
                "a quantized float image is compressed from its quantized tiles".to_owned(),
            ),
        ),
        None => compress_raw_image(image, opts, ztile.as_slice()),
    }
}

/// One quantized tile of a floating-point image: its pixels stand for
/// `sample * scale + zero`, where scale and zero point are given as bit patterns.
#[derive(Debug)]
pub struct QuantizedTile {
    pub samples: Vec<i64>,
    pub scale: u64,
    pub zero: u64,
}

/// The table of compressed quantized tiles.
pub open spec fn quantized_table(encs: Seq<Seq<u8>>, tiles: Seq<QuantizedTile>) -> BinTableView
    decreases encs.len(),
{
    if encs.len() == 0 {
        BinTableView {
            columns: seq![
                tile_table_column("COMPRESSED_DATA"@, BinColumnType::VarP('B')),
                tile_table_column("ZSCALE"@, BinColumnType::D64(1)),
                tile_table_column("ZZERO"@, BinColumnType::D64(1)),
            ],
            nrows: 0,
            row_len: 24,
            main_data: Seq::empty(),
            heap: Seq::empty(),
        }
    } else {
        let t = quantized_table(encs.drop_last(), tiles);
        let q = tiles[encs.len() - 1];
        bintable::with_row(
            t,
            tile_descriptor(encs.last().len(), t.heap.len()) + bigendian::be_digits(
                q.scale as nat,
                8,
            ) + bigendian::be_digits(q.zero as nat, 8),
            t.heap + encs.last(),
        )
    }
}

/// Append the row of a compressed quantized tile.
fn push_quantized_tile(builder: BinTableBuilder, enc: &[u8], scale: u64, zero: u64) -> (r:
    BinTableBuilder)
    requires
        builder@.nrows < usize::MAX,
    ensures
        r@ == bintable::with_row(
            builder@,
            tile_descriptor(enc@.len(), builder@.heap.len()) + bigendian::be_digits(
                scale as nat,
                8,
            ) + bigendian::be_digits(zero as nat, 8),
            builder@.heap + enc@,
        ),
{
    let len: usize = enc.len();
    let count: i32 = len as i32;
    let ghost start = builder@.heap;
    let r = builder.push_row(
        |row: &mut RowWriter| -> (done: ())
            ensures
                final(row).row() == old(row).row() + bigendian::be_signed_digits(count as int, 4)
                    + bigendian::be_digits(old(row).heap().len(), 4) + bigendian::be_digits(
                    scale as nat,
                    8,
                ) + bigendian::be_digits(zero as nat, 8),
                final(row).heap() == old(row).heap() + enc@
            {
                row.write_var_p(
                    count,
                    |heap: &mut Vec<u8>| -> (done: ())
                        ensures
                            final(heap)@ == old(heap)@ + enc@
                        {
                            heap.extend_from_slice(enc);
                            assert(heap@ =~= old(heap)@ + enc@);
                        },
                );
                row.write_f64(scale);
                row.write_f64(zero);
            },
    );
    proof {
        let d = tile_descriptor(enc@.len(), start.len()) + bigendian::be_digits(scale as nat, 8)
            + bigendian::be_digits(zero as nat, 8);
        assert(Seq::<u8>::empty() + bigendian::be_signed_digits(count as int, 4)
            + bigendian::be_digits(start.len(), 4) + bigendian::be_digits(scale as nat, 8)
            + bigendian::be_digits(zero as nat, 8) =~= d);
    }
    r
}

/// Build the table of compressed quantized tiles, and find the length of the longest.
fn build_quantized_table(encs: &[Vec<u8>], tiles: &[QuantizedTile]) -> (r: (BinTable, usize))
    requires
        encs@.len() == tiles@.len(),
    ensures
        r.0@ == quantized_table(byte_views(encs@), tiles@),
        r.1 == longest_of(byte_views(encs@)),
{
    let ghost all = byte_views(encs@);
    let mut builder = BinTableBuilder::new().add_column(
        "COMPRESSED_DATA",
        BinColumnType::VarP('B'),
    ).add_column("ZSCALE", BinColumnType::D64(1)).add_column("ZZERO", BinColumnType::D64(1));
    let mut longest: usize = 0;
    let mut i: usize = 0;
    proof {
        assert(all.take(0) =~= Seq::empty());
        assert(builder@.columns =~= quantized_table(Seq::empty(), tiles@).columns);
    }
    while i < encs.len()
        invariant
            i <= encs@.len(),
            encs@.len() == tiles@.len(),
            all == byte_views(encs@),
            builder@ == quantized_table(all.take(i as int), tiles@),
            builder@.nrows == i,
            longest == longest_of(all.take(i as int)),
        decreases encs@.len() - i,
    {
        let enc = encs[i].as_slice();
        if enc.len() > longest {
            longest = enc.len();
        }
        builder = push_quantized_tile(builder, enc, tiles[i].scale, tiles[i].zero);
        i += 1;
        assert(all.take(i as int).drop_last() =~= all.take(i - 1));
        assert(all.take(i as int).last() == encs@[i - 1]@);
    }
    assert(all.take(i as int) =~= all);
    (builder.build(), longest)
}

/// The driver keywords of a quantized image.
pub open spec fn quantized_header(image: ImageView, opts: CompressOptions) -> Seq<KeywordView> {
    let ztile = wanted_tile(opts, image.axes);
    let params = written_params(opts.algorithm, opts.blocksize, 4);
    let z = header::with_set(
        z_header(image.pixels.kind, image.axes, ztile, opts.algorithm, params),
        "ZQUANTIZ"@,
        ValueView::Text(opts.dither.name()),
        Some("quantization method"@),
    );
    let seeded = if opts.dither.dithers() {
        header::with_set(
            z,
            "ZDITHER0"@,
            ValueView::Integer(
                match opts.dither_seed {
                    Some(s) => s as int,
                    None => 1,
                },
            ),
            Some("dithering offset seed"@),
        )
    } else {
        z
    };
    header::with_set(
        seeded,
        "ZBLANK"@,
        ValueView::Integer(dither::NULL_VALUE as int),
        Some("null value"@),
    )
}

/// The HDU of a quantized image.
pub open spec fn quantized_hdu(
    image: ImageView,
    opts: CompressOptions,
    encs: Seq<Seq<u8>>,
    tiles: Seq<QuantizedTile>,
) -> HduView {
    let t = quantized_table(encs, tiles);
    HduView {
        header: compressed_header(quantized_header(image, opts), t, longest_of(encs)),
        data: hdu::DataView::BinTable(t),
    }
}

/// Whether there is a quantized tile with all its pixels for each tile of an image.
pub open spec fn quantized_complete(
    tiles: Seq<QuantizedTile>,
    axes: Seq<usize>,
    ztile: Seq<usize>,
) -> bool {
    &&& tiles.len() == grid::volume(grid::grid_of(axes, ztile))
    &&& forall|k: int|
        0 <= k < tiles.len() ==> (#[trigger] tiles[k]).samples@.len() == grid::tile_volume(
            axes,
            ztile,
            k,
        )
}

/// Whether byte sequences are what an algorithm makes of quantized tiles.
pub open spec fn encodes_quantized(
    encs: Seq<Seq<u8>>,
    tiles: Seq<QuantizedTile>,
    opts: CompressOptions,
) -> bool {
    &&& encs.len() == tiles.len()
    &&& forall|k: int|
        0 <= k < encs.len() ==> encodes(
            #[trigger] encs[k],
            tiles[k].samples@,
            opts.algorithm,
            4,
            block_size(opts.blocksize),
        )
}

/// The bit patterns of the tiles into which an image is cut for compression.
pub fn cut_float_tiles(image: &ImageData, opts: &CompressOptions) -> (r: Result<Vec<Vec<u64>>>)
    ensures
        match r {
            Ok(v) => {
                let ztile = wanted_tile(*opts, image@.axes);
                &&& shape_error(image@, *opts) is None
                &&& image@.pixels.kind.number() < 0
                &&& v@.len() == grid::volume(grid::grid_of(image@.axes, ztile))
                &&& forall|k: int|
                    0 <= k < v@.len() ==> words::numbers((#[trigger] v@[k])@) == grid::tile_of(
                        image@.pixels.values,
                        image@.axes,
                        ztile,
                        k,
                    )
            },
            Err(e) => match shape_error(image@, *opts) {
                Some(f) => e@ == f,
                None => image@.pixels.kind.number() > 0 && e@ == ErrorView::CompressionError(
                    "not a float image"@,
                ),
            },
        },
{
    let ztile: Vec<usize> = match checked_tile(image, opts) {
        Ok(t) => t,
        Err(e) => return Err(e),
    };
    match &image.pixels {
        PixelData::F32(v) => {
            let full: Vec<u64> = widen(v.as_slice());
            assert(words::numbers(full@) =~= image@.pixels.values);
            Ok(cut_all(full.as_slice(), image.axes.as_slice(), ztile.as_slice()))
        },
        PixelData::F64(v) => Ok(
            cut_all(v.as_slice(), image.axes.as_slice(), ztile.as_slice()),
        ),
        _ => Err(Error::CompressionError("not a float image".to_owned())),
    }
}

fn widen(v: &[u32]) -> (r: Vec<u64>)
    ensures
        r@.len() == v@.len(),
        forall|i: int| 0 <= i < r@.len() ==> #[trigger] r@[i] == v@[i],
{
    let mut out: Vec<u64> = Vec::new();
    let mut i: usize = 0;
    while i < v.len()
        invariant
            i <= v@.len(),
            out@.len() == i,
            forall|k: int| 0 <= k < i ==> #[trigger] out@[k] == v@[k],
        decreases v@.len() - i,
    {
        out.push(v[i] as u64);
        i += 1;
    }
    out
}

fn cut_all(full: &[u64], axes: &[usize], ztile: &[usize]) -> (r: Vec<Vec<u64>>)
    requires
        axes@.len() == ztile@.len(),
        full@.len() == grid::volume(axes@),
    ensures
        r@.len() == grid::volume(grid::grid_of(axes@, ztile@)),
        forall|k: int|
            0 <= k < r@.len() ==> words::numbers((#[trigger] r@[k])@) == grid::tile_of(
                words::numbers(full@),
                axes@,
                ztile@,
                k,
            ),
{
    let grid: Vec<usize> = grid::tiles_per_axis_of(axes, ztile);
    let len: usize = full.len();
    let ghost values = words::numbers(full@);
    proof {
        grid::lemma_grid_volume(axes@, ztile@);
    }
    let n: usize = match grid::checked_volume(grid.as_slice()) {
        Some(n) => n,
        None => 0,
    };
    let mut tiles: Vec<Vec<u64>> = Vec::new();
    let mut k: usize = 0;
    while k < n
        invariant
            k <= n,
            n == grid::volume(grid::grid_of(axes@, ztile@)),
            axes@.len() == ztile@.len(),
            full@.len() == grid::volume(axes@),
            values == words::numbers(full@),
            tiles@.len() == k,
            forall|j: int|
                0 <= j < k ==> words::numbers((#[trigger] tiles@[j])@) == grid::tile_of(
                    values,
                    axes@,
                    ztile@,
                    j,
                ),
        decreases n - k,
    {
        let tile: Vec<u64> = grid::cut_tile(full, axes, ztile, k);
        proof {
            grid::lemma_tile_map(full@, values, axes@, ztile@, k as int, |v: u64| v as int);
            assert(words::numbers(tile@) =~= grid::tile_of(values, axes@, ztile@, k as int));
        }
        tiles.push(tile);
        k += 1;
    }
    tiles
}

/// Whether the quantized tiles are those of an image.
fn check_quantized(tiles: &[QuantizedTile], axes: &[usize], ztile: &[usize], npix: usize) -> (r: bool)
    requires
        axes@.len() == ztile@.len(),
        npix == grid::volume(axes@),
    ensures
        r == quantized_complete(tiles@, axes@, ztile@),
{
    let grid: Vec<usize> = grid::tiles_per_axis_of(axes, ztile);
    proof {
        grid::lemma_grid_volume(axes@, ztile@);
    }
    let n: usize = match grid::checked_volume(grid.as_slice()) {
        Some(n) => n,
        None => 0,
    };
    if tiles.len() != n {
        return false;
    }
    let mut k: usize = 0;
    while k < n
        invariant
            k <= n,
            n == grid::volume(grid::grid_of(axes@, ztile@)),
            n == tiles@.len(),
            axes@.len() == ztile@.len(),
            npix == grid::volume(axes@),
            forall|j: int|
                0 <= j < k ==> (#[trigger] tiles@[j]).samples@.len() == grid::tile_volume(
                    axes@,
                    ztile@,
                    j,
                ),
        decreases n - k,
    {
        let size: usize = grid::tile_size(axes, ztile, k);
        if tiles[k].samples.len() != size {
            assert(tiles@[k as int].samples@.len() != grid::tile_volume(axes@, ztile@, k as int));
            return false;
        }
        k += 1;
    }
    true
}

fn encode_quantized(tiles: &[QuantizedTile], opts: &CompressOptions) -> (r: Result<Vec<Vec<u8>>>)
    requires
        encodable(opts.algorithm),
    ensures
        r is Ok,
        encodes_quantized(byte_views(r->Ok_0@), tiles@, *opts),
{
    let blocksize: usize = if opts.blocksize == 0 {
        1
    } else {
        opts.blocksize
    };
    let mut encs: Vec<Vec<u8>> = Vec::new();
    let mut k: usize = 0;
    while k < tiles.len()
        invariant
            k <= tiles@.len(),
            encodable(opts.algorithm),
            blocksize == block_size(opts.blocksize),
            encs@.len() == k,
            forall|j: int|
                0 <= j < k ==> encodes(
                    (#[trigger] encs@[j])@,
                    tiles@[j].samples@,
                    opts.algorithm,
                    4,
                    blocksize,
                ),
        decreases tiles@.len() - k,
    {
        let enc: Vec<u8> = match encode_int_tile(
            tiles[k].samples.as_slice(),
            opts.algorithm,
            4,
            blocksize,
        ) {
            Ok(e) => e,
            Err(e) => return Err(e),
        };
        encs.push(enc);
        k += 1;
    }
    Ok(encs)
}

/// Compress a floating-point image (`ZBITPIX` -32/-64) from its quantized tiles: the
/// quantized 32-bit integers are encoded with `RICE_1` or GZIP, and per-tile
/// `ZSCALE`/`ZZERO` columns hold their scales.
pub fn compress_quantized(
    image: &ImageData,
    opts: &CompressOptions,
    tiles: &[QuantizedTile],
) -> (r: Result<Hdu>)
    ensures
        ({
            let ztile = wanted_tile(*opts, image@.axes);
            let complete = image@.pixels.kind.number() < 0 && quantized_complete(
                tiles@,
                image@.axes,
                ztile,
            );
            match (r, shape_error(image@, *opts)) {
                (Ok(u), None) => complete && exists|encs: Seq<Seq<u8>>|
                    #[trigger] encodes_quantized(encs, tiles@, *opts) && u@ == quantized_hdu(
                        image@,
                        *opts,
                        encs,
                        tiles@,
                    ),
                (Err(e), Some(f)) => e@ == f,
                (Err(e), None) => e@ == ErrorView::CompressionError(
                    "the quantized tiles are not those of the image"@,
                ) && !complete,
                _ => false,
            }
        }),
{
    let ztile: Vec<usize> = match checked_tile(image, opts) {
        Ok(t) => t,
        Err(e) => return Err(e),
    };
    let npix: usize = image.pixels.len();
    if image.bitpix().to_i64() > 0 || !check_quantized(
        tiles,
        image.axes.as_slice(),
        ztile.as_slice(),
        npix,
    ) {
        return Err(
            Error::CompressionError("the quantized tiles are not those of the image".to_owned()),
        );
    }
    let encs: Vec<Vec<u8>> = match encode_quantized(tiles, opts) {
        Ok(e) => e,
        Err(e) => return Err(e),
    };
    let (table, longest) = build_quantized_table(encs.as_slice(), tiles);
    let params: Option<(usize, usize)> = match opts.algorithm {
        CompressionType::Rice1 => Some(
            (
                if opts.blocksize == 0 {
                    1
                } else {
                    opts.blocksize
                },
                4,
            ),
        ),
        _ => None,
    };
    let mut z: Header = build_z_header(image, ztile.as_slice(), opts.algorithm, params);
    z.set(
        "ZQUANTIZ",
        HeaderValue::String(opts.dither.to_name().to_owned()),
        Some("quantization method"),
    );
    match opts.dither {
        Quantize::NoDither => {},
        _ => {
            let seed: i64 = match opts.dither_seed {
                Some(s) => s,
                None => 1,
            };
            z.set("ZDITHER0", HeaderValue::Integer(seed), Some("dithering offset seed"));
        },
    }
    z.set("ZBLANK", HeaderValue::Integer(dither::NULL_VALUE), Some("null value"));
    let header: Header = finalize_compressed_hdu(&z, &table, longest);
    let u = Hdu::new(header, HduData::BinTable(table));
    proof {
        let e = byte_views(encs@);
        assert(encodes_quantized(e, tiles@, *opts));
        assert(u@ == quantized_hdu(image@, *opts, e, tiles@));
    }
    Ok(u)
}

/// An image is compressed where the algorithm is RICE_1, GZIP_1 or GZIP_2, the pixels fill its
/// axes, of which there is at least one and as many as the tile has, and they are integers of
/// up to 32 bits, or floating-point numbers that GZIP_1 keeps as they are. All else is refused.
pub proof fn images_that_compress(image: ImageView, opts: CompressOptions)
    ensures
        compress_error(image, opts) is None <==> {
            &&& opts.algorithm == CompressionType::Rice1 || opts.algorithm == CompressionType::Gzip1
                || opts.algorithm == CompressionType::Gzip2
            &&& image.axes.len() > 0
            &&& image.pixels.values.len() == grid::volume(image.axes)
            &&& grid::volume(image.axes) <= usize::MAX
            &&& opts.tile matches Some(t) ==> t@.len() == image.axes.len()
            &&& match image.pixels.kind {
                Bitpix::U8 => true,
                Bitpix::I16 => true,
                Bitpix::I32 => true,
                Bitpix::I64 => false,
                _ => opts.quantize is None && opts.algorithm == CompressionType::Gzip1,
            }
        },
{
}

} // verus!
