//! What reading gives back of images that were quantized and compressed.
use crate::bigendian;
use crate::bintable;
use crate::bintable::{BinColumnType, BinColumnView, BinTableView, CellView};
use crate::brief_headers;
use crate::dither;
use crate::error::ErrorView;
use crate::file_reading;
use crate::grid;
use crate::hdu::HduView;
use crate::header;
use crate::image_data::ImageView;
use crate::keyword::{KeywordView, ValueView};
use crate::keyword_names;
use crate::rice;
use crate::text;
use crate::tile_compress;
use crate::tile_compress::{CompressedView, CompressionType, FloatBits, FloatTileView};
use crate::tile_encode;
use crate::tile_encode::{CompressOptions, QuantizedTile};
use crate::tile_reading;
use crate::types::Bitpix;
use crate::words;
use vstd::prelude::*;

verus! {

/// The columns of a table of quantized tiles.
pub open spec fn quantized_columns() -> Seq<BinColumnView> {
    seq![
        tile_encode::tile_table_column("COMPRESSED_DATA"@, BinColumnType::VarP('B')),
        tile_encode::tile_table_column("ZSCALE"@, BinColumnType::D64(1)),
        tile_encode::tile_table_column("ZZERO"@, BinColumnType::D64(1)),
    ]
}

/// The three cells of a row.
proof fn lemma_row(n: nat, o: nat, scale: u64, zero: u64)
    ensures
        ({
            let d = tile_encode::tile_descriptor(n, o);
            let s = bigendian::be_digits(scale as nat, 8);
            let z = bigendian::be_digits(zero as nat, 8);
            let row = bintable::row_bytes(d + s + z, 24);
            &&& row.subrange(0, 8) == d
            &&& row.subrange(8, 16) == s
            &&& row.subrange(16, 24) == z
        }),
{
    let d = tile_encode::tile_descriptor(n, o);
    let s = bigendian::be_digits(scale as nat, 8);
    let z = bigendian::be_digits(zero as nat, 8);
    bigendian::lemma_be_digits_len(
        (((n as usize) as i32) as int % bigendian::byte_power(4) as int) as nat,
        4,
    );
    bigendian::lemma_be_digits_len(o, 4);
    bigendian::lemma_be_digits_len(scale as nat, 8);
    bigendian::lemma_be_digits_len(zero as nat, 8);
    let row = bintable::row_bytes(d + s + z, 24);
    assert(row.subrange(0, 8) =~= d);
    assert(row.subrange(8, 16) =~= s);
    assert(row.subrange(16, 24) =~= z);
}

proof fn lemma_offsets()
    ensures
        bintable::column_offset(quantized_columns(), 0) == 0,
        bintable::column_offset(quantized_columns(), 1) == 8,
        bintable::column_offset(quantized_columns(), 2) == 16,
{
    reveal_with_fuel(bintable::column_offset, 3);
}

/// What a row of a table of quantized tiles holds.
pub open spec fn row_holds(
    t: BinTableView,
    encs: Seq<Seq<u8>>,
    tiles: Seq<QuantizedTile>,
    k: int,
) -> bool {
    let o = tile_reading::tile_offset(encs, k);
    &&& bintable::cell_data(t, k as usize, 0) == Ok::<Seq<u8>, ErrorView>(
        tile_encode::tile_descriptor(encs[k].len(), o),
    )
    &&& bintable::cell_data(t, k as usize, 1) == Ok::<Seq<u8>, ErrorView>(
        bigendian::be_digits(tiles[k].scale as nat, 8),
    )
    &&& bintable::cell_data(t, k as usize, 2) == Ok::<Seq<u8>, ErrorView>(
        bigendian::be_digits(tiles[k].zero as nat, 8),
    )
    &&& o + encs[k].len() <= t.heap.len()
    &&& t.heap.subrange(o as int, (o + encs[k].len()) as int) == encs[k]
}

/// The rows of a table of quantized tiles.
proof fn lemma_quantized_table(encs: Seq<Seq<u8>>, tiles: Seq<QuantizedTile>)
    requires
        encs.len() <= usize::MAX,
    ensures
        ({
            let t = tile_encode::quantized_table(encs, tiles);
            &&& t.nrows == encs.len()
            &&& t.row_len == 24
            &&& t.columns == quantized_columns()
            &&& t.main_data.len() == 24 * encs.len()
            &&& t.heap.len() == tile_reading::tile_offset(encs, encs.len() as int)
            &&& forall|k: int| 0 <= k < encs.len() ==> #[trigger] row_holds(t, encs, tiles, k)
        }),
    decreases encs.len(),
{
    let t = tile_encode::quantized_table(encs, tiles);
    if encs.len() > 0 {
        let front = encs.drop_last();
        let enc = encs.last();
        let n = front.len() as int;
        let before = tile_encode::quantized_table(front, tiles);
        let q = tiles[n];
        let d = tile_encode::tile_descriptor(enc.len(), before.heap.len()) + bigendian::be_digits(
            q.scale as nat,
            8,
        ) + bigendian::be_digits(q.zero as nat, 8);
        let heap = before.heap + enc;
        lemma_quantized_table(front, tiles);
        tile_reading::lemma_offset_same(front, encs, n);
        assert(t == bintable::with_row(before, d, heap));
        lemma_offsets();
        bintable::pushed_row_cells(before, d, heap, 0);
        bintable::pushed_row_cells(before, d, heap, 1);
        bintable::pushed_row_cells(before, d, heap, 2);
        lemma_row(enc.len(), before.heap.len(), q.scale, q.zero);
        assert forall|k: int| 0 <= k < encs.len() implies #[trigger] row_holds(
            t,
            encs,
            tiles,
            k,
        ) by {
            let o = tile_reading::tile_offset(encs, k) as int;
            if k < n {
                assert(front[k] == encs[k]);
                tile_reading::lemma_offset_same(front, encs, k);
                assert(row_holds(before, front, tiles, k));
                assert(t.heap.subrange(o, o + encs[k].len()) =~= before.heap.subrange(
                    o,
                    o + encs[k].len(),
                ));
            } else {
                assert(t.heap.subrange(before.heap.len() as int, t.heap.len() as int) =~= enc);
            }
        }
    }
}

/// A number of a scale or of a zero point in its cell.
proof fn lemma_number_cell(heap: Seq<u8>, v: u64)
    ensures
        bintable::cell_value(heap, BinColumnType::D64(1), bigendian::be_digits(v as nat, 8))
            == Ok::<CellView, ErrorView>(CellView::F64(seq![v as int])),
{
    let values = seq![v as int];
    bigendian::lemma_byte_powers();
    assert(values.drop_last() =~= Seq::empty());
    assert(words::words_encoded(false, 8, values.drop_last()) =~= Seq::empty());
    assert(words::words_encoded(false, 8, values) =~= bigendian::be_digits(v as nat, 8));
    assert forall|i: int| 0 <= i < values.len() implies words::word_holds(
        false,
        8,
        #[trigger] values[i],
    ) by {}
    bintable::number_cells_round_trip(heap, values, 1);
}

/// The cells of a table of quantized tiles.
proof fn lemma_quantized_cells(encs: Seq<Seq<u8>>, tiles: Seq<QuantizedTile>, k: int)
    requires
        encs.len() <= usize::MAX,
        0 <= k < encs.len(),
        tile_encode::quantized_table(encs, tiles).heap.len() <= i32::MAX,
    ensures
        ({
            let t = tile_encode::quantized_table(encs, tiles);
            &&& bintable::table_cell(t, k as usize, 0) == Ok::<CellView, ErrorView>(
                CellView::Bytes(encs[k]),
            )
            &&& bintable::table_cell(t, k as usize, 1) == Ok::<CellView, ErrorView>(
                CellView::F64(seq![tiles[k].scale as int]),
            )
            &&& bintable::table_cell(t, k as usize, 2) == Ok::<CellView, ErrorView>(
                CellView::F64(seq![tiles[k].zero as int]),
            )
            &&& bintable::table_cell(t, k as usize, 3) is Err
        }),
{
    let t = tile_encode::quantized_table(encs, tiles);
    lemma_quantized_table(encs, tiles);
    assert(row_holds(t, encs, tiles, k));
    let n = encs[k].len();
    let o = tile_reading::tile_offset(encs, k);
    tile_reading::lemma_descriptor(n, o);
    tile_reading::lemma_byte_array(t.heap, encs[k], o);
    lemma_number_cell(t.heap, tiles[k].scale);
    lemma_number_cell(t.heap, tiles[k].zero);
}

/// Where the columns of a table of quantized tiles are.
proof fn lemma_positions()
    ensures
        tile_compress::column_position(quantized_columns(), "COMPRESSED_DATA"@) == 0,
        tile_compress::column_position(quantized_columns(), "ZSCALE"@) == 1,
        tile_compress::column_position(quantized_columns(), "ZZERO"@) == 2,
        tile_compress::column_position(quantized_columns(), "ZBLANK"@) == 3,
{
    reveal_strlit("COMPRESSED_DATA");
    reveal_strlit("ZSCALE");
    reveal_strlit("ZZERO");
    reveal_strlit("ZBLANK");
    text::lemma_trim_same("COMPRESSED_DATA"@);
    text::lemma_trim_same("ZSCALE"@);
    text::lemma_trim_same("ZZERO"@);
    let all = quantized_columns();
    let two = all.skip(1);
    let one = two.skip(1);
    let none = one.skip(1);
    assert(two[0] == all[1] && one[0] == all[2]);
    assert(none =~= Seq::empty());
    assert(text::ascii_upper("ZSCALE"@)[1] == 'S');
    assert(text::ascii_upper("ZBLANK"@)[1] == 'B');
    assert(text::ascii_upper("ZZERO"@).len() == 5);
    assert(text::ascii_upper("COMPRESSED_DATA"@).len() == 15);
    assert(tile_compress::column_position(none, "ZBLANK"@) == 0);
    assert(tile_compress::column_position(one, "ZBLANK"@) == 1);
    assert(tile_compress::column_position(two, "ZBLANK"@) == 2);
    assert(tile_compress::column_position(one, "ZZERO"@) == 0);
    assert(tile_compress::column_position(two, "ZZERO"@) == 1);
    assert(tile_compress::column_position(two, "ZSCALE"@) == 0);
}

/// The seed of the dithering that a header holds.
pub open spec fn written_seed(opts: CompressOptions) -> Option<int> {
    if opts.dither.dithers() {
        Some(
            match opts.dither_seed {
                Some(s) => s as int,
                None => 1,
            },
        )
    } else {
        None
    }
}

/// What a reader knows of a quantized image.
pub open spec fn quantized_view(
    image: ImageView,
    opts: CompressOptions,
    t: BinTableView,
) -> CompressedView {
    CompressedView {
        ctype: opts.algorithm,
        zbitpix: image.pixels.kind.number(),
        geometry: tile_compress::GeometryView {
            znaxis: image.axes,
            ztile: tile_encode::wanted_tile(opts, image.axes),
        },
        quantize: opts.dither,
        zdither0: written_seed(opts),
        blank: Some(dither::NULL_VALUE as int),
        params: tile_reading::read_params(
            tile_encode::written_params(opts.algorithm, opts.blocksize, 4),
        ),
        table: t,
    }
}

/// Quantized tiles as they are read.
pub open spec fn quantized_views(tiles: Seq<QuantizedTile>) -> Seq<FloatTileView> {
    Seq::new(
        tiles.len(),
        |k: int|
            FloatTileView::Quantized {
                samples: tile_compress::numbers_of(tiles[k].samples@),
                scale: FloatBits::Double(tiles[k].scale),
                zero: FloatBits::Double(tiles[k].zero),
                blank: Some(dither::NULL_VALUE as int),
            },
    )
}

/// Whether quantized tiles can be told from tiles of bit patterns and held in 32 bits: no
/// scale is zero, and the samples are 32-bit integers.
pub open spec fn tiles_fit(tiles: Seq<QuantizedTile>) -> bool {
    forall|k: int|
        0 <= k < tiles.len() ==> {
            &&& !FloatBits::Double((#[trigger] tiles[k]).scale).zero()
            &&& tile_reading::samples_fit(tiles[k].samples@, Bitpix::I32)
        }
}

/// Encoded tiles have bytes.
proof fn lemma_bytes_there(
    enc: Seq<u8>,
    samples: Seq<i64>,
    algorithm: CompressionType,
    blocksize: usize,
)
    requires
        samples.len() > 0,
        tile_encode::encodes(enc, samples, algorithm, 4, blocksize),
    ensures
        enc.len() > 0,
{
    if algorithm == CompressionType::Rice1 {
        let vals = rice::widened_i32(rice::cut_i32(samples));
        let w = rice::rice_width(4);
        assert(vals.len() == samples.len());
        crate::bitstream::lemma_nat_bits_len((vals[0] as int % w.modulus()) as nat, 32);
        assert(rice::rice_bits(vals, blocksize, w).len() >= 32);
    }
}

/// A tile whose cells hold samples, a scale and a zero point is read as quantized.
proof fn lemma_cells_read(
    c: CompressedView,
    k: int,
    data: Seq<u8>,
    samples: Seq<int>,
    scale: u64,
    zero: u64,
)
    requires
        tile_compress::column_position(c.table.columns, "ZSCALE"@) == 1,
        tile_compress::column_position(c.table.columns, "ZZERO"@) == 2,
        tile_compress::column_position(c.table.columns, "ZBLANK"@) == 3,
        bintable::table_cell(c.table, k as usize, 0) == Ok::<CellView, ErrorView>(
            CellView::Bytes(data),
        ),
        bintable::table_cell(c.table, k as usize, 1) == Ok::<CellView, ErrorView>(
            CellView::F64(seq![scale as int]),
        ),
        bintable::table_cell(c.table, k as usize, 2) == Ok::<CellView, ErrorView>(
            CellView::F64(seq![zero as int]),
        ),
        bintable::table_cell(c.table, k as usize, 3) is Err,
        data.len() > 0,
        !FloatBits::Double(scale).zero(),
        tile_compress::stream_samples(
            c,
            data,
            grid::tile_volume(c.geometry.znaxis, c.geometry.ztile, k),
        ) == Ok::<Seq<int>, ErrorView>(samples),
    ensures
        tile_compress::float_tile(c, k, 0) == Ok::<FloatTileView, ErrorView>(
            FloatTileView::Quantized {
                samples,
                scale: FloatBits::Double(scale),
                zero: FloatBits::Double(zero),
                blank: c.blank,
            },
        ),
{
    reveal(tile_compress::float_tile);
}

/// A row of a table of quantized tiles is read as it was written, where its bytes are
/// decoded to the samples.
proof fn lemma_table_read(
    c: CompressedView,
    encs: Seq<Seq<u8>>,
    tiles: Seq<QuantizedTile>,
    k: int,
)
    requires
        c.table == tile_encode::quantized_table(encs, tiles),
        c.blank == Some(dither::NULL_VALUE as int),
        encs.len() <= usize::MAX,
        encs.len() == tiles.len(),
        0 <= k < encs.len(),
        c.table.heap.len() <= i32::MAX,
        encs[k].len() > 0,
        !FloatBits::Double(tiles[k].scale).zero(),
        tile_compress::stream_samples(
            c,
            encs[k],
            grid::tile_volume(c.geometry.znaxis, c.geometry.ztile, k),
        ) == Ok::<Seq<int>, ErrorView>(tile_compress::numbers_of(tiles[k].samples@)),
    ensures
        tile_compress::float_tile(c, k, 0) == Ok::<FloatTileView, ErrorView>(
            quantized_views(tiles)[k],
        ),
{
    assert(c.table.columns == quantized_columns()) by {
        lemma_quantized_table(encs, tiles);
    }
    lemma_quantized_cells(encs, tiles, k);
    lemma_positions();
    lemma_cells_read(
        c,
        k,
        encs[k],
        tile_compress::numbers_of(tiles[k].samples@),
        tiles[k].scale,
        tiles[k].zero,
    );
}

/// Whether the RICE_1 code of each quantized tile holds its samples.
pub open spec fn quantized_hold(tiles: Seq<QuantizedTile>, opts: CompressOptions) -> bool {
    forall|k: int|
        0 <= k < tiles.len() ==> rice::code_holds(
            (#[trigger] tiles[k]).samples@,
            tile_encode::block_size(opts.blocksize),
            rice::rice_width(4),
        )
}

/// The samples of a quantized tile that was encoded are decoded as they were.
proof fn lemma_stream(
    c: CompressedView,
    image: ImageView,
    opts: CompressOptions,
    enc: Seq<u8>,
    samples: Seq<i64>,
    k: int,
)
    requires
        image.pixels.kind.number() < 0,
        tile_encode::shape_error(image, opts) is None,
        image.pixels.values.len() <= usize::MAX,
        opts.algorithm == CompressionType::Rice1 ==> rice::code_holds(
            samples,
            tile_encode::block_size(opts.blocksize),
            rice::rice_width(4),
        ),
        c == quantized_view(image, opts, c.table),
        0 <= k < grid::volume(
            grid::grid_of(image.axes, tile_encode::wanted_tile(opts, image.axes)),
        ),
        samples.len() == grid::tile_volume(
            image.axes,
            tile_encode::wanted_tile(opts, image.axes),
            k,
        ),
        tile_reading::samples_fit(samples, Bitpix::I32),
        tile_encode::encodes(
            enc,
            samples,
            opts.algorithm,
            4,
            tile_encode::block_size(opts.blocksize),
        ),
    ensures
        enc.len() > 0,
        tile_compress::stream_samples(c, enc, samples.len()) == Ok::<Seq<int>, ErrorView>(
            tile_compress::numbers_of(samples),
        ),
{
    let ztile = tile_encode::wanted_tile(opts, image.axes);
    let blocksize = tile_encode::block_size(opts.blocksize);
    grid::lemma_tile_volume(image.axes, ztile, k);
    grid::tiles_have_pixels(image.axes, ztile, k);
    lemma_bytes_there(enc, samples, opts.algorithm, blocksize);
    tile_reading::lemma_int_tile(c, enc, samples, Bitpix::I32, blocksize);
}

/// A quantized tile that was encoded is decoded as it was.
proof fn lemma_quantized_tile(
    image: ImageView,
    opts: CompressOptions,
    encs: Seq<Seq<u8>>,
    tiles: Seq<QuantizedTile>,
    k: int,
)
    requires
        image.pixels.kind.number() < 0,
        tile_encode::shape_error(image, opts) is None,
        image.pixels.values.len() <= usize::MAX,
        tile_encode::quantized_complete(
            tiles,
            image.axes,
            tile_encode::wanted_tile(opts, image.axes),
        ),
        tile_encode::encodes_quantized(encs, tiles, opts),
        tiles_fit(tiles),
        tile_encode::quantized_table(encs, tiles).heap.len() <= i32::MAX,
        opts.algorithm == CompressionType::Rice1 ==> quantized_hold(tiles, opts),
        0 <= k < tiles.len(),
    ensures
        tile_compress::float_tile(
            quantized_view(image, opts, tile_encode::quantized_table(encs, tiles)),
            k,
            0,
        ) == Ok::<FloatTileView, ErrorView>(quantized_views(tiles)[k]),
{
    let t = tile_encode::quantized_table(encs, tiles);
    let c = quantized_view(image, opts, t);
    let samples = tiles[k].samples@;
    grid::lemma_grid_volume(image.axes, tile_encode::wanted_tile(opts, image.axes));
    assert(tile_encode::encodes(
        encs[k],
        samples,
        opts.algorithm,
        4,
        tile_encode::block_size(opts.blocksize),
    ));
    lemma_stream(c, image, opts, encs[k], samples, k);
    lemma_table_read(c, encs, tiles, k);
}

/// What the driver keywords of a quantized image say.
proof fn lemma_quantized_header(image: ImageView, opts: CompressOptions)
    ensures
        ({
            let z = tile_encode::quantized_header(image, opts);
            let ztile = tile_encode::wanted_tile(opts, image.axes);
            &&& tile_reading::says_shape(
                z,
                image.pixels.kind,
                image.axes,
                ztile,
                opts.algorithm,
            )
            &&& tile_reading::says_params(
                z,
                tile_encode::written_params(opts.algorithm, opts.blocksize, 4),
            )
            &&& keyword_names::found(z, "ZQUANTIZ"@) == Some(
                Some(ValueView::Text(opts.dither.name())),
            )
            &&& keyword_names::found(z, "ZDITHER0"@) == (match written_seed(opts) {
                Some(s) => Some(Some(ValueView::Integer(s))),
                None => None,
            })
            &&& keyword_names::found(z, "ZBLANK"@) == Some(
                Some(ValueView::Integer(dither::NULL_VALUE as int)),
            )
            &&& tile_reading::no_driver_names(z)
        }),
{
    let kind = image.pixels.kind;
    let axes = image.axes;
    let ztile = tile_encode::wanted_tile(opts, axes);
    let params = tile_encode::written_params(opts.algorithm, opts.blocksize, 4);
    let bare = tile_encode::z_header(kind, axes, ztile, opts.algorithm, params);
    let method = ValueView::Text(opts.dither.name());
    let c1 = Some("quantization method"@);
    let c2 = Some("dithering offset seed"@);
    let c3 = Some("null value"@);
    let h1 = header::with_set(bare, "ZQUANTIZ"@, method, c1);
    let h2 = match written_seed(opts) {
        Some(s) => header::with_set(h1, "ZDITHER0"@, ValueView::Integer(s), c2),
        None => h1,
    };
    let blank = ValueView::Integer(dither::NULL_VALUE as int);
    let z = header::with_set(h2, "ZBLANK"@, blank, c3);
    assert(z == tile_encode::quantized_header(image, opts));
    tile_reading::lemma_z_found(kind, axes, ztile, opts.algorithm, params);
    keyword_names::lemma_compression_names();
    tile_reading::lemma_set_frame(bare, "ZQUANTIZ"@, method, c1);
    if let Some(s) = written_seed(opts) {
        tile_reading::lemma_set_frame(h1, "ZDITHER0"@, ValueView::Integer(s), c2);
    }
    tile_reading::lemma_set_frame(h2, "ZBLANK"@, blank, c3);
    assert forall|name: Seq<char>|
        keyword_names::upper_name(name) && keyword_names::head(name) != ('Z', 'Q', 'U', 'A')
            && keyword_names::head(name) != ('Z', 'D', 'I', 'T') && keyword_names::head(name) != (
            'Z',
            'B',
            'L',
            'A',
        ) implies #[trigger] keyword_names::found(z, name) == keyword_names::found(bare, name) by {
        assert(keyword_names::found(z, name) == keyword_names::found(h2, name));
        assert(keyword_names::found(h2, name) == keyword_names::found(h1, name));
        assert(keyword_names::found(h1, name) == keyword_names::found(bare, name));
    }
    assert(keyword_names::found(h2, "ZQUANTIZ"@) == keyword_names::found(h1, "ZQUANTIZ"@));
    assert(keyword_names::found(z, "ZQUANTIZ"@) == keyword_names::found(h2, "ZQUANTIZ"@));
    assert(keyword_names::found(h1, "ZDITHER0"@) == keyword_names::found(bare, "ZDITHER0"@));
    assert(keyword_names::found(z, "ZDITHER0"@) == keyword_names::found(h2, "ZDITHER0"@));
    tile_reading::lemma_says_shape_same(z, bare, kind, axes, ztile, opts.algorithm);
    tile_reading::lemma_says_params_same(z, bare, params);
}

/// A header that says what the driver keywords of a quantized image do is read as they
/// were written.
proof fn lemma_quantized_of(
    g: Seq<KeywordView>,
    image: ImageView,
    opts: CompressOptions,
    t: BinTableView,
)
    requires
        forall|name: Seq<char>|
            tile_reading::no_table_name(name) ==> #[trigger] keyword_names::found(g, name)
                == keyword_names::found(tile_encode::quantized_header(image, opts), name),
        opts.algorithm == CompressionType::Rice1 ==> tile_encode::block_size(opts.blocksize)
            <= i64::MAX,
        tile_reading::header_sizes(image.axes),
        tile_reading::header_sizes(tile_encode::wanted_tile(opts, image.axes)),
        image.axes.len() == tile_encode::wanted_tile(opts, image.axes).len(),
    ensures
        tile_compress::compressed_of(g, t) == Ok::<CompressedView, ErrorView>(
            quantized_view(image, opts, t),
        ),
{
    let kind = image.pixels.kind;
    let axes = image.axes;
    let ztile = tile_encode::wanted_tile(opts, axes);
    let params = tile_encode::written_params(opts.algorithm, opts.blocksize, 4);
    let z = tile_encode::quantized_header(image, opts);
    lemma_quantized_header(image, opts);
    keyword_names::lemma_compression_names();
    tile_reading::lemma_says_shape_same(g, z, kind, axes, ztile, opts.algorithm);
    tile_reading::lemma_says_params_same(g, z, params);
    tile_reading::lemma_params_read(g, params);
    tile_reading::lemma_geometry_read(g, kind, axes, ztile, opts.algorithm);
    tile_compress::ctype_of_name(opts.algorithm);
    tile_compress::quantize_of_name(opts.dither);
    assert(keyword_names::found(g, "ZQUANTIZ"@) == keyword_names::found(z, "ZQUANTIZ"@));
    assert(keyword_names::found(g, "ZDITHER0"@) == keyword_names::found(z, "ZDITHER0"@));
    assert(keyword_names::found(g, "ZBLANK"@) == keyword_names::found(z, "ZBLANK"@));
}

/// The tiles of a quantized image are decoded as they were.
proof fn lemma_quantized_tiles(
    image: ImageView,
    opts: CompressOptions,
    encs: Seq<Seq<u8>>,
    tiles: Seq<QuantizedTile>,
)
    requires
        image.pixels.kind.number() < 0,
        tile_encode::shape_error(image, opts) is None,
        image.pixels.values.len() <= usize::MAX,
        tile_encode::quantized_complete(
            tiles,
            image.axes,
            tile_encode::wanted_tile(opts, image.axes),
        ),
        tile_encode::encodes_quantized(encs, tiles, opts),
        tiles_fit(tiles),
        tile_encode::quantized_table(encs, tiles).heap.len() <= i32::MAX,
        opts.algorithm == CompressionType::Rice1 ==> quantized_hold(tiles, opts),
    ensures
        tile_compress::float_tiles_of(
            quantized_view(image, opts, tile_encode::quantized_table(encs, tiles)),
        ) == Ok::<Seq<FloatTileView>, ErrorView>(quantized_views(tiles)),
{
    let t = tile_encode::quantized_table(encs, tiles);
    let c = quantized_view(image, opts, t);
    let views = quantized_views(tiles);
    grid::lemma_grid_volume(image.axes, tile_encode::wanted_tile(opts, image.axes));
    lemma_quantized_table(encs, tiles);
    lemma_positions();
    assert forall|k: int| 0 <= k < views.len() implies tile_compress::float_tile(c, k, 0) == Ok::<
        FloatTileView,
        ErrorView,
    >(#[trigger] views[k]) by {
        lemma_quantized_tile(image, opts, encs, tiles, k);
    }
    tile_reading::lemma_float_tiles_read(c, views, 0);
    assert(views.skip(0) =~= views);
}

/// Quantized tiles are kept: reading an HDU into which the quantized tiles of a
/// floating-point image were compressed gives the method, the seed and the tiles, each with
/// its samples, its scale and its zero point.
pub proof fn quantized_round_trip(
    image: ImageView,
    opts: CompressOptions,
    encs: Seq<Seq<u8>>,
    tiles: Seq<QuantizedTile>,
)
    requires
        image.pixels.kind.number() < 0,
        tile_encode::shape_error(image, opts) is None,
        tile_encode::quantized_complete(
            tiles,
            image.axes,
            tile_encode::wanted_tile(opts, image.axes),
        ),
        tile_encode::encodes_quantized(encs, tiles, opts),
        tile_reading::compressed_sizes(
            image,
            opts,
            tile_encode::quantized_hdu(image, opts, encs, tiles),
        ),
        tiles_fit(tiles),
        opts.algorithm == CompressionType::Rice1 ==> quantized_hold(tiles, opts),
    ensures
        match tile_reading::compressed_in(tile_encode::quantized_hdu(image, opts, encs, tiles)) {
            Ok(c) => {
                &&& c.zbitpix == image.pixels.kind.number()
                &&& c.geometry.znaxis == image.axes
                &&& c.quantize == opts.dither
                &&& c.zdither0 == written_seed(opts)
                &&& tile_compress::float_tiles_of(c) == Ok::<Seq<FloatTileView>, ErrorView>(
                    quantized_views(tiles),
                )
            },
            Err(_) => false,
        },
{
    let u: HduView = tile_encode::quantized_hdu(image, opts, encs, tiles);
    let t = tile_encode::quantized_table(encs, tiles);
    tile_reading::lemma_header_says(
        tile_encode::quantized_header(image, opts),
        t,
        tile_encode::longest_of(encs),
    );
    lemma_quantized_of(u.header, image, opts, t);
    lemma_quantized_tiles(image, opts, encs, tiles);
}

/// The data of a table of quantized tiles fill its rows.
proof fn lemma_whole_table(encs: Seq<Seq<u8>>, tiles: Seq<QuantizedTile>)
    requires
        encs.len() <= usize::MAX,
        encs.len() <= i64::MAX,
        ({
            let t = tile_encode::quantized_table(encs, tiles);
            t.heap.len() <= i32::MAX && 0 < t.main_data.len() + t.heap.len() <= usize::MAX
        }),
    ensures
        ({
            let t = tile_encode::quantized_table(encs, tiles);
            &&& file_reading::whole_bintable(t)
            &&& forall|j: int|
                0 <= j < t.columns.len() ==> tile_reading::bare_column(#[trigger] t.columns[j])
        }),
{
    lemma_quantized_table(encs, tiles);
    let t = tile_encode::quantized_table(encs, tiles);
    assert(t.row_len * t.nrows == 24 * encs.len());
    assert forall|j: int| 0 <= j < t.columns.len() implies bintable::plain_format(
        (#[trigger] t.columns[j]).format,
    ) by {}
}

/// The header of an HDU with a quantized image is read as it was written.
proof fn lemma_header_keeps(
    image: ImageView,
    opts: CompressOptions,
    encs: Seq<Seq<u8>>,
    tiles: Seq<QuantizedTile>,
)
    requires
        image.axes.len() < 100,
        tile_encode::wanted_tile(opts, image.axes).len() < 100,
        encs.len() <= usize::MAX,
        tile_encode::quantized_table(encs, tiles).heap.len() <= i32::MAX,
    ensures
        ({
            let u = tile_encode::quantized_hdu(image, opts, encs, tiles);
            file_reading::keeps_all(crate::hdu::with_data(u.header, u.data))
        }),
{
    let t = tile_encode::quantized_table(encs, tiles);
    lemma_quantized_table(encs, tiles);
    tile_reading::lemma_longest(encs);
    brief_headers::lemma_quantized_drivers_brief(image, opts);
    reveal_strlit("COMPRESSED_DATA");
    reveal_strlit("ZSCALE");
    reveal_strlit("ZZERO");
    assert(brief_headers::brief_text(BinColumnType::VarP('B').tform()));
    assert(text::decimal(1) =~= seq!['1']);
    assert(brief_headers::brief_text(BinColumnType::D64(1).tform()));
    assert forall|j: int| 0 <= j < t.columns.len() implies brief_headers::brief_column(
        #[trigger] t.columns[j],
    ) by {
        assert(j == 0 || j == 1 || j == 2);
    }
    brief_headers::lemma_compressed_keeps(
        tile_encode::quantized_header(image, opts),
        t,
        tile_encode::longest_of(encs),
    );
}

/// Quantized tiles of an image with fewer than 100 axes that were compressed, written and
/// read are those that were compressed.
#[verifier::spinoff_prover]
#[verifier::rlimit(40)]
pub proof fn quantized_hdu_round_trip(
    image: ImageView,
    opts: CompressOptions,
    encs: Seq<Seq<u8>>,
    tiles: Seq<QuantizedTile>,
    rest: Seq<u8>,
)
    requires
        image.pixels.kind.number() < 0,
        tile_encode::shape_error(image, opts) is None,
        tile_encode::quantized_complete(
            tiles,
            image.axes,
            tile_encode::wanted_tile(opts, image.axes),
        ),
        tile_encode::encodes_quantized(encs, tiles, opts),
        tile_reading::compressed_sizes(
            image,
            opts,
            tile_encode::quantized_hdu(image, opts, encs, tiles),
        ),
        tiles_fit(tiles),
        opts.algorithm == CompressionType::Rice1 ==> quantized_hold(tiles, opts),
        ({
            let t = tile_encode::quantized_table(encs, tiles);
            0 < t.main_data.len() + t.heap.len() <= usize::MAX && tiles.len() <= i64::MAX
        }),
        image.axes.len() < 100,
    ensures
        ({
            let bytes = crate::hdu::hdu_bytes(
                tile_encode::quantized_hdu(image, opts, encs, tiles),
            );
            match crate::hdu::hdu_read(bytes + rest) {
                Ok((v, n)) => n == bytes.len() && match tile_reading::compressed_in(v) {
                    Ok(c) => {
                        &&& c.zbitpix == image.pixels.kind.number()
                        &&& c.geometry.znaxis == image.axes
                        &&& c.quantize == opts.dither
                        &&& c.zdither0 == written_seed(opts)
                        &&& tile_compress::float_tiles_of(c) == Ok::<Seq<FloatTileView>, ErrorView>(
                            quantized_views(tiles),
                        )
                    },
                    Err(_) => false,
                },
                Err(_) => false,
            }
        }),
{
    let u = tile_encode::quantized_hdu(image, opts, encs, tiles);
    let t = tile_encode::quantized_table(encs, tiles);
    let z = tile_encode::quantized_header(image, opts);
    let longest = tile_encode::longest_of(encs);
    grid::lemma_grid_volume(image.axes, tile_encode::wanted_tile(opts, image.axes));
    lemma_whole_table(encs, tiles);
    lemma_header_keeps(image, opts, encs, tiles);
    lemma_quantized_header(image, opts);
    tile_reading::lemma_table_sound(z, t, longest);
    file_reading::hdu_round_trip(u, rest);
    let v = file_reading::filled(u);
    file_reading::settled_is_same(t);
    assert(v.data == crate::hdu::DataView::BinTable(t));
    tile_reading::lemma_header_says(z, t, longest);
    assert forall|name: Seq<char>| tile_reading::no_table_name(
        name,
    ) implies #[trigger] keyword_names::found(v.header, name) == keyword_names::found(z, name) by {
        tile_reading::lemma_table_frame(u.header, t, name);
        assert(keyword_names::found(u.header, name) == keyword_names::found(z, name));
    }
    lemma_quantized_of(v.header, image, opts, t);
    lemma_quantized_tiles(image, opts, encs, tiles);
}

} // verus!
