//! What is read where: the column that each part of a tile comes from, and the keyword that
//! each property of a compressed image comes from.
use crate::bigendian;
use crate::bintable;
use crate::bintable::{BinColumnView, BinTableView, CellView};
use crate::casts;
use crate::error::ErrorView;
use crate::grid;
use crate::gzip;
use crate::header;
use crate::image_data;
use crate::keyword::KeywordView;
use crate::plio;
use crate::plio::MaskPart;
use crate::text;
use crate::tile_compress;
use crate::tile_compress::{CompressedView, CompressionType, FloatBits, FloatTileView};
use crate::tile_compress::Quantize;
use crate::tile_reading;
use crate::types::Bitpix;
use crate::words;
use vstd::prelude::*;

verus! {

/// Numbers that stand at the start of some bytes are read from them.
proof fn lemma_leading_words(signed: bool, w: nat, values: Seq<int>, after: Seq<u8>)
    requires
        w > 0,
        forall|i: int| 0 <= i < values.len() ==> words::word_holds(signed, w, #[trigger] values[i]),
    ensures
        ({
            let all = words::words_decoded(
                signed,
                w,
                words::words_encoded(signed, w, values) + after,
            );
            all.len() >= values.len() && all.take(values.len() as int) == values
        }),
{
    let front = words::words_encoded(signed, w, values);
    let bytes = front + after;
    let all = words::words_decoded(signed, w, bytes);
    let n = values.len() as int;
    words::lemma_words_encoded_len(signed, w, values);
    vstd::arithmetic::div_mod::lemma_div_by_multiple(n, w as int);
    vstd::arithmetic::div_mod::lemma_div_is_ordered(n * w, bytes.len() as int, w as int);
    words::words_round_trip(signed, w, values);
    let read = words::words_decoded(signed, w, front);
    assert forall|i: int| 0 <= i < n implies #[trigger] all[i] == values[i] by {
        assert(0 <= i * w && i * w + w <= n * w) by (nonlinear_arith)
            requires
                0 <= i < n,
        ;
        assert(bytes.subrange(i * w, i * w + w) =~= front.subrange(i * w, i * w + w));
        assert(read[i] == values[i]);
    }
    assert(all.take(n) =~= values);
}

/// The samples of a tile that is not compressed, or as a gzip member, are those that its
/// bytes spell, most significant byte first: one byte without a sign, or two, four or eight in
/// two's complement. Quantized pixels are stored in four bytes. What stands behind them
/// does not count.
pub proof fn stored_samples_are_read(
    c: CompressedView,
    w: nat,
    values: Seq<int>,
    after: Seq<u8>,
    raw: Seq<u8>,
)
    requires
        w == 1 || w == 2 || w == 4 || w == 8,
        c.zbitpix == 8 * w || c.zbitpix < 0 && w == 4,
        forall|i: int| 0 <= i < values.len() ==> words::word_holds(w != 1, w, #[trigger] values[i]),
        ({
            let spelled = words::words_encoded(w != 1, w, values);
            ||| c.ctype == CompressionType::NoCompress && raw == spelled + after
            ||| c.ctype == CompressionType::Gzip1 && gzip::gzip_decoded(raw) == Some(spelled + after)
            ||| c.ctype == CompressionType::Gzip2 && gzip::gzip_decoded(raw) == Some(
                gzip::shuffled(spelled, w),
            )
        }),
    ensures
        tile_compress::stream_samples(c, raw, values.len()) == Ok::<Seq<int>, ErrorView>(values),
{
    let spelled = words::words_encoded(w != 1, w, values);
    reveal(tile_compress::byte_tile);
    lemma_leading_words(w != 1, w, values, after);
    lemma_leading_words(w != 1, w, values, Seq::empty());
    assert(spelled + Seq::<u8>::empty() =~= spelled);
    words::lemma_words_encoded_len(w != 1, w, values);
    vstd::arithmetic::div_mod::lemma_mod_multiples_basic(values.len() as int, w as int);
    gzip::unshuffle_inverts_shuffle(spelled, w);
}

/// A stored tile with fewer samples than pixels is refused, and the refusal says how many
/// there are.
pub proof fn short_tiles_are_refused(c: CompressedView, w: nat, values: Seq<int>, n: nat)
    requires
        w == 1 || w == 2 || w == 4 || w == 8,
        c.zbitpix == 8 * w,
        values.len() < n,
        c.ctype == CompressionType::NoCompress,
    ensures
        tile_compress::stream_samples(c, words::words_encoded(w != 1, w, values), n) == Err::<
            Seq<int>,
            ErrorView,
        >(
            ErrorView::CompressionError(
                "tile has "@ + text::decimal(values.len() as int) + " integers, expected "@
                    + text::decimal(n as int),
            ),
        ),
{
    reveal(tile_compress::byte_tile);
    reveal(tile_compress::byte_fault);
    words::lemma_words_encoded_len(w != 1, w, values);
    vstd::arithmetic::div_mod::lemma_div_by_multiple(values.len() as int, w as int);
}

/// The words of a line list as numbers.
pub open spec fn word_numbers(list: Seq<i16>) -> Seq<int> {
    Seq::new(list.len(), |i: int| list[i] as int)
}

/// A mask in the cell of a tile, as 16-bit integers or as their bytes, gives its pixels.
pub proof fn masks_are_read(c: CompressedView, k: int, col: int, parts: Seq<MaskPart>, list: Seq<i16>)
    requires
        c.ctype == CompressionType::Plio1,
        forall|i: int| 0 <= i < parts.len() ==> plio::part_valid(#[trigger] parts[i]),
        ({
            let body = plio::mask_words(parts, 1);
            ||| body.len() <= 0x7ffc && list == plio::short_list(body)
            ||| body.len() <= 0x7fff_0000 && list == plio::long_list(body)
        }),
        ({
            let cell = bintable::table_cell(c.table, k as usize, col as usize);
            ||| cell == Ok::<CellView, ErrorView>(CellView::I16(word_numbers(list)))
            ||| cell == Ok::<CellView, ErrorView>(
                CellView::Bytes(words::words_encoded(true, 2, word_numbers(list))),
            )
        }),
    ensures
        ({
            let n = grid::tile_volume(c.geometry.znaxis, c.geometry.ztile, k);
            let pixels = plio::first_pixels(plio::mask_pixels(parts), n);
            tile_compress::tile_samples(c, k, col) == Ok::<Seq<int>, ErrorView>(
                Seq::new(pixels.len(), |i: int| pixels[i] as int),
            )
        }),
{
    let n = grid::tile_volume(c.geometry.znaxis, c.geometry.ztile, k);
    let numbers = word_numbers(list);
    reveal(tile_compress::tile_samples);
    assert(words::words_decoded(true, 2, words::words_encoded(true, 2, numbers)) == numbers) by {
        assert(bigendian::byte_power(2) == 0x1_0000) by {
            reveal_with_fuel(bigendian::byte_power, 3);
        }
        words::words_round_trip(true, 2, numbers);
    }
    assert(tile_compress::as_words(numbers) =~= list);
    plio::plio_round_trip(parts, n);
}

/// The first column of a name, in any case and without blanks around it, is at `q`.
pub open spec fn is_column(columns: Seq<BinColumnView>, name: Seq<char>, q: int) -> bool {
    &&& 0 <= q < columns.len()
    &&& text::same_ignoring_case(text::trim(columns[q].name), name)
    &&& forall|i: int|
        0 <= i < q ==> !text::same_ignoring_case(text::trim(#[trigger] columns[i].name), name)
}

/// No column has a name.
pub open spec fn no_column(columns: Seq<BinColumnView>, name: Seq<char>) -> bool {
    forall|i: int|
        0 <= i < columns.len() ==> !text::same_ignoring_case(
            text::trim(#[trigger] columns[i].name),
            name,
        )
}

proof fn lemma_column(columns: Seq<BinColumnView>, name: Seq<char>, q: int)
    requires
        is_column(columns, name, q),
    ensures
        tile_compress::column_position(columns, name) == q,
    decreases columns.len(),
{
    if q > 0 {
        assert(!text::same_ignoring_case(text::trim(columns[0].name), name));
        assert forall|i: int| 0 <= i < q - 1 implies !text::same_ignoring_case(
            text::trim(#[trigger] columns.skip(1)[i].name),
            name,
        ) by {
            assert(columns.skip(1)[i] == columns[i + 1]);
        }
        lemma_column(columns.skip(1), name, q - 1);
    }
}

proof fn lemma_no_column(columns: Seq<BinColumnView>, name: Seq<char>)
    requires
        no_column(columns, name),
    ensures
        tile_compress::column_position(columns, name) == columns.len(),
    decreases columns.len(),
{
    if columns.len() > 0 {
        assert(!text::same_ignoring_case(text::trim(columns[0].name), name));
        assert forall|i: int| 0 <= i < columns.len() - 1 implies !text::same_ignoring_case(
            text::trim(#[trigger] columns.skip(1)[i].name),
            name,
        ) by {
            assert(columns.skip(1)[i] == columns[i + 1]);
        }
        lemma_no_column(columns.skip(1), name);
    }
}

/// A cell of tile `k` holds some bytes.
pub open spec fn bytes_at(c: CompressedView, k: int, q: int, bytes: Seq<u8>) -> bool {
    bintable::table_cell(c.table, k as usize, q as usize) == Ok::<CellView, ErrorView>(
        CellView::Bytes(bytes),
    )
}

/// A cell of tile `k` starts with a floating-point number.
pub open spec fn float_at(c: CompressedView, k: int, q: int, f: FloatBits) -> bool {
    match (bintable::table_cell(c.table, k as usize, q as usize), f) {
        (Ok(CellView::F64(v)), FloatBits::Double(b)) => v.len() > 0 && v[0] == b,
        (Ok(CellView::F32(v)), FloatBits::Single(b)) => v.len() > 0 && v[0] == b,
        _ => false,
    }
}

/// A cell of tile `k` starts with an integer.
pub open spec fn integer_at(c: CompressedView, k: int, q: int, i: int) -> bool {
    match bintable::table_cell(c.table, k as usize, q as usize) {
        Ok(CellView::I16(v)) => v.len() > 0 && v[0] == i,
        Ok(CellView::I32(v)) => v.len() > 0 && v[0] == i,
        Ok(CellView::I64(v)) => v.len() > 0 && v[0] == i,
        _ => false,
    }
}

/// A quantized tile has its scale from `ZSCALE`, its zero point from `ZZERO` and the number
/// of its undefined pixels from `ZBLANK`; without such a column, from the keyword.
pub proof fn quantized_tiles_are_read(
    c: CompressedView,
    k: int,
    col: int,
    data: Seq<u8>,
    samples: Seq<int>,
    scale: FloatBits,
    zero: FloatBits,
    at: (int, int, int),
    own: int,
)
    requires
        bytes_at(c, k, col, data),
        data.len() > 0,
        tile_compress::stream_samples(
            c,
            data,
            grid::tile_volume(c.geometry.znaxis, c.geometry.ztile, k),
        ) == Ok::<Seq<int>, ErrorView>(samples),
        is_column(c.table.columns, "ZSCALE"@, at.0),
        float_at(c, k, at.0, scale),
        is_column(c.table.columns, "ZZERO"@, at.1),
        float_at(c, k, at.1, zero),
        match scale {
            FloatBits::Single(b) => b != 0 && b != 0x8000_0000,
            FloatBits::Double(b) => b != 0 && b != 0x8000_0000_0000_0000,
        },
        c.table.columns.len() <= usize::MAX,
        ({
            ||| no_column(c.table.columns, "ZBLANK"@)
            ||| is_column(c.table.columns, "ZBLANK"@, at.2) && integer_at(c, k, at.2, own)
        }),
    ensures
        tile_compress::float_tile(c, k, col) == Ok::<FloatTileView, ErrorView>(
            FloatTileView::Quantized {
                samples,
                scale,
                zero,
                blank: if no_column(c.table.columns, "ZBLANK"@) {
                    c.blank
                } else {
                    Some(own)
                },
            },
        ),
{
    reveal(tile_compress::float_tile);
    lemma_column(c.table.columns, "ZSCALE"@, at.0);
    lemma_column(c.table.columns, "ZZERO"@, at.1);
    if no_column(c.table.columns, "ZBLANK"@) {
        lemma_no_column(c.table.columns, "ZBLANK"@);
    } else {
        lemma_column(c.table.columns, "ZBLANK"@, at.2);
    }
}

/// A tile has no scale: there is no such column, or it holds zero, of either sign.
pub open spec fn unscaled(c: CompressedView, k: int) -> bool {
    ||| no_column(c.table.columns, "ZSCALE"@)
    ||| exists|q: int| #[trigger] is_column(c.table.columns, "ZSCALE"@, q) && {
        ||| float_at(c, k, q, FloatBits::Single(0))
        ||| float_at(c, k, q, FloatBits::Single(0x8000_0000))
        ||| float_at(c, k, q, FloatBits::Double(0))
        ||| float_at(c, k, q, FloatBits::Double(0x8000_0000_0000_0000))
    }
}

/// Where the bytes of the pixels of a tile without a scale are: in the column of the data, as
/// they are or as a gzip member; where that cell is empty, as a gzip member in
/// `GZIP_COMPRESSED_DATA`, or else as they are in `UNCOMPRESSED_DATA`.
pub open spec fn raw_bytes_at(
    c: CompressedView,
    k: int,
    col: int,
    data: Seq<u8>,
    q: int,
    bytes: Seq<u8>,
) -> bool {
    let columns = c.table.columns;
    &&& bytes_at(c, k, col, data)
    &&& if data.len() > 0 {
        if c.ctype == CompressionType::NoCompress {
            data == bytes
        } else {
            gzip::gzip_decoded(data) == Some(bytes)
        }
    } else if no_column(columns, "GZIP_COMPRESSED_DATA"@) {
        is_column(columns, "UNCOMPRESSED_DATA"@, q) && bytes_at(c, k, q, bytes)
    } else {
        is_column(columns, "GZIP_COMPRESSED_DATA"@, q) && exists|member: Seq<u8>| #[trigger]
            bytes_at(c, k, q, member) && gzip::gzip_decoded(member) == Some(bytes)
    }
}

/// The pixels of a tile without a scale are the bit patterns that its bytes spell, in four
/// or eight bytes each, most significant byte first.
pub proof fn raw_tiles_are_read(
    c: CompressedView,
    k: int,
    col: int,
    data: Seq<u8>,
    q: int,
    bits: Seq<int>,
    after: Seq<u8>,
)
    requires
        c.zbitpix == -32 || c.zbitpix == -64,
        c.table.columns.len() <= usize::MAX,
        bits.len() == grid::tile_volume(c.geometry.znaxis, c.geometry.ztile, k),
        ({
            let w = if c.zbitpix == -32 {
                4nat
            } else {
                8
            };
            &&& forall|i: int| 0 <= i < bits.len() ==> words::word_holds(false, w, #[trigger] bits[i])
            &&& raw_bytes_at(c, k, col, data, q, words::words_encoded(false, w, bits) + after)
        }),
        unscaled(c, k),
    ensures
        tile_compress::float_tile(c, k, col) == Ok::<FloatTileView, ErrorView>(
            FloatTileView::Raw(bits),
        ),
{
    let w = if c.zbitpix == -32 {
        4nat
    } else {
        8
    };
    let bytes = words::words_encoded(false, w, bits) + after;
    assert(tile_compress::raw_pixels(c, bytes, bits.len()) == Ok::<FloatTileView, ErrorView>(
        FloatTileView::Raw(bits),
    )) by {
        lemma_leading_words(false, w, bits, after);
    }
    lemma_unscaled(c, k);
    lemma_raw_bytes(c, k, col, data, q, bytes, bits.len());
    assert(tile_compress::float_tile(c, k, col) == tile_compress::raw_tile(c, k, data, bits.len()))
        by {
        reveal(tile_compress::float_tile);
    }
}

/// A tile without a scale has no scale that is not zero.
proof fn lemma_unscaled(c: CompressedView, k: int)
    requires
        unscaled(c, k),
        c.table.columns.len() <= usize::MAX,
    ensures
        tile_compress::scalar_cell(
            c,
            k,
            tile_compress::column_position(c.table.columns, "ZSCALE"@),
        ) matches Some(s) ==> s.zero(),
{
    let columns = c.table.columns;
    if no_column(columns, "ZSCALE"@) {
        lemma_no_column(columns, "ZSCALE"@);
    } else {
        let s = choose|s: int| #[trigger] is_column(columns, "ZSCALE"@, s) && {
            ||| float_at(c, k, s, FloatBits::Single(0))
            ||| float_at(c, k, s, FloatBits::Single(0x8000_0000))
            ||| float_at(c, k, s, FloatBits::Double(0))
            ||| float_at(c, k, s, FloatBits::Double(0x8000_0000_0000_0000))
        };
        lemma_column(columns, "ZSCALE"@, s);
    }
}

/// The pixels of a tile without a scale are read from its bytes.
proof fn lemma_raw_bytes(
    c: CompressedView,
    k: int,
    col: int,
    data: Seq<u8>,
    q: int,
    bytes: Seq<u8>,
    n: nat,
)
    requires
        raw_bytes_at(c, k, col, data, q, bytes),
        c.table.columns.len() <= usize::MAX,
    ensures
        tile_compress::raw_tile(c, k, data, n) == tile_compress::raw_pixels(c, bytes, n),
{
    let columns = c.table.columns;
    reveal(tile_compress::raw_tile);
    if data.len() == 0 {
        if no_column(columns, "GZIP_COMPRESSED_DATA"@) {
            lemma_no_column(columns, "GZIP_COMPRESSED_DATA"@);
            lemma_column(columns, "UNCOMPRESSED_DATA"@, q);
        } else {
            lemma_column(columns, "GZIP_COMPRESSED_DATA"@, q);
        }
    }
}

/// A number that is a size.
pub open spec fn size_is(v: int, n: usize) -> bool {
    0 <= v <= i64::MAX && v <= usize::MAX ==> n == v
}

/// A dimension is that of a numbered keyword.
pub open spec fn dimension_is(h: Seq<KeywordView>, name: Seq<char>, i: int, n: usize) -> bool {
    match header::int_of(h, name + text::decimal(i)) {
        Some(v) => size_is(v, n),
        None => false,
    }
}

/// Each property of a compressed image is that of its own keyword.
pub open spec fn described_by(h: Seq<KeywordView>, table: BinTableView, c: CompressedView) -> bool {
    &&& header::bool_of(h, "ZIMAGE"@) == Some(true)
    &&& header::string_of(h, "ZCMPTYPE"@) matches Some(s) && {
        let name = text::ascii_upper(text::trim(s));
        name == c.ctype.name() || c.ctype == CompressionType::Rice1 && name == "RICE_ONE"@
    }
    &&& header::int_of(h, "ZBITPIX"@) == Some(c.zbitpix)
    &&& header::int_of(h, "ZDITHER0"@) == c.zdither0
    &&& header::int_of(h, "ZBLANK"@) == c.blank
    &&& match header::string_of(h, "ZQUANTIZ"@) {
        None => c.quantize == Quantize::NoDither,
        Some(s) => {
            let name = text::ascii_upper(text::trim(s));
            name == c.quantize.name() || c.quantize == Quantize::NoDither && name == "NONE"@
        },
    }
    &&& c.table == table
}

/// The dimensions of a compressed image and of its tiles are those of the numbered keywords; a
/// tile whose size is not given is one row.
pub open spec fn shaped_by(h: Seq<KeywordView>, c: CompressedView) -> bool {
    let image = c.geometry.znaxis;
    let tile = c.geometry.ztile;
    &&& header::int_of(h, "ZNAXIS"@) matches Some(n) && (0 <= n <= i64::MAX && n <= usize::MAX
        ==> image.len() == n)
    &&& tile.len() == image.len()
    &&& forall|a: int|
        0 <= a < image.len() ==> dimension_is(h, "ZNAXIS"@, a + 1, #[trigger] image[a])
    &&& forall|a: int|
        0 <= a < image.len() ==> match header::int_of(h, "ZTILE"@ + text::decimal(a + 1)) {
            Some(v) => size_is(v, #[trigger] tile[a]),
            None => tile[a] == (if a == 0 {
                image[0]
            } else {
                1
            }),
        }
}

proof fn lemma_size(v: int)
    ensures
        size_is(v, casts::size_of(v)),
{
}

proof fn lemma_axes(h: Seq<KeywordView>, name: Seq<char>, i: nat, n: nat)
    requires
        1 <= i <= n + 1,
    ensures
        image_data::axes_from(h, name, i, n) matches Ok(dims) ==> {
            &&& dims.len() == n + 1 - i
            &&& forall|a: int|
                0 <= a < dims.len() ==> dimension_is(h, name, a + i, #[trigger] dims[a])
        },
    decreases n + 1 - i,
{
    if i <= n {
        lemma_axes(h, name, i + 1, n);
        if let Ok(dims) = image_data::axes_from(h, name, i, n) {
            let rest = image_data::axes_from(h, name, i + 1, n)->Ok_0;
            assert(dims.len() == 1 + rest.len());
            assert forall|a: int| 0 <= a < dims.len() implies dimension_is(
                h,
                name,
                a + i,
                #[trigger] dims[a],
            ) by {
                if a > 0 {
                    assert(dims[a] == rest[a - 1]);
                    assert(dimension_is(h, name, a - 1 + (i + 1), rest[a - 1]));
                } else {
                    lemma_size(header::int_of(h, name + text::decimal(i as int))->0);
                }
            }
        }
    }
}

/// A compressed image is what the keywords of its header say.
pub proof fn compressed_image_is_described(h: Seq<KeywordView>, table: BinTableView)
    ensures
        tile_compress::compressed_of(h, table) matches Ok(c) ==> described_by(h, table, c)
            && shaped_by(h, c),
{
    if let Ok(c) = tile_compress::compressed_of(h, table) {
        let n = header::int_of(h, "ZNAXIS"@)->0;
        lemma_axes(h, "ZNAXIS"@, 1, casts::size_of(n) as nat);
    }
}

/// Whether the parameter of number `i` has a name, in any case.
pub open spec fn names_param(h: Seq<KeywordView>, i: int, name: Seq<char>) -> bool {
    header::string_of(h, "ZNAME"@ + text::decimal(i)) matches Some(s) && text::ascii_upper(
        text::trim(s),
    ) == name
}

/// Whether the parameter of number `i` is the last of the first `n` with a name.
pub open spec fn last_param(h: Seq<KeywordView>, n: nat, i: int, name: Seq<char>) -> bool {
    &&& 1 <= i <= n
    &&& names_param(h, i, name)
    &&& forall|j: int| i < j <= n ==> !#[trigger] names_param(h, j, name)
}

/// Whether none of the first `n` parameters has a name.
pub open spec fn no_param(h: Seq<KeywordView>, n: nat, name: Seq<char>) -> bool {
    forall|j: int| 1 <= j <= n ==> !#[trigger] names_param(h, j, name)
}

/// A parameter has the value that stands beside its name, the last of several; the block size
/// is 32 where it is not given, a sample has four bytes, and nothing is smoothed.
pub proof fn parameters_are_read(h: Seq<KeywordView>, n: nat, i: int)
    ensures
        ({
            let p = tile_compress::params_of(h, n);
            let value = header::int_of(h, "ZVAL"@ + text::decimal(i));
            &&& no_param(h, n, "BLOCKSIZE"@) ==> p.blocksize == 32
            &&& no_param(h, n, "BYTEPIX"@) ==> p.bytepix == 4
            &&& no_param(h, n, "SMOOTH"@) ==> p.smooth == 0
            &&& value matches Some(v) ==> {
                &&& last_param(h, n, i, "BLOCKSIZE"@) ==> size_is(v, p.blocksize)
                &&& last_param(h, n, i, "BYTEPIX"@) ==> size_is(v, p.bytepix)
                &&& last_param(h, n, i, "SMOOTH"@) && i32::MIN <= v <= i32::MAX ==> p.smooth == v
            }
        }),
    decreases n,
{
    if n > 0 {
        let m = (n - 1) as nat;
        parameters_are_read(h, m, i);
        reveal_strlit("BLOCKSIZE");
        reveal_strlit("BYTEPIX");
        reveal_strlit("SMOOTH");
        assert("BLOCKSIZE"@.len() == 9 && "BYTEPIX"@.len() == 7 && "SMOOTH"@.len() == 6);
        let p = tile_compress::params_of(h, n);
        let q = tile_compress::params_of(h, m);
        assert(p == tile_compress::with_param(q, h, n));
        lemma_param_step(h, n, "BLOCKSIZE"@, i);
        lemma_param_step(h, n, "BYTEPIX"@, i);
        lemma_param_step(h, n, "SMOOTH"@, i);
    }
}

proof fn lemma_param_step(h: Seq<KeywordView>, n: nat, name: Seq<char>, i: int)
    requires
        n > 0,
    ensures
        no_param(h, n, name) ==> !names_param(h, n as int, name) && no_param(h, (n - 1) as nat, name),
        last_param(h, n, i, name) && i < n ==> !names_param(h, n as int, name) && last_param(
            h,
            (n - 1) as nat,
            i,
            name,
        ),
        last_param(h, n, n as int, name) ==> names_param(h, n as int, name),
{
}

/// The parameters are numbered from one on without a gap.
pub proof fn parameters_are_numbered(h: Seq<KeywordView>, n: nat)
    requires
        n <= h.len(),
    ensures
        n <= tile_compress::param_count(h, n) <= h.len(),
        forall|i: int|
            n < i <= tile_compress::param_count(h, n) ==> header::position(
                h,
                #[trigger] ("ZNAME"@ + text::decimal(i)),
            ) < h.len(),
        tile_compress::param_count(h, n) < h.len() ==> header::position(
            h,
            "ZNAME"@ + text::decimal(tile_compress::param_count(h, n) as int + 1),
        ) >= h.len(),
    decreases h.len() - n,
{
    if n < h.len() && header::position(h, "ZNAME"@ + text::decimal(n as int + 1)) < h.len() {
        parameters_are_numbered(h, n + 1);
    }
}

/// A sample is cut to a pixel by what it is more than the pixel holds, a whole number of times;
/// one that the pixel holds is kept.
pub proof fn samples_are_cut(kind: Bitpix, v: int)
    requires
        i64::MIN <= v <= i64::MAX,
        tile_reading::integer_kind(kind) || kind == Bitpix::I64,
    ensures
        ({
            let signed = kind != Bitpix::U8;
            let m = bigendian::byte_power(kind.width()) as int;
            let r = tile_compress::narrow(kind, v);
            &&& words::word_holds(signed, kind.width(), r)
            &&& (v - r) % m == 0
            &&& words::word_holds(signed, kind.width(), v) ==> r == v
        }),
{
    bigendian::lemma_byte_powers();
    let m = bigendian::byte_power(kind.width()) as int;
    let r = tile_compress::narrow(kind, v);
    vstd::arithmetic::div_mod::lemma_fundamental_div_mod(v, m);
    let q = v / m;
    if kind == Bitpix::I64 {
        vstd::arithmetic::div_mod::lemma_small_mod(0, m as nat);
    } else {
        assert(v - r == m * q || v - r == m * q + m);
    }
    assert(m * q + m == m * (q + 1)) by (nonlinear_arith);
    assert(m * q == q * m && m * (q + 1) == (q + 1) * m) by (nonlinear_arith);
    vstd::arithmetic::div_mod::lemma_mod_multiples_basic(q, m);
    vstd::arithmetic::div_mod::lemma_mod_multiples_basic(q + 1, m);
}

/// The tiles are in the column `COMPRESSED_DATA`, one in each row, and there may be more rows
/// than tiles, but not fewer.
pub proof fn tiles_are_in_column(c: CompressedView, q: int)
    requires
        grid::volume(c.geometry.znaxis) <= usize::MAX,
        c.table.columns.len() <= usize::MAX,
    ensures
        is_column(c.table.columns, "COMPRESSED_DATA"@, q) && c.geometry.tiles() <= c.table.nrows
            ==> tile_compress::tile_column(c) == Ok::<int, ErrorView>(q),
        no_column(c.table.columns, "COMPRESSED_DATA"@) ==> tile_compress::tile_column(c) is Err,
        c.geometry.tiles() > c.table.nrows ==> tile_compress::tile_column(c) is Err,
{
    if is_column(c.table.columns, "COMPRESSED_DATA"@, q) {
        lemma_column(c.table.columns, "COMPRESSED_DATA"@, q);
    }
    if no_column(c.table.columns, "COMPRESSED_DATA"@) {
        lemma_no_column(c.table.columns, "COMPRESSED_DATA"@);
    }
}

/// RICE_1 samples have one, two or four bytes, and no other number of them; HCOMPRESS_1 images
/// are not smoothed.
pub proof fn other_parameters_are_refused(c: CompressedView, raw: Seq<u8>, n: nat)
    ensures
        c.ctype == CompressionType::Rice1 && c.params.bytepix != 1 && c.params.bytepix != 2
            && c.params.bytepix != 4 ==> tile_compress::stream_samples(c, raw, n) is Err,
        c.ctype == CompressionType::Hcompress1 && c.params.smooth != 0
            ==> tile_compress::stream_samples(c, raw, n) is Err,
{
    reveal(tile_compress::byte_tile);
    reveal(tile_compress::hcompress_tile);
}

} // verus!
