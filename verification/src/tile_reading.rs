//! What decompressing gives back of images that were compressed.
use crate::bigendian;
use crate::bintable;
use crate::bintable::{BinTableView, CellView};
use crate::brief_headers;
use crate::casts;
use crate::error::ErrorView;
use crate::file_reading;
use crate::grid;
use crate::gzip;
use crate::hdu::{DataView, HduView};
use crate::header;
use crate::image_data;
use crate::image_data::{ImageView, PixelView};
use crate::keyword::{KeywordView, ValueView};
use crate::keyword_names;
use crate::rice;
use crate::text;
use crate::tile_compress;
use crate::tile_compress::{CompressedView, CompressionType, FloatTileView, Params, Quantize};
use crate::tile_encode;
use crate::tile_encode::CompressOptions;
use crate::types::Bitpix;
use crate::words;
use vstd::prelude::*;

verus! {

/// Where the bytes of tile `k` start in the heap of a table of tiles.
pub open spec fn tile_offset(encs: Seq<Seq<u8>>, k: int) -> nat
    decreases k,
{
    if k <= 0 {
        0
    } else {
        tile_offset(encs, k - 1) + encs[k - 1].len()
    }
}

pub proof fn lemma_offset_same(a: Seq<Seq<u8>>, b: Seq<Seq<u8>>, k: int)
    requires
        0 <= k <= a.len(),
        k <= b.len(),
        forall|i: int| 0 <= i < k ==> #[trigger] a[i] == b[i],
    ensures
        tile_offset(a, k) == tile_offset(b, k),
    decreases k,
{
    if k > 0 {
        lemma_offset_same(a, b, k - 1);
        assert(a[k - 1] == b[k - 1]);
    }
}

/// What a row of a table of tiles holds: the descriptor of its tile, whose bytes are in the
/// heap.
pub open spec fn row_holds(t: BinTableView, encs: Seq<Seq<u8>>, k: int) -> bool {
    let o = tile_offset(encs, k);
    &&& bintable::cell_data(t, k as usize, 0) == Ok::<Seq<u8>, ErrorView>(
        tile_encode::tile_descriptor(encs[k].len(), o),
    )
    &&& o + encs[k].len() <= t.heap.len()
    &&& t.heap.subrange(o as int, (o + encs[k].len()) as int) == encs[k]
}

/// The rows of a table of tiles.
proof fn lemma_tile_table(encs: Seq<Seq<u8>>)
    requires
        encs.len() <= usize::MAX,
    ensures
        ({
            let t = tile_encode::tile_table(encs);
            &&& t.nrows == encs.len()
            &&& t.row_len == 8
            &&& t.columns == seq![
                tile_encode::tile_table_column(
                    "COMPRESSED_DATA"@,
                    bintable::BinColumnType::VarP('B'),
                ),
            ]
            &&& t.main_data.len() == 8 * encs.len()
            &&& t.heap.len() == tile_offset(encs, encs.len() as int)
            &&& forall|k: int| 0 <= k < encs.len() ==> #[trigger] row_holds(t, encs, k)
        }),
    decreases encs.len(),
{
    let t = tile_encode::tile_table(encs);
    if encs.len() > 0 {
        let front = encs.drop_last();
        let enc = encs.last();
        let n = front.len() as int;
        let before = tile_encode::tile_table(front);
        let d = tile_encode::tile_descriptor(enc.len(), before.heap.len());
        let heap = before.heap + enc;
        lemma_tile_table(front);
        lemma_offset_same(front, encs, n);
        assert(t == bintable::with_row(before, d, heap));
        assert(bintable::column_offset(before.columns, 0) == 0);
        bintable::pushed_row_cells(before, d, heap, 0);
        bigendian::lemma_be_digits_len(
            (((enc.len() as usize) as i32) as int % bigendian::byte_power(4) as int) as nat,
            4,
        );
        bigendian::lemma_be_digits_len(before.heap.len(), 4);
        assert(bintable::row_bytes(d, 8).subrange(0, 8) =~= d);
        assert forall|k: int| 0 <= k < encs.len() implies #[trigger] row_holds(t, encs, k) by {
            let o = tile_offset(encs, k) as int;
            if k < n {
                assert(front[k] == encs[k]);
                lemma_offset_same(front, encs, k);
                assert(row_holds(before, front, k));
                assert(t.heap.subrange(o, o + encs[k].len()) =~= before.heap.subrange(
                    o,
                    o + encs[k].len(),
                ));
            } else {
                assert(t.heap.subrange(before.heap.len() as int, t.heap.len() as int) =~= enc);
            }
        }
    }
}

/// A descriptor gives the length and the place that it was made for.
pub proof fn lemma_descriptor(n: nat, o: nat)
    requires
        n <= i32::MAX,
        o <= i32::MAX,
    ensures
        ({
            let d = tile_encode::tile_descriptor(n, o);
            &&& casts::size_of(bigendian::be_signed(d.subrange(0, 4))) == n
            &&& casts::size_of(bigendian::be_signed(d.subrange(4, 8))) == o
        }),
{
    let a = bigendian::be_signed_digits(n as int, 4);
    let b = bigendian::be_digits(o, 4);
    bigendian::lemma_byte_powers();
    bigendian::lemma_be_digits_len((n as int % 0x1_0000_0000) as nat, 4);
    bigendian::lemma_be_digits_len(o, 4);
    bigendian::be_signed_round_trip(n as int, 4);
    bigendian::be_signed_round_trip(o as int, 4);
    vstd::arithmetic::div_mod::lemma_small_mod(o, 0x1_0000_0000);
    assert((a + b).subrange(0, 4) =~= a);
    assert((a + b).subrange(4, 8) =~= b);
    assert(tile_encode::tile_descriptor(n, o) == a + b);
}

/// An array of bytes at its place in the heap.
pub proof fn lemma_byte_array(heap: Seq<u8>, bytes: Seq<u8>, o: nat)
    requires
        o + bytes.len() <= heap.len(),
        heap.len() <= i32::MAX,
        heap.subrange(o as int, (o + bytes.len()) as int) == bytes,
    ensures
        bintable::heap_array(heap, 'B', bytes.len() as usize, o as usize) == Ok::<
            CellView,
            ErrorView,
        >(CellView::Bytes(bytes)),
{
    if bytes.len() == 0 {
        assert(bytes =~= Seq::empty());
    }
}

/// The cells of a table of tiles hold the tiles.
proof fn lemma_tile_cell(encs: Seq<Seq<u8>>, k: int)
    requires
        encs.len() <= usize::MAX,
        0 <= k < encs.len(),
        tile_encode::tile_table(encs).heap.len() <= i32::MAX,
    ensures
        bintable::table_cell(tile_encode::tile_table(encs), k as usize, 0) == Ok::<
            CellView,
            ErrorView,
        >(CellView::Bytes(encs[k])),
{
    let t = tile_encode::tile_table(encs);
    lemma_tile_table(encs);
    assert(row_holds(t, encs, k));
    let n = encs[k].len();
    let o = tile_offset(encs, k);
    lemma_descriptor(n, o);
    lemma_byte_array(t.heap, encs[k], o);
}

/// What is found in one list of keywords and, behind it, in another.
proof fn lemma_found_concat(a: Seq<KeywordView>, b: Seq<KeywordView>, name: Seq<char>)
    ensures
        keyword_names::found(a + b, name) == (match keyword_names::found(a, name) {
            Some(v) => Some(v),
            None => keyword_names::found(b, name),
        }),
{
    header::lemma_position(a, name);
    header::lemma_position(b, name);
    header::lemma_position(a + b, name);
    let p = header::position(a, name);
    let q = header::position(b, name);
    let c = a + b;
    if p < a.len() {
        assert forall|i: int| 0 <= i < p implies !text::same_ignoring_case(
            #[trigger] c[i].name,
            name,
        ) by {
            assert(c[i] == a[i]);
        }
        assert(c[p] == a[p]);
        header::lemma_position_is(c, name, p);
    } else {
        assert forall|i: int| 0 <= i < a.len() + q implies !text::same_ignoring_case(
            #[trigger] c[i].name,
            name,
        ) by {
            if i < a.len() {
                assert(c[i] == a[i]);
            } else {
                assert(c[i] == b[i - a.len()]);
            }
        }
        if q < b.len() {
            assert(c[a.len() + q] == b[q]);
            header::lemma_position_is(c, name, a.len() + q);
        } else {
            let r = header::position(c, name);
            if r < c.len() {
                assert(!text::same_ignoring_case(c[r].name, name));
            }
        }
    }
}

/// A name that is neither one of a table's layout nor of its columns.
pub open spec fn no_table_name(name: Seq<char>) -> bool {
    &&& keyword_names::upper_name(name)
    &&& !file_reading::layout_head(name)
    &&& !file_reading::column_head(name)
}

/// The keywords of a table say nothing under other names.
proof fn lemma_table_silent(t: BinTableView, form: ValueView, c: Option<Seq<char>>, name: Seq<char>)
    requires
        no_table_name(name),
    ensures
        keyword_names::found(
            header::with_set(bintable::with_table(Seq::empty(), t), "TFORM1"@, form, c),
            name,
        ) is None,
{
    let base = bintable::with_layout(
        Seq::empty(),
        "BINTABLE"@,
        "binary table extension"@,
        t.row_len,
        t.nrows,
        ((t.heap.len() as usize) as i64) as int,
        ((t.columns.len() as usize) as i64) as int,
    );
    file_reading::lemma_bin_columns(base, t.columns);
    file_reading::lemma_columns_frame(base, file_reading::all_bin_fields(t.columns), name);
    file_reading::lemma_layout_frame(
        Seq::empty(),
        "BINTABLE"@,
        "binary table extension"@,
        t.row_len,
        t.nrows,
        ((t.heap.len() as usize) as i64) as int,
        ((t.columns.len() as usize) as i64) as int,
        name,
    );
    reveal_strlit("TFORM1");
    assert(text::ascii_upper("TFORM1"@) =~= "TFORM1"@);
    keyword_names::lemma_heads_differ("TFORM1"@, name);
    keyword_names::found_after_set(
        bintable::with_table(Seq::empty(), t),
        "TFORM1"@,
        form,
        c,
        name,
    );
    assert(keyword_names::found(Seq::empty(), name) is None);
}

/// What a compressed image's header says under a name that its table does not use.
proof fn lemma_compressed_found(z: Seq<KeywordView>, t: BinTableView, longest: int, name: Seq<char>)
    requires
        no_table_name(name),
    ensures
        keyword_names::found(tile_encode::compressed_header(z, t, longest), name)
            == keyword_names::found(z, name),
{
    let form = ValueView::Text("1PB("@ + text::decimal(longest) + ")"@);
    let a = header::with_set(
        bintable::with_table(Seq::empty(), t),
        "TFORM1"@,
        form,
        Some("variable length array"@),
    );
    lemma_table_silent(t, form, Some("variable length array"@), name);
    lemma_found_concat(a, z, name);
}

/// What a header says behind a keyword that was set, under its name and under names that
/// start otherwise.
pub proof fn lemma_set_frame(
    h: Seq<KeywordView>,
    key: Seq<char>,
    value: ValueView,
    comment: Option<Seq<char>>,
)
    requires
        keyword_names::upper_name(key),
    ensures
        ({
            let g = header::with_set(h, key, value, comment);
            &&& keyword_names::found(g, key) == Some(Some(value))
            &&& forall|name: Seq<char>|
                keyword_names::upper_name(name) && keyword_names::head(name)
                    != keyword_names::head(key) ==> #[trigger] keyword_names::found(g, name)
                    == keyword_names::found(h, name)
        }),
{
    let g = header::with_set(h, key, value, comment);
    keyword_names::found_after_set(h, key, value, comment, key);
    assert forall|name: Seq<char>|
        keyword_names::upper_name(name) && keyword_names::head(name) != keyword_names::head(
            key,
        ) implies #[trigger] keyword_names::found(g, name) == keyword_names::found(h, name) by {
        keyword_names::lemma_heads_differ(key, name);
        keyword_names::found_after_set(h, key, value, comment, name);
    }
}

/// What a header says behind numbered keywords that were set.
proof fn lemma_numbered_frame(
    h: Seq<KeywordView>,
    key: Seq<char>,
    values: Seq<usize>,
    comment: Option<Seq<char>>,
)
    requires
        keyword_names::upper_name(key),
    ensures
        ({
            let g = tile_encode::with_numbered(h, key, values, comment);
            &&& keyword_names::found(g, key) == keyword_names::found(h, key)
            &&& forall|name: Seq<char>|
                keyword_names::upper_name(name) && keyword_names::head(name)
                    != keyword_names::head(key) ==> #[trigger] keyword_names::found(g, name)
                    == keyword_names::found(h, name)
            &&& forall|k: int|
                0 <= k < values.len() ==> keyword_names::found(
                    g,
                    keyword_names::numbered(key, k + 1),
                ) == Some(Some(ValueView::Integer((#[trigger] values[k] as i64) as int)))
        }),
    decreases values.len(),
{
    let g = tile_encode::with_numbered(h, key, values, comment);
    if values.len() > 0 {
        let front = values.drop_last();
        let n = values.len() as int;
        let before = tile_encode::with_numbered(h, key, front, comment);
        let last = keyword_names::numbered(key, n);
        let value = ValueView::Integer((values.last() as i64) as int);
        lemma_numbered_frame(h, key, front, comment);
        keyword_names::lemma_numbered(key, n);
        keyword_names::lemma_numbers_differ(key, n, n);
        lemma_set_frame(before, last, value, comment);
        keyword_names::found_after_set(before, last, value, comment, key);
        assert forall|k: int| 0 <= k < values.len() implies keyword_names::found(
            g,
            keyword_names::numbered(key, k + 1),
        ) == Some(Some(ValueView::Integer((#[trigger] values[k] as i64) as int))) by {
            keyword_names::lemma_numbers_differ(key, n, k + 1);
            keyword_names::found_after_set(
                before,
                last,
                value,
                comment,
                keyword_names::numbered(key, k + 1),
            );
            if k < n - 1 {
                assert(front[k] == values[k]);
            }
        }
    }
}

proof fn lemma_param_names()
    ensures
        "ZNAME1"@ == keyword_names::numbered("ZNAME"@, 1),
        "ZNAME2"@ == keyword_names::numbered("ZNAME"@, 2),
        "ZVAL1"@ == keyword_names::numbered("ZVAL"@, 1),
        "ZVAL2"@ == keyword_names::numbered("ZVAL"@, 2),
{
    reveal_strlit("ZNAME");
    reveal_strlit("ZNAME1");
    reveal_strlit("ZNAME2");
    reveal_strlit("ZVAL");
    reveal_strlit("ZVAL1");
    reveal_strlit("ZVAL2");
    assert(text::decimal(1) =~= seq!['1']);
    assert(text::decimal(2) =~= seq!['2']);
    assert("ZNAME1"@ =~= keyword_names::numbered("ZNAME"@, 1));
    assert("ZNAME2"@ =~= keyword_names::numbered("ZNAME"@, 2));
    assert("ZVAL1"@ =~= keyword_names::numbered("ZVAL"@, 1));
    assert("ZVAL2"@ =~= keyword_names::numbered("ZVAL"@, 2));
}

/// What a header says of the parameters of an algorithm.
pub open spec fn says_params(g: Seq<KeywordView>, params: Option<(usize, usize)>) -> bool {
    match params {
        None => keyword_names::found(g, keyword_names::numbered("ZNAME"@, 1)) is None,
        Some((blocksize, bytepix)) => {
            &&& keyword_names::found(g, keyword_names::numbered("ZNAME"@, 1)) == Some(
                Some(ValueView::Text("BLOCKSIZE"@)),
            )
            &&& keyword_names::found(g, keyword_names::numbered("ZVAL"@, 1)) == Some(
                Some(ValueView::Integer((blocksize as i64) as int)),
            )
            &&& keyword_names::found(g, keyword_names::numbered("ZNAME"@, 2)) == Some(
                Some(ValueView::Text("BYTEPIX"@)),
            )
            &&& keyword_names::found(g, keyword_names::numbered("ZVAL"@, 2)) == Some(
                Some(ValueView::Integer((bytepix as i64) as int)),
            )
            &&& keyword_names::found(g, keyword_names::numbered("ZNAME"@, 3)) is None
        },
    }
}

/// What a header says behind the parameters of an algorithm.
proof fn lemma_params_found(h: Seq<KeywordView>, params: Option<(usize, usize)>)
    requires
        forall|i: int|
            1 <= i <= 3 ==> keyword_names::found(
                h,
                #[trigger] keyword_names::numbered("ZNAME"@, i),
            ) is None,
    ensures
        ({
            let g = tile_encode::with_rice_params(h, params);
            &&& says_params(g, params)
            &&& forall|name: Seq<char>|
                keyword_names::upper_name(name) && keyword_names::head(name) != (
                    'Z',
                    'N',
                    'A',
                    'M',
                ) && keyword_names::head(name) != ('Z', 'V', 'A', 'L')
                    ==> #[trigger] keyword_names::found(g, name) == keyword_names::found(h, name)
        }),
{
    keyword_names::lemma_compression_names();
    lemma_param_names();
    let n1 = keyword_names::numbered("ZNAME"@, 1);
    let n2 = keyword_names::numbered("ZNAME"@, 2);
    let n3 = keyword_names::numbered("ZNAME"@, 3);
    let v1 = keyword_names::numbered("ZVAL"@, 1);
    let v2 = keyword_names::numbered("ZVAL"@, 2);
    keyword_names::lemma_numbered("ZNAME"@, 1);
    keyword_names::lemma_numbered("ZNAME"@, 2);
    keyword_names::lemma_numbered("ZNAME"@, 3);
    keyword_names::lemma_numbered("ZVAL"@, 1);
    keyword_names::lemma_numbered("ZVAL"@, 2);
    assert(keyword_names::found(h, n1) is None);
    assert(keyword_names::found(h, n3) is None);
    if let Some((blocksize, bytepix)) = params {
        let a = ValueView::Text("BLOCKSIZE"@);
        let b = ValueView::Integer((blocksize as i64) as int);
        let c = ValueView::Text("BYTEPIX"@);
        let d = ValueView::Integer((bytepix as i64) as int);
        let h1 = header::with_set(h, n1, a, None);
        let h2 = header::with_set(h1, v1, b, None);
        let h3 = header::with_set(h2, n2, c, None);
        let h4 = header::with_set(h3, v2, d, None);
        lemma_set_frame(h, n1, a, None);
        lemma_set_frame(h1, v1, b, None);
        lemma_set_frame(h2, n2, c, None);
        lemma_set_frame(h3, v2, d, None);
        keyword_names::lemma_numbers_differ("ZNAME"@, 1, 3);
        keyword_names::lemma_numbers_differ("ZNAME"@, 2, 1);
        keyword_names::lemma_numbers_differ("ZNAME"@, 2, 3);
        keyword_names::lemma_numbers_differ("ZVAL"@, 2, 1);
        keyword_names::found_after_set(h, n1, a, None, n3);
        keyword_names::found_after_set(h2, n2, c, None, n1);
        keyword_names::found_after_set(h2, n2, c, None, n3);
        keyword_names::found_after_set(h3, v2, d, None, v1);
        assert(keyword_names::found(h4, n1) == keyword_names::found(h3, n1));
        assert(keyword_names::found(h2, n1) == keyword_names::found(h1, n1));
        assert(keyword_names::found(h4, n3) == keyword_names::found(h3, n3));
        assert(keyword_names::found(h2, n3) == keyword_names::found(h1, n3));
        assert(keyword_names::found(h4, n2) == keyword_names::found(h3, n2));
        assert(keyword_names::found(h3, v1) == keyword_names::found(h2, v1));
    }
}

/// What the driver keywords of a compressed image say of its algorithm and its shape.
pub open spec fn says_shape(
    z: Seq<KeywordView>,
    kind: Bitpix,
    axes: Seq<usize>,
    ztile: Seq<usize>,
    algorithm: CompressionType,
) -> bool {
    &&& keyword_names::found(z, "ZIMAGE"@) == Some(Some(ValueView::Logical(true)))
    &&& keyword_names::found(z, "ZCMPTYPE"@) == Some(Some(ValueView::Text(algorithm.name())))
    &&& keyword_names::found(z, "ZBITPIX"@) == Some(Some(ValueView::Integer(kind.number())))
    &&& keyword_names::found(z, "ZNAXIS"@) == Some(
        Some(ValueView::Integer((axes.len() as i64) as int)),
    )
    &&& forall|k: int|
        0 <= k < axes.len() ==> keyword_names::found(
            z,
            keyword_names::numbered("ZNAXIS"@, k + 1),
        ) == Some(Some(ValueView::Integer((#[trigger] axes[k] as i64) as int)))
    &&& forall|k: int|
        0 <= k < ztile.len() ==> keyword_names::found(
            z,
            keyword_names::numbered("ZTILE"@, k + 1),
        ) == Some(Some(ValueView::Integer((#[trigger] ztile[k] as i64) as int)))
}

/// What the driver keywords of a compressed image that is not quantized say.
pub open spec fn says_image(
    z: Seq<KeywordView>,
    kind: Bitpix,
    axes: Seq<usize>,
    ztile: Seq<usize>,
    algorithm: CompressionType,
) -> bool {
    &&& says_shape(z, kind, axes, ztile, algorithm)
    &&& keyword_names::found(z, "ZDITHER0"@) is None
    &&& keyword_names::found(z, "ZBLANK"@) is None
}

/// Headers that say the same under the names of the shape say the same of it.
pub proof fn lemma_says_shape_same(
    g: Seq<KeywordView>,
    h: Seq<KeywordView>,
    kind: Bitpix,
    axes: Seq<usize>,
    ztile: Seq<usize>,
    algorithm: CompressionType,
)
    requires
        says_shape(h, kind, axes, ztile, algorithm),
        forall|name: Seq<char>|
            keyword_names::upper_name(name) && {
                let f = keyword_names::head(name);
                f == ('Z', 'I', 'M', 'A') || f == ('Z', 'C', 'M', 'P') || f == ('Z', 'B', 'I', 'T')
                    || f == ('Z', 'N', 'A', 'X') || f == ('Z', 'T', 'I', 'L')
            } ==> #[trigger] keyword_names::found(g, name) == keyword_names::found(h, name),
    ensures
        says_shape(g, kind, axes, ztile, algorithm),
{
    keyword_names::lemma_compression_names();
    assert forall|k: int| 0 <= k < axes.len() implies keyword_names::found(
        g,
        keyword_names::numbered("ZNAXIS"@, k + 1),
    ) == Some(Some(ValueView::Integer((#[trigger] axes[k] as i64) as int))) by {
        keyword_names::lemma_numbered("ZNAXIS"@, k + 1);
    }
    assert forall|k: int| 0 <= k < ztile.len() implies keyword_names::found(
        g,
        keyword_names::numbered("ZTILE"@, k + 1),
    ) == Some(Some(ValueView::Integer((#[trigger] ztile[k] as i64) as int))) by {
        keyword_names::lemma_numbered("ZTILE"@, k + 1);
    }
}

/// A name that no driver keyword has.
pub open spec fn no_driver_name(name: Seq<char>) -> bool {
    &&& keyword_names::upper_name(name)
    &&& keyword_names::head(name).0 != 'Z'
    &&& keyword_names::head(name) != ('E', 'X', 'T', 'N')
}

/// Whether a list of keywords says nothing under other names than those of the driver
/// keywords.
pub open spec fn no_driver_names(z: Seq<KeywordView>) -> bool {
    forall|name: Seq<char>|
        no_driver_name(name) ==> #[trigger] keyword_names::found(z, name) is None
}

/// The driver keywords before those of the original image.
proof fn lemma_start_found(
    ztile: Seq<usize>,
    algorithm: CompressionType,
    params: Option<(usize, usize)>,
)
    ensures
        ({
            let z = tile_encode::z_start(ztile, algorithm, params);
            &&& keyword_names::found(z, "ZIMAGE"@) == Some(Some(ValueView::Logical(true)))
            &&& keyword_names::found(z, "ZCMPTYPE"@) == Some(
                Some(ValueView::Text(algorithm.name())),
            )
            &&& forall|k: int|
                0 <= k < ztile.len() ==> keyword_names::found(
                    z,
                    keyword_names::numbered("ZTILE"@, k + 1),
                ) == Some(Some(ValueView::Integer((#[trigger] ztile[k] as i64) as int)))
            &&& says_params(z, params)
            &&& keyword_names::found(z, "ZDITHER0"@) is None
            &&& keyword_names::found(z, "ZBLANK"@) is None
            &&& keyword_names::found(z, "ZQUANTIZ"@) is None
            &&& no_driver_names(z)
        }),
{
    keyword_names::lemma_compression_names();
    let h0 = Seq::<KeywordView>::empty();
    let c1 = Some("extension contains compressed image"@);
    let c2 = Some("size of tiles to be compressed"@);
    let c3 = Some("compression algorithm"@);
    let h1 = header::with_set(h0, "ZIMAGE"@, ValueView::Logical(true), c1);
    let h2 = tile_encode::with_numbered(h1, "ZTILE"@, ztile, c2);
    let h3 = header::with_set(h2, "ZCMPTYPE"@, ValueView::Text(algorithm.name()), c3);
    let z = tile_encode::with_rice_params(h3, params);
    lemma_set_frame(h0, "ZIMAGE"@, ValueView::Logical(true), c1);
    lemma_numbered_frame(h1, "ZTILE"@, ztile, c2);
    lemma_set_frame(h2, "ZCMPTYPE"@, ValueView::Text(algorithm.name()), c3);
    assert forall|name: Seq<char>| #[trigger] keyword_names::found(h0, name) is None by {}
    assert forall|i: int| 1 <= i <= 3 implies keyword_names::found(
        h3,
        #[trigger] keyword_names::numbered("ZNAME"@, i),
    ) is None by {
        let m = keyword_names::numbered("ZNAME"@, i);
        keyword_names::lemma_numbered("ZNAME"@, i);
        assert(keyword_names::found(h3, m) == keyword_names::found(h2, m));
        assert(keyword_names::found(h2, m) == keyword_names::found(h1, m));
        assert(keyword_names::found(h1, m) == keyword_names::found(h0, m));
    }
    lemma_params_found(h3, params);
    assert forall|k: int| 0 <= k < ztile.len() implies keyword_names::found(
        z,
        keyword_names::numbered("ZTILE"@, k + 1),
    ) == Some(Some(ValueView::Integer((#[trigger] ztile[k] as i64) as int))) by {
        let m = keyword_names::numbered("ZTILE"@, k + 1);
        keyword_names::lemma_numbered("ZTILE"@, k + 1);
        assert(keyword_names::found(z, m) == keyword_names::found(h3, m));
        assert(keyword_names::found(h3, m) == keyword_names::found(h2, m));
    }
    assert forall|name: Seq<char>| no_driver_name(name) implies #[trigger] keyword_names::found(
        z,
        name,
    ) is None by {
        assert(keyword_names::found(z, name) == keyword_names::found(h3, name));
        assert(keyword_names::found(h3, name) == keyword_names::found(h2, name));
        assert(keyword_names::found(h2, name) == keyword_names::found(h1, name));
        assert(keyword_names::found(h1, name) == keyword_names::found(h0, name));
    }
    assert(keyword_names::found(z, "ZIMAGE"@) == keyword_names::found(h3, "ZIMAGE"@));
    assert(keyword_names::found(h2, "ZIMAGE"@) == keyword_names::found(h1, "ZIMAGE"@));
    assert(keyword_names::found(h1, "ZDITHER0"@) == keyword_names::found(h0, "ZDITHER0"@));
    assert(keyword_names::found(h1, "ZBLANK"@) == keyword_names::found(h0, "ZBLANK"@));
    assert(keyword_names::found(h1, "ZQUANTIZ"@) == keyword_names::found(h0, "ZQUANTIZ"@));
}

/// What the driver keywords of a compressed image say.
pub proof fn lemma_z_found(
    kind: Bitpix,
    axes: Seq<usize>,
    ztile: Seq<usize>,
    algorithm: CompressionType,
    params: Option<(usize, usize)>,
)
    ensures
        ({
            let z = tile_encode::z_header(kind, axes, ztile, algorithm, params);
            &&& says_image(z, kind, axes, ztile, algorithm)
            &&& says_params(z, params)
            &&& keyword_names::found(z, "ZQUANTIZ"@) is None
            &&& no_driver_names(z)
        }),
{
    keyword_names::lemma_compression_names();
    lemma_start_found(ztile, algorithm, params);
    let count = ValueView::Integer((axes.len() as i64) as int);
    let width = ValueView::Integer(kind.number());
    let h4 = tile_encode::z_start(ztile, algorithm, params);
    let h5 = header::with_set(h4, "EXTNAME"@, ValueView::Text("COMPRESSED_IMAGE"@), None);
    let c6 = Some("Image extension"@);
    let h6 = header::with_set(h5, "ZTENSION"@, ValueView::Text("IMAGE"@), c6);
    let c7 = Some("data type of original image"@);
    let h7 = header::with_set(h6, "ZBITPIX"@, width, c7);
    let c8 = Some("dimension of original image"@);
    let h8 = header::with_set(h7, "ZNAXIS"@, count, c8);
    let h9 = tile_encode::with_numbered(h8, "ZNAXIS"@, axes, None);
    let c10 = Some("original PCOUNT"@);
    let h10 = header::with_set(h9, "ZPCOUNT"@, ValueView::Integer(0), c10);
    let c11 = Some("original GCOUNT"@);
    let z = header::with_set(h10, "ZGCOUNT"@, ValueView::Integer(1), c11);
    lemma_set_frame(h4, "EXTNAME"@, ValueView::Text("COMPRESSED_IMAGE"@), None);
    lemma_set_frame(h5, "ZTENSION"@, ValueView::Text("IMAGE"@), c6);
    lemma_set_frame(h6, "ZBITPIX"@, width, c7);
    lemma_set_frame(h7, "ZNAXIS"@, count, c8);
    lemma_numbered_frame(h8, "ZNAXIS"@, axes, None);
    lemma_set_frame(h9, "ZPCOUNT"@, ValueView::Integer(0), c10);
    lemma_set_frame(h10, "ZGCOUNT"@, ValueView::Integer(1), c11);
    assert(z == tile_encode::z_header(kind, axes, ztile, algorithm, params));
    assert forall|name: Seq<char>|
        keyword_names::upper_name(name) && {
            let f = keyword_names::head(name);
            f == ('Z', 'I', 'M', 'A') || f == ('Z', 'C', 'M', 'P') || f == ('Z', 'T', 'I', 'L')
                || f == ('Z', 'N', 'A', 'M') || f == ('Z', 'V', 'A', 'L') || f == (
                'Z',
                'D',
                'I',
                'T',
            ) || f == ('Z', 'B', 'L', 'A') || f == ('Z', 'Q', 'U', 'A')
        } implies #[trigger] keyword_names::found(z, name) == keyword_names::found(h4, name) by {
        assert(keyword_names::found(z, name) == keyword_names::found(h10, name));
        assert(keyword_names::found(h9, name) == keyword_names::found(h8, name));
        assert(keyword_names::found(h8, name) == keyword_names::found(h7, name));
        assert(keyword_names::found(h7, name) == keyword_names::found(h6, name));
        assert(keyword_names::found(h5, name) == keyword_names::found(h4, name));
    }
    assert forall|name: Seq<char>| no_driver_name(name) implies #[trigger] keyword_names::found(
        z,
        name,
    ) is None by {
        assert(keyword_names::found(z, name) == keyword_names::found(h10, name));
        assert(keyword_names::found(h10, name) == keyword_names::found(h9, name));
        assert(keyword_names::found(h9, name) == keyword_names::found(h8, name));
        assert(keyword_names::found(h8, name) == keyword_names::found(h7, name));
        assert(keyword_names::found(h7, name) == keyword_names::found(h6, name));
        assert(keyword_names::found(h6, name) == keyword_names::found(h5, name));
        assert(keyword_names::found(h5, name) == keyword_names::found(h4, name));
    }
    assert(keyword_names::found(z, "ZBITPIX"@) == keyword_names::found(h10, "ZBITPIX"@));
    assert(keyword_names::found(h9, "ZBITPIX"@) == keyword_names::found(h8, "ZBITPIX"@));
    assert(keyword_names::found(h8, "ZBITPIX"@) == keyword_names::found(h7, "ZBITPIX"@));
    assert(keyword_names::found(z, "ZNAXIS"@) == keyword_names::found(h10, "ZNAXIS"@));
    assert(keyword_names::found(h10, "ZNAXIS"@) == keyword_names::found(h9, "ZNAXIS"@));
    assert forall|k: int| 0 <= k < axes.len() implies keyword_names::found(
        z,
        keyword_names::numbered("ZNAXIS"@, k + 1),
    ) == Some(Some(ValueView::Integer((#[trigger] axes[k] as i64) as int))) by {
        let m = keyword_names::numbered("ZNAXIS"@, k + 1);
        keyword_names::lemma_numbered("ZNAXIS"@, k + 1);
        assert(keyword_names::found(z, m) == keyword_names::found(h10, m));
        assert(keyword_names::found(h10, m) == keyword_names::found(h9, m));
    }
    assert forall|k: int| 0 <= k < ztile.len() implies keyword_names::found(
        z,
        keyword_names::numbered("ZTILE"@, k + 1),
    ) == Some(Some(ValueView::Integer((#[trigger] ztile[k] as i64) as int))) by {
        keyword_names::lemma_numbered("ZTILE"@, k + 1);
        let m = keyword_names::numbered("ZTILE"@, k + 1);
        assert(keyword_names::found(z, m) == keyword_names::found(h4, m));
    }
    assert(keyword_names::found(z, "ZIMAGE"@) == keyword_names::found(h4, "ZIMAGE"@));
    assert(keyword_names::found(z, "ZCMPTYPE"@) == keyword_names::found(h4, "ZCMPTYPE"@));
    assert(keyword_names::found(z, "ZDITHER0"@) == keyword_names::found(h4, "ZDITHER0"@));
    assert(keyword_names::found(z, "ZBLANK"@) == keyword_names::found(h4, "ZBLANK"@));
    assert(keyword_names::found(z, "ZQUANTIZ"@) == keyword_names::found(h4, "ZQUANTIZ"@));
    keyword_names::lemma_numbered("ZNAME"@, 1);
    keyword_names::lemma_numbered("ZNAME"@, 2);
    keyword_names::lemma_numbered("ZNAME"@, 3);
    keyword_names::lemma_numbered("ZVAL"@, 1);
    keyword_names::lemma_numbered("ZVAL"@, 2);
    lemma_says_params_same(z, h4, params);
}

pub proof fn lemma_says_params_same(
    g: Seq<KeywordView>,
    h: Seq<KeywordView>,
    params: Option<(usize, usize)>,
)
    requires
        says_params(h, params),
        forall|name: Seq<char>|
            keyword_names::upper_name(name) && (keyword_names::head(name) == ('Z', 'N', 'A', 'M')
                || keyword_names::head(name) == ('Z', 'V', 'A', 'L'))
                ==> #[trigger] keyword_names::found(g, name) == keyword_names::found(h, name),
    ensures
        says_params(g, params),
{
    keyword_names::lemma_compression_names();
    keyword_names::lemma_numbered("ZNAME"@, 1);
    keyword_names::lemma_numbered("ZNAME"@, 2);
    keyword_names::lemma_numbered("ZNAME"@, 3);
    keyword_names::lemma_numbered("ZVAL"@, 1);
    keyword_names::lemma_numbered("ZVAL"@, 2);
}

/// The parameters that a reader takes from those that were written.
pub open spec fn read_params(params: Option<(usize, usize)>) -> Params {
    match params {
        None => Params { blocksize: 32, bytepix: 4, smooth: 0 },
        Some((blocksize, bytepix)) => Params { blocksize, bytepix, smooth: 0 },
    }
}

/// The parameters of an algorithm are read as they were written.
pub proof fn lemma_params_read(g: Seq<KeywordView>, params: Option<(usize, usize)>)
    requires
        says_params(g, params),
        params matches Some((a, b)) ==> a <= i64::MAX && b <= i64::MAX,
    ensures
        tile_compress::params_of(g, tile_compress::param_count(g, 0)) == read_params(params),
{
    let n1 = keyword_names::numbered("ZNAME"@, 1);
    let n2 = keyword_names::numbered("ZNAME"@, 2);
    let n3 = keyword_names::numbered("ZNAME"@, 3);
    header::lemma_position(g, n1);
    header::lemma_position(g, n2);
    header::lemma_position(g, n3);
    match params {
        None => {
            assert(tile_compress::param_count(g, 0) == 0);
        },
        Some((blocksize, bytepix)) => {
            keyword_names::lemma_compression_names();
            keyword_names::lemma_numbers_differ("ZNAME"@, 1, 2);
            assert(header::position(g, n1) != header::position(g, n2));
            assert(g.len() >= 2);
            assert(tile_compress::param_count(g, 2) == 2);
            assert(tile_compress::param_count(g, 1) == 2);
            assert(tile_compress::param_count(g, 0) == 2);
            file_reading::lemma_size(blocksize);
            file_reading::lemma_size(bytepix);
            reveal_strlit("BLOCKSIZE");
            reveal_strlit("BYTEPIX");
            text::lemma_trim_same("BLOCKSIZE"@);
            text::lemma_trim_same("BYTEPIX"@);
            assert(text::ascii_upper("BLOCKSIZE"@) =~= "BLOCKSIZE"@);
            assert(text::ascii_upper("BYTEPIX"@) =~= "BYTEPIX"@);
            assert("BYTEPIX"@.len() != "BLOCKSIZE"@.len());
            let p0 = Params { blocksize: 32, bytepix: 4, smooth: 0 };
            let p1 = Params { blocksize, bytepix: 4, smooth: 0 };
            assert(tile_compress::params_of(g, 0) == p0);
            assert(tile_compress::with_param(p0, g, 1) == p1);
            assert(tile_compress::params_of(g, 1) == p1);
            assert(tile_compress::with_param(p1, g, 2) == read_params(params));
        },
    }
}

/// Sizes that a header can give.
pub open spec fn header_sizes(v: Seq<usize>) -> bool {
    &&& v.len() <= i64::MAX
    &&& v.len() <= usize::MAX
    &&& forall|k: int| 0 <= k < v.len() ==> #[trigger] v[k] <= i64::MAX
}

/// The tile geometry is read as it was written.
pub proof fn lemma_geometry_read(
    g: Seq<KeywordView>,
    kind: Bitpix,
    axes: Seq<usize>,
    ztile: Seq<usize>,
    algorithm: CompressionType,
)
    requires
        says_shape(g, kind, axes, ztile, algorithm),
        header_sizes(axes),
        header_sizes(ztile),
        axes.len() == ztile.len(),
    ensures
        tile_compress::geometry_of(g) == Ok::<tile_compress::GeometryView, ErrorView>(
            tile_compress::GeometryView { znaxis: axes, ztile },
        ),
{
    file_reading::lemma_size(axes.len() as usize);
    assert forall|k: int| 0 <= k < axes.len() implies #[trigger] axes[k] <= i64::MAX
        && header::int_of(g, "ZNAXIS"@ + text::decimal(k + 1)) == Some(axes[k] as int) by {
        file_reading::lemma_size(axes[k]);
        assert(keyword_names::numbered("ZNAXIS"@, k + 1) == "ZNAXIS"@ + text::decimal(k + 1));
    }
    file_reading::lemma_axes_from(g, "ZNAXIS"@, axes, 1);
    assert(axes.skip(0) =~= axes);
    assert forall|k: int| 0 <= k < axes.len() implies #[trigger] tile_compress::tile_shape(
        g,
        axes,
    )[k] == ztile[k] by {
        file_reading::lemma_size(ztile[k]);
        assert(keyword_names::numbered("ZTILE"@, k + 1) == "ZTILE"@ + text::decimal(k + 1));
    }
    assert(tile_compress::tile_shape(g, axes) =~= ztile);
}

/// What a reader knows of a compressed image.
pub open spec fn compressed_view(
    kind: Bitpix,
    axes: Seq<usize>,
    ztile: Seq<usize>,
    algorithm: CompressionType,
    params: Option<(usize, usize)>,
    t: BinTableView,
) -> CompressedView {
    CompressedView {
        ctype: algorithm,
        zbitpix: kind.number(),
        geometry: tile_compress::GeometryView { znaxis: axes, ztile },
        quantize: Quantize::NoDither,
        zdither0: None,
        blank: None,
        params: read_params(params),
        table: t,
    }
}

/// A header that says what the driver keywords do is read as they were written.
proof fn lemma_compressed_of(
    g: Seq<KeywordView>,
    z: Seq<KeywordView>,
    t: BinTableView,
    kind: Bitpix,
    axes: Seq<usize>,
    ztile: Seq<usize>,
    algorithm: CompressionType,
    params: Option<(usize, usize)>,
)
    requires
        forall|name: Seq<char>|
            no_table_name(name) ==> #[trigger] keyword_names::found(g, name)
                == keyword_names::found(z, name),
        says_image(z, kind, axes, ztile, algorithm),
        says_params(z, params),
        keyword_names::found(z, "ZQUANTIZ"@) is None || keyword_names::found(z, "ZQUANTIZ"@)
            == Some(Some(ValueView::Text("NONE"@))),
        params matches Some((a, b)) ==> a <= i64::MAX && b <= i64::MAX,
        header_sizes(axes),
        header_sizes(ztile),
        axes.len() == ztile.len(),
    ensures
        tile_compress::compressed_of(g, t) == Ok::<CompressedView, ErrorView>(
            compressed_view(kind, axes, ztile, algorithm, params, t),
        ),
{
    keyword_names::lemma_compression_names();
    lemma_says_shape_same(g, z, kind, axes, ztile, algorithm);
    lemma_says_params_same(g, z, params);
    lemma_params_read(g, params);
    lemma_geometry_read(g, kind, axes, ztile, algorithm);
    tile_compress::ctype_of_name(algorithm);
    assert(keyword_names::found(g, "ZQUANTIZ"@) == keyword_names::found(z, "ZQUANTIZ"@));
    assert(keyword_names::found(g, "ZDITHER0"@) == keyword_names::found(z, "ZDITHER0"@));
    assert(keyword_names::found(g, "ZBLANK"@) == keyword_names::found(z, "ZBLANK"@));
    assert(tile_compress::quantize_of(Some("NONE"@)) == Some(Quantize::NoDither)) by {
        reveal_strlit("NONE");
        text::lemma_trim_same("NONE"@);
        assert(text::ascii_upper("NONE"@) =~= "NONE"@);
    }
}

/// An integer pixel type whose images can be compressed.
pub open spec fn integer_kind(kind: Bitpix) -> bool {
    kind == Bitpix::U8 || kind == Bitpix::I16 || kind == Bitpix::I32
}

/// Samples that a pixel type has.
pub open spec fn samples_fit(samples: Seq<i64>, kind: Bitpix) -> bool {
    forall|i: int|
        0 <= i < samples.len() ==> words::word_holds(
            image_data::signed_kind(kind),
            kind.width(),
            #[trigger] samples[i] as int,
        )
}

/// Samples of a tile that RICE_1 encoded are decoded as they were.
proof fn lemma_rice_tile(
    c: CompressedView,
    enc: Seq<u8>,
    samples: Seq<i64>,
    kind: Bitpix,
    blocksize: usize,
)
    requires
        integer_kind(kind),
        samples_fit(samples, kind),
        c.ctype == CompressionType::Rice1,
        c.params.bytepix == kind.width(),
        c.params.blocksize == blocksize,
        tile_encode::encodes(
            enc,
            samples,
            CompressionType::Rice1,
            kind.width() as usize,
            blocksize,
        ),
        rice::code_holds(samples, blocksize, rice::rice_width(kind.width() as int)),
    ensures
        tile_compress::byte_tile(c, enc, samples.len()) == Some(
            tile_compress::numbers_of(samples),
        ),
{
    reveal(tile_compress::byte_tile);
    bigendian::lemma_byte_powers();
    match kind {
        Bitpix::U8 => {
            let v = rice::cut_u8(samples);
            assert forall|i: int| 0 <= i < samples.len() implies #[trigger] rice::widened_u8(v)[i]
                == samples[i] by {
                assert(words::word_holds(false, 1, samples[i] as int));
                vstd::arithmetic::div_mod::lemma_small_mod(samples[i] as nat, 0x100);
            }
            assert(rice::widened_u8(v) =~= samples);
            rice::rice_u8_lossless(enc, v, blocksize);
        },
        Bitpix::I16 => {
            let v = rice::cut_i16(samples);
            assert forall|i: int| 0 <= i < samples.len() implies #[trigger] rice::widened_i16(v)[i]
                == samples[i] by {
                assert(words::word_holds(true, 2, samples[i] as int));
                casts::lemma_signed_residue_small(samples[i] as int, 0x1_0000);
            }
            assert(rice::widened_i16(v) =~= samples);
            rice::rice_i16_lossless(enc, v, blocksize);
        },
        _ => {
            let v = rice::cut_i32(samples);
            assert forall|i: int| 0 <= i < samples.len() implies #[trigger] rice::widened_i32(v)[i]
                == samples[i] by {
                assert(words::word_holds(true, 4, samples[i] as int));
                casts::lemma_signed_residue_small(samples[i] as int, 0x1_0000_0000);
            }
            assert(rice::widened_i32(v) =~= samples);
            rice::rice_i32_lossless(enc, v, blocksize);
        },
    }
}

/// One byte is the same number with a sign or without.
proof fn lemma_bytes_unsigned(values: Seq<int>)
    requires
        forall|i: int| 0 <= i < values.len() ==> 0 <= #[trigger] values[i] < 0x100,
    ensures
        words::words_encoded(true, 1, values) == words::words_encoded(false, 1, values),
    decreases values.len(),
{
    if values.len() > 0 {
        let front = values.drop_last();
        assert forall|i: int| 0 <= i < front.len() implies 0 <= #[trigger] front[i] < 0x100 by {
            assert(front[i] == values[i]);
        }
        lemma_bytes_unsigned(front);
        bigendian::lemma_byte_powers();
        let v = values[values.len() - 1];
        assert(0 <= v < 0x100);
        vstd::arithmetic::div_mod::lemma_small_mod(v as nat, 0x100);
    }
}

/// Numbers that were stored are read as they were.
proof fn lemma_stored(samples: Seq<i64>, kind: Bitpix)
    requires
        integer_kind(kind),
        samples_fit(samples, kind),
    ensures
        ({
            let raw = words::words_encoded(
                true,
                kind.width(),
                tile_compress::numbers_of(samples),
            );
            &&& tile_compress::stored_samples(raw, kind.width() as int, samples.len()) == Some(
                tile_compress::numbers_of(samples),
            )
            &&& raw.len() % kind.width() == 0
        }),
{
    let values = tile_compress::numbers_of(samples);
    let w = kind.width();
    let raw = words::words_encoded(true, w, values);
    bigendian::lemma_byte_powers();
    words::lemma_words_encoded_len(true, w, values);
    vstd::arithmetic::div_mod::lemma_mod_multiples_basic(values.len() as int, w as int);
    let signed = image_data::signed_kind(kind);
    assert forall|i: int| 0 <= i < values.len() implies words::word_holds(
        signed,
        w,
        #[trigger] values[i],
    ) by {
        assert(words::word_holds(signed, w, samples[i] as int));
    }
    if kind == Bitpix::U8 {
        lemma_bytes_unsigned(values);
    }
    words::words_round_trip(signed, w, values);
    assert(values.take(samples.len() as int) =~= values);
}

/// Samples of a tile that was encoded are decoded as they were.
pub proof fn lemma_int_tile(
    c: CompressedView,
    enc: Seq<u8>,
    samples: Seq<i64>,
    kind: Bitpix,
    blocksize: usize,
)
    requires
        integer_kind(kind),
        samples_fit(samples, kind),
        tile_encode::encodable(c.ctype),
        tile_compress::sample_width(c.zbitpix) == kind.width(),
        c.ctype == CompressionType::Rice1 ==> c.params.bytepix == kind.width()
            && c.params.blocksize == blocksize && rice::code_holds(
            samples,
            blocksize,
            rice::rice_width(kind.width() as int),
        ),
        tile_encode::encodes(enc, samples, c.ctype, kind.width() as usize, blocksize),
    ensures
        tile_compress::stream_samples(c, enc, samples.len()) == Ok::<Seq<int>, ErrorView>(
            tile_compress::numbers_of(samples),
        ),
{
    reveal(tile_compress::byte_tile);
    match c.ctype {
        CompressionType::Rice1 => {
            lemma_rice_tile(c, enc, samples, kind, blocksize);
        },
        CompressionType::Gzip1 => {
            lemma_stored(samples, kind);
        },
        CompressionType::Gzip2 => {
            lemma_stored(samples, kind);
            let raw = words::words_encoded(
                true,
                kind.width(),
                tile_compress::numbers_of(samples),
            );
            gzip::unshuffle_inverts_shuffle(raw, kind.width());
        },
        _ => {},
    }
}

/// The samples of a tile fit where those of the image do.
proof fn lemma_tile_fit(
    full: Seq<i64>,
    axes: Seq<usize>,
    ztile: Seq<usize>,
    k: int,
    kind: Bitpix,
)
    requires
        axes.len() == ztile.len(),
        full.len() == grid::volume(axes),
        samples_fit(full, kind),
        0 <= k < grid::volume(grid::grid_of(axes, ztile)),
    ensures
        samples_fit(grid::tile_of(full, axes, ztile, k), kind),
        grid::tile_of(full, axes, ztile, k).len() == grid::tile_volume(axes, ztile, k),
        tile_compress::numbers_of(grid::tile_of(full, axes, ztile, k)) == grid::tile_of(
            tile_compress::numbers_of(full),
            axes,
            ztile,
            k,
        ),
{
    let tile = grid::tile_of(full, axes, ztile, k);
    let fits = |v: i64|
        words::word_holds(image_data::signed_kind(kind), kind.width(), v as int);
    let flags = Seq::new(full.len(), |i: int| fits(full[i]));
    grid::lemma_tile_map(full, flags, axes, ztile, k, fits);
    assert forall|i: int| 0 <= i < tile.len() implies words::word_holds(
        image_data::signed_kind(kind),
        kind.width(),
        #[trigger] tile[i] as int,
    ) by {
        assert(grid::tile_of(flags, axes, ztile, k)[i] == fits(tile[i]));
        grid::lemma_tile_map(flags, flags, axes, ztile, k, |b: bool| true);
        assert(grid::tile_of(flags, axes, ztile, k)[i] == true);
    }
    grid::lemma_tile_map(
        full,
        tile_compress::numbers_of(full),
        axes,
        ztile,
        k,
        |v: i64| v as int,
    );
    assert(tile_compress::numbers_of(tile) =~= grid::tile_of(
        tile_compress::numbers_of(full),
        axes,
        ztile,
        k,
    ));
}

/// The tiles of an image.
pub open spec fn tiles_of<T>(full: Seq<T>, axes: Seq<usize>, ztile: Seq<usize>) -> Seq<Seq<T>> {
    Seq::new(
        grid::volume(grid::grid_of(axes, ztile)),
        |k: int| grid::tile_of(full, axes, ztile, k),
    )
}

/// All tiles from one on are decoded as they were.
proof fn lemma_tiles_read(c: CompressedView, tiles: Seq<Seq<int>>, k: nat)
    requires
        tiles.len() == c.geometry.tiles(),
        k <= tiles.len(),
        forall|j: int|
            0 <= j < tiles.len() ==> tile_compress::tile_samples(c, j, 0) == Ok::<
                Seq<int>,
                ErrorView,
            >(#[trigger] tiles[j]),
    ensures
        tile_compress::tiles_from(c, k, 0) == Ok::<Seq<Seq<int>>, ErrorView>(tiles.skip(k as int)),
    decreases tiles.len() - k,
{
    if k < tiles.len() {
        lemma_tiles_read(c, tiles, k + 1);
        assert(tile_compress::tile_samples(c, k as int, 0) == Ok::<Seq<int>, ErrorView>(
            tiles[k as int],
        ));
        assert(seq![tiles[k as int]] + tiles.skip(k as int + 1) =~= tiles.skip(k as int));
    } else {
        assert(tiles.skip(k as int) =~= Seq::empty());
    }
}

/// The column of the tiles is the first.
proof fn lemma_first_column(c: CompressedView)
    requires
        c.table.columns == seq![
            tile_encode::tile_table_column(
                "COMPRESSED_DATA"@,
                bintable::BinColumnType::VarP('B'),
            ),
        ],
    ensures
        tile_compress::column_position(c.table.columns, "COMPRESSED_DATA"@) == 0,
{
    reveal_strlit("COMPRESSED_DATA");
    text::lemma_trim_same("COMPRESSED_DATA"@);
}

/// Pixels are their own narrowed values.
proof fn lemma_narrowed(p: PixelView)
    requires
        integer_kind(p.kind),
        image_data::pixels_valid(p),
    ensures
        tile_compress::narrowed(p.kind, p.values) == p.values,
        tile_compress::numbers_of(tile_encode::samples_from(p.values)) == p.values,
        samples_fit(tile_encode::samples_from(p.values), p.kind),
{
    bigendian::lemma_byte_powers();
    let samples = tile_encode::samples_from(p.values);
    assert forall|i: int| 0 <= i < p.values.len() implies tile_compress::narrow(
        p.kind,
        #[trigger] p.values[i],
    ) == p.values[i] && samples[i] == p.values[i] by {
        let v = p.values[i];
        assert(words::word_holds(image_data::signed_kind(p.kind), p.kind.width(), v));
        match p.kind {
            Bitpix::U8 => {
                vstd::arithmetic::div_mod::lemma_small_mod(v as nat, 0x100);
            },
            Bitpix::I16 => {
                casts::lemma_signed_residue_small(v, 0x1_0000);
            },
            _ => {
                casts::lemma_signed_residue_small(v, 0x1_0000_0000);
            },
        }
    }
    assert(tile_compress::narrowed(p.kind, p.values) =~= p.values);
    assert(tile_compress::numbers_of(samples) =~= p.values);
    assert forall|i: int| 0 <= i < samples.len() implies words::word_holds(
        image_data::signed_kind(p.kind),
        p.kind.width(),
        #[trigger] samples[i] as int,
    ) by {
        assert(samples[i] == p.values[i]);
    }
}

/// Where the tiles of a compressed image are.
proof fn lemma_tile_column(c: CompressedView, encs: Seq<Seq<u8>>)
    requires
        c.table == tile_encode::tile_table(encs),
        encs.len() <= usize::MAX,
        encs.len() == c.geometry.tiles(),
        grid::volume(c.geometry.znaxis) <= usize::MAX,
    ensures
        tile_compress::tile_column(c) == Ok::<int, ErrorView>(0),
{
    lemma_tile_table(encs);
    lemma_first_column(c);
}

/// Whether the RICE_1 code of each tile of an image holds its samples.
pub open spec fn tiles_hold(image: ImageView, opts: CompressOptions) -> bool {
    let ztile = tile_encode::wanted_tile(opts, image.axes);
    forall|k: int|
        0 <= k < grid::volume(grid::grid_of(image.axes, ztile)) ==> rice::code_holds(
            #[trigger] grid::tile_of(
                tile_encode::samples_from(image.pixels.values),
                image.axes,
                ztile,
                k,
            ),
            tile_encode::block_size(opts.blocksize),
            rice::rice_width(image.pixels.kind.width() as int),
        )
}

/// The RICE_1 code of tiles holds their samples where the blocks, or the image, have fewer
/// than 2^31 of them.
pub proof fn short_tiles_hold(image: ImageView, opts: CompressOptions)
    requires
        tile_encode::shape_error(image, opts) is None,
        image.pixels.values.len() <= usize::MAX,
        rice::short_blocks(
            image.pixels.values.len(),
            tile_encode::block_size(opts.blocksize),
        ),
    ensures
        tiles_hold(image, opts),
{
    let axes = image.axes;
    let ztile = tile_encode::wanted_tile(opts, axes);
    let full = tile_encode::samples_from(image.pixels.values);
    assert forall|k: int| 0 <= k < grid::volume(
        grid::grid_of(axes, ztile),
    ) implies rice::code_holds(
        #[trigger] grid::tile_of(full, axes, ztile, k),
        tile_encode::block_size(opts.blocksize),
        rice::rice_width(image.pixels.kind.width() as int),
    ) by {
        grid::lemma_tile_volume(axes, ztile, k);
        grid::lemma_tile_map(full, full, axes, ztile, k, |v: i64| v);
        rice::short_blocks_hold(
            grid::tile_of(full, axes, ztile, k),
            tile_encode::block_size(opts.blocksize),
            rice::rice_width(image.pixels.kind.width() as int),
        );
    }
}

/// A tile of an integer image is decoded as it was.
proof fn lemma_int_tile_read(
    image: ImageView,
    opts: CompressOptions,
    encs: Seq<Seq<u8>>,
    c: CompressedView,
    k: int,
)
    requires
        integer_kind(image.pixels.kind),
        image_data::pixels_valid(image.pixels),
        tile_encode::shape_error(image, opts) is None,
        image.pixels.values.len() <= usize::MAX,
        opts.algorithm == CompressionType::Rice1 ==> tiles_hold(image, opts),
        tile_encode::tile_table(encs).heap.len() <= i32::MAX,
        tile_encode::encodes_tiles(
            encs,
            tile_encode::samples_from(image.pixels.values),
            image.axes,
            tile_encode::wanted_tile(opts, image.axes),
            opts,
            image.pixels.kind.width() as usize,
        ),
        c == compressed_view(
            image.pixels.kind,
            image.axes,
            tile_encode::wanted_tile(opts, image.axes),
            opts.algorithm,
            tile_encode::written_params(
                opts.algorithm,
                opts.blocksize,
                image.pixels.kind.width() as usize,
            ),
            tile_encode::tile_table(encs),
        ),
        0 <= k < encs.len(),
    ensures
        tile_compress::tile_samples(c, k, 0) == Ok::<Seq<int>, ErrorView>(
            grid::tile_of(
                image.pixels.values,
                image.axes,
                tile_encode::wanted_tile(opts, image.axes),
                k,
            ),
        ),
{
    let kind = image.pixels.kind;
    let axes = image.axes;
    let ztile = tile_encode::wanted_tile(opts, axes);
    let full = tile_encode::samples_from(image.pixels.values);
    let samples = grid::tile_of(full, axes, ztile, k);
    let blocksize = tile_encode::block_size(opts.blocksize);
    grid::lemma_grid_volume(axes, ztile);
    lemma_narrowed(image.pixels);
    lemma_tile_fit(full, axes, ztile, k, kind);
    lemma_tile_cell(encs, k);
    grid::lemma_tile_volume(axes, ztile, k);
    assert(tile_encode::encodes(
        encs[k],
        samples,
        opts.algorithm,
        kind.width() as usize,
        blocksize,
    ));
    lemma_int_tile(c, encs[k], samples, kind, blocksize);
    reveal(tile_compress::tile_samples);
}

/// An integer image whose tiles are decoded as they were is put together as it was.
proof fn lemma_decompressed_int(c: CompressedView, image: ImageView)
    requires
        integer_kind(image.pixels.kind),
        image_data::pixels_valid(image.pixels),
        c.zbitpix == image.pixels.kind.number(),
        c.geometry.znaxis == image.axes,
        c.geometry.ztile.len() == image.axes.len(),
        image.pixels.values.len() == grid::volume(image.axes),
        tile_compress::tile_column(c) == Ok::<int, ErrorView>(0),
        forall|k: int|
            0 <= k < tiles_of(image.pixels.values, image.axes, c.geometry.ztile).len()
                ==> tile_compress::tile_samples(c, k, 0) == Ok::<Seq<int>, ErrorView>(
                #[trigger] tiles_of(image.pixels.values, image.axes, c.geometry.ztile)[k],
            ),
    ensures
        tile_compress::decompressed(c) == Ok::<ImageView, ErrorView>(image),
{
    let values = image.pixels.values;
    let ztile = c.geometry.ztile;
    let tiles = tiles_of(values, image.axes, ztile);
    lemma_narrowed(image.pixels);
    crate::types::bitpix_of_number(image.pixels.kind, image.pixels.kind.number());
    lemma_tiles_read(c, tiles, 0);
    assert(tiles.skip(0) =~= tiles);
    grid::tiling_round_trip(values, image.axes, ztile);
}

/// An integer image that was compressed is decompressed as it was.
proof fn lemma_int_image(
    image: ImageView,
    opts: CompressOptions,
    encs: Seq<Seq<u8>>,
    c: CompressedView,
)
    requires
        integer_kind(image.pixels.kind),
        image_data::pixels_valid(image.pixels),
        tile_encode::shape_error(image, opts) is None,
        image.pixels.values.len() <= usize::MAX,
        opts.algorithm == CompressionType::Rice1 ==> tiles_hold(image, opts),
        tile_encode::tile_table(encs).heap.len() <= i32::MAX,
        tile_encode::encodes_tiles(
            encs,
            tile_encode::samples_from(image.pixels.values),
            image.axes,
            tile_encode::wanted_tile(opts, image.axes),
            opts,
            image.pixels.kind.width() as usize,
        ),
        c == compressed_view(
            image.pixels.kind,
            image.axes,
            tile_encode::wanted_tile(opts, image.axes),
            opts.algorithm,
            tile_encode::written_params(
                opts.algorithm,
                opts.blocksize,
                image.pixels.kind.width() as usize,
            ),
            tile_encode::tile_table(encs),
        ),
    ensures
        tile_compress::decompressed(c) == Ok::<ImageView, ErrorView>(image),
{
    let axes = image.axes;
    let ztile = tile_encode::wanted_tile(opts, axes);
    let tiles = tiles_of(image.pixels.values, axes, ztile);
    grid::lemma_grid_volume(axes, ztile);
    lemma_tile_column(c, encs);
    assert forall|k: int| 0 <= k < tiles.len() implies tile_compress::tile_samples(c, k, 0) == Ok::<
        Seq<int>,
        ErrorView,
    >(#[trigger] tiles[k]) by {
        lemma_int_tile_read(image, opts, encs, c, k);
    }
    lemma_decompressed_int(c, image);
}

/// Bit patterns of a tile fit where those of the image do.
proof fn lemma_pattern_tile(
    values: Seq<int>,
    axes: Seq<usize>,
    ztile: Seq<usize>,
    k: int,
    w: nat,
)
    requires
        axes.len() == ztile.len(),
        values.len() == grid::volume(axes),
        forall|i: int| 0 <= i < values.len() ==> words::word_holds(false, w, #[trigger] values[i]),
        0 <= k < grid::volume(grid::grid_of(axes, ztile)),
    ensures
        ({
            let tile = grid::tile_of(values, axes, ztile, k);
            &&& tile.len() == grid::tile_volume(axes, ztile, k)
            &&& forall|i: int|
                0 <= i < tile.len() ==> words::word_holds(false, w, #[trigger] tile[i])
        }),
{
    let tile = grid::tile_of(values, axes, ztile, k);
    let fits = |v: int| words::word_holds(false, w, v);
    let flags = Seq::new(values.len(), |i: int| fits(values[i]));
    grid::lemma_tile_map(values, flags, axes, ztile, k, fits);
    assert forall|i: int| 0 <= i < tile.len() implies words::word_holds(
        false,
        w,
        #[trigger] tile[i],
    ) by {
        assert(grid::tile_of(flags, axes, ztile, k)[i] == fits(tile[i]));
        grid::lemma_tile_map(flags, flags, axes, ztile, k, |b: bool| true);
        assert(grid::tile_of(flags, axes, ztile, k)[i] == true);
    }
}

/// A table of tiles has no other columns.
proof fn lemma_no_other_column(c: CompressedView, k: int)
    requires
        c.table.columns == seq![
            tile_encode::tile_table_column(
                "COMPRESSED_DATA"@,
                bintable::BinColumnType::VarP('B'),
            ),
        ],
    ensures
        tile_compress::scalar_cell(
            c,
            k,
            tile_compress::column_position(c.table.columns, "ZSCALE"@),
        ) is None,
{
    reveal_strlit("COMPRESSED_DATA");
    reveal_strlit("ZSCALE");
    text::lemma_trim_same("COMPRESSED_DATA"@);
    assert(text::ascii_upper("COMPRESSED_DATA"@).len() != text::ascii_upper("ZSCALE"@).len());
    let rest = c.table.columns.skip(1);
    assert(rest =~= Seq::empty());
    assert(tile_compress::column_position(rest, "ZSCALE"@) == 0);
    assert(tile_compress::column_position(c.table.columns, "ZSCALE"@) == 1);
}

/// A tile of bit patterns that was encoded is decoded as it was.
proof fn lemma_float_tile(
    c: CompressedView,
    encs: Seq<Seq<u8>>,
    tile: Seq<int>,
    k: int,
)
    requires
        c.table == tile_encode::tile_table(encs),
        c.table.heap.len() <= i32::MAX,
        encs.len() <= usize::MAX,
        0 <= k < encs.len(),
        c.ctype == CompressionType::Gzip1,
        tile_encode::encodes_raw(encs[k], tile, tile_compress::float_kind(c.zbitpix).width()),
        tile.len() == grid::tile_volume(c.geometry.znaxis, c.geometry.ztile, k),
        forall|i: int|
            0 <= i < tile.len() ==> words::word_holds(
                false,
                tile_compress::float_kind(c.zbitpix).width(),
                #[trigger] tile[i],
            ),
    ensures
        tile_compress::float_tile(c, k, 0) == Ok::<FloatTileView, ErrorView>(
            FloatTileView::Raw(tile),
        ),
{
    reveal(tile_compress::float_tile);
    reveal(tile_compress::raw_tile);
    lemma_tile_table(encs);
    lemma_tile_cell(encs, k);
    lemma_no_other_column(c, k);
    let w = tile_compress::float_kind(c.zbitpix).width();
    words::words_round_trip(false, w, tile);
    assert(encs[k].len() > 0);
    assert(tile.take(tile.len() as int) =~= tile);
}

/// Raw tiles as they are read.
pub open spec fn raw_views(tiles: Seq<Seq<int>>) -> Seq<FloatTileView> {
    Seq::new(tiles.len(), |k: int| FloatTileView::Raw(tiles[k]))
}

/// All tiles from one on are decoded as they were.
pub proof fn lemma_float_tiles_read(c: CompressedView, tiles: Seq<FloatTileView>, k: nat)
    requires
        tiles.len() == c.geometry.tiles(),
        k <= tiles.len(),
        forall|j: int|
            0 <= j < tiles.len() ==> tile_compress::float_tile(c, j, 0) == Ok::<
                FloatTileView,
                ErrorView,
            >(#[trigger] tiles[j]),
    ensures
        tile_compress::float_tiles_from(c, k, 0) == Ok::<Seq<FloatTileView>, ErrorView>(
            tiles.skip(k as int),
        ),
    decreases tiles.len() - k,
{
    if k < tiles.len() {
        lemma_float_tiles_read(c, tiles, k + 1);
        assert(tile_compress::float_tile(c, k as int, 0) == Ok::<FloatTileView, ErrorView>(
            tiles[k as int],
        ));
        assert(seq![tiles[k as int]] + tiles.skip(k as int + 1) =~= tiles.skip(k as int));
    } else {
        assert(tiles.skip(k as int) =~= Seq::empty());
    }
}

/// A floating-point image that was compressed without loss is decompressed as it was.
proof fn lemma_float_image(
    image: ImageView,
    opts: CompressOptions,
    encs: Seq<Seq<u8>>,
    c: CompressedView,
)
    requires
        image.pixels.kind == Bitpix::F32 || image.pixels.kind == Bitpix::F64,
        image_data::pixels_valid(image.pixels),
        tile_encode::shape_error(image, opts) is None,
        opts.algorithm == CompressionType::Gzip1,
        image.pixels.values.len() <= usize::MAX,
        tile_encode::tile_table(encs).heap.len() <= i32::MAX,
        tile_encode::encodes_raw_tiles(
            encs,
            image.pixels.values,
            image.axes,
            tile_encode::wanted_tile(opts, image.axes),
            image.pixels.kind.width(),
        ),
        c == compressed_view(
            image.pixels.kind,
            image.axes,
            tile_encode::wanted_tile(opts, image.axes),
            opts.algorithm,
            None,
            tile_encode::tile_table(encs),
        ),
    ensures
        tile_compress::decompressed(c) == Ok::<ImageView, ErrorView>(image),
{
    let kind = image.pixels.kind;
    let axes = image.axes;
    let ztile = tile_encode::wanted_tile(opts, axes);
    let values = image.pixels.values;
    let w = kind.width();
    let tiles = tiles_of(values, axes, ztile);
    grid::lemma_grid_volume(axes, ztile);
    lemma_tile_column(c, encs);
    assert(tile_compress::float_kind(c.zbitpix) == kind);
    assert forall|i: int| 0 <= i < values.len() implies words::word_holds(
        false,
        w,
        #[trigger] values[i],
    ) by {
        assert(words::word_holds(image_data::signed_kind(kind), w, values[i]));
    }
    assert forall|k: int| 0 <= k < tiles.len() implies tile_compress::float_tile(c, k, 0) == Ok::<
        FloatTileView,
        ErrorView,
    >(FloatTileView::Raw(#[trigger] tiles[k])) by {
        lemma_pattern_tile(values, axes, ztile, k, w);
        assert(tile_encode::encodes_raw(encs[k], tiles[k], w));
        lemma_float_tile(c, encs, tiles[k], k);
    }
    lemma_decompressed_float(c, image);
}

/// A floating-point image whose tiles are decoded as they were is put together as it was.
proof fn lemma_decompressed_float(c: CompressedView, image: ImageView)
    requires
        image.pixels.kind == Bitpix::F32 || image.pixels.kind == Bitpix::F64,
        image_data::pixels_valid(image.pixels),
        c.zbitpix == image.pixels.kind.number(),
        c.geometry.znaxis == image.axes,
        c.geometry.ztile.len() == image.axes.len(),
        image.pixels.values.len() == grid::volume(image.axes),
        tile_compress::tile_column(c) == Ok::<int, ErrorView>(0),
        forall|k: int|
            0 <= k < tiles_of(image.pixels.values, image.axes, c.geometry.ztile).len()
                ==> tile_compress::float_tile(c, k, 0) == Ok::<FloatTileView, ErrorView>(
                FloatTileView::Raw(
                    #[trigger] tiles_of(image.pixels.values, image.axes, c.geometry.ztile)[k],
                ),
            ),
    ensures
        tile_compress::decompressed(c) == Ok::<ImageView, ErrorView>(image),
{
    let kind = image.pixels.kind;
    let values = image.pixels.values;
    let ztile = c.geometry.ztile;
    let tiles = tiles_of(values, image.axes, ztile);
    let all = raw_views(tiles);
    assert forall|k: int| 0 <= k < all.len() implies tile_compress::float_tile(c, k, 0) == Ok::<
        FloatTileView,
        ErrorView,
    >(#[trigger] all[k]) by {
        assert(all[k] == FloatTileView::Raw(tiles[k]));
    }
    lemma_float_tiles_read(c, all, 0);
    assert(all.skip(0) =~= all);
    assert(tile_compress::all_raw(all));
    assert(tile_compress::patterns(all) =~= tiles);
    grid::tiling_round_trip(values, image.axes, ztile);
    bigendian::lemma_byte_powers();
    assert forall|i: int| 0 <= i < values.len() implies tile_compress::cut_pattern(
        kind,
        #[trigger] values[i],
    ) == values[i] by {
        assert(words::word_holds(image_data::signed_kind(kind), kind.width(), values[i]));
        if kind == Bitpix::F32 {
            vstd::arithmetic::div_mod::lemma_small_mod(values[i] as nat, 0x1_0000_0000);
        }
    }
    assert(tile_compress::float_image(c, tiles).pixels.values =~= values);
}

/// Whether the sizes of an image, its tiles and its compressed form can be written and
/// read: the sizes of axes, tiles and blocks fit in header keywords, and the compressed
/// bytes in the descriptors of the table.
pub open spec fn compressed_sizes(image: ImageView, opts: CompressOptions, u: HduView) -> bool {
    &&& image.pixels.values.len() <= usize::MAX
    &&& header_sizes(image.axes)
    &&& header_sizes(tile_encode::wanted_tile(opts, image.axes))
    &&& u.data matches DataView::BinTable(t) && t.heap.len() <= i32::MAX
    &&& opts.algorithm == CompressionType::Rice1 ==> tile_encode::block_size(opts.blocksize)
        <= i64::MAX
}

/// The compressed image that an HDU holds.
pub open spec fn compressed_in(u: HduView) -> std::result::Result<CompressedView, ErrorView> {
    match u.data {
        DataView::BinTable(t) => tile_compress::compressed_of(u.header, t),
        _ => Err(ErrorView::CompressionError("not a table"@)),
    }
}

/// The driver keywords of a compressed form of an image.
pub open spec fn driver_keywords(image: ImageView, opts: CompressOptions) -> Seq<KeywordView> {
    let kind = image.pixels.kind;
    let ztile = tile_encode::wanted_tile(opts, image.axes);
    if kind.number() > 0 {
        tile_encode::z_header(
            kind,
            image.axes,
            ztile,
            opts.algorithm,
            tile_encode::written_params(opts.algorithm, opts.blocksize, kind.width() as usize),
        )
    } else {
        header::with_set(
            tile_encode::z_header(kind, image.axes, ztile, opts.algorithm, None),
            "ZQUANTIZ"@,
            ValueView::Text("NONE"@),
            Some("no dithering"@),
        )
    }
}

/// The parameters of a compressed form of an image.
pub open spec fn image_params(image: ImageView, opts: CompressOptions) -> Option<(usize, usize)> {
    if image.pixels.kind.number() > 0 {
        tile_encode::written_params(
            opts.algorithm,
            opts.blocksize,
            image.pixels.kind.width() as usize,
        )
    } else {
        None
    }
}

/// What the driver keywords of a compressed form of an image say.
proof fn lemma_driver_keywords(image: ImageView, opts: CompressOptions)
    ensures
        ({
            let z = driver_keywords(image, opts);
            let ztile = tile_encode::wanted_tile(opts, image.axes);
            &&& says_image(z, image.pixels.kind, image.axes, ztile, opts.algorithm)
            &&& says_params(z, image_params(image, opts))
            &&& keyword_names::found(z, "ZQUANTIZ"@) is None || keyword_names::found(
                z,
                "ZQUANTIZ"@,
            ) == Some(Some(ValueView::Text("NONE"@)))
            &&& no_driver_names(z)
        }),
{
    let kind = image.pixels.kind;
    let ztile = tile_encode::wanted_tile(opts, image.axes);
    let params = image_params(image, opts);
    let bare = tile_encode::z_header(kind, image.axes, ztile, opts.algorithm, params);
    let z = driver_keywords(image, opts);
    lemma_z_found(kind, image.axes, ztile, opts.algorithm, params);
    if kind.number() < 0 {
        keyword_names::lemma_compression_names();
        lemma_set_frame(bare, "ZQUANTIZ"@, ValueView::Text("NONE"@), Some("no dithering"@));
        lemma_says_shape_same(z, bare, kind, image.axes, ztile, opts.algorithm);
        lemma_says_params_same(z, bare, params);
        assert forall|name: Seq<char>| no_driver_name(
            name,
        ) implies #[trigger] keyword_names::found(z, name) is None by {
            assert(keyword_names::found(z, name) == keyword_names::found(bare, name));
        }
    }
}

/// Whether byte sequences are the compressed tiles of an image, and an HDU holds them.
pub open spec fn holds_tiles(
    image: ImageView,
    opts: CompressOptions,
    u: HduView,
    encs: Seq<Seq<u8>>,
) -> bool {
    let ztile = tile_encode::wanted_tile(opts, image.axes);
    let t = tile_encode::tile_table(encs);
    &&& u == (HduView {
        header: tile_encode::compressed_header(
            driver_keywords(image, opts),
            t,
            tile_encode::longest_of(encs),
        ),
        data: DataView::BinTable(t),
    })
    &&& if image.pixels.kind.number() > 0 {
        tile_encode::encodes_tiles(
            encs,
            tile_encode::samples_from(image.pixels.values),
            image.axes,
            ztile,
            opts,
            image.pixels.kind.width() as usize,
        )
    } else {
        tile_encode::encodes_raw_tiles(
            encs,
            image.pixels.values,
            image.axes,
            ztile,
            image.pixels.kind.width(),
        )
    }
}

proof fn lemma_holds_tiles(image: ImageView, opts: CompressOptions, u: HduView) -> (encs: Seq<
    Seq<u8>,
>)
    requires
        tile_encode::compresses(image, opts, u),
    ensures
        holds_tiles(image, opts, u, encs),
{
    let ztile = tile_encode::wanted_tile(opts, image.axes);
    if image.pixels.kind.number() > 0 {
        choose|encs: Seq<Seq<u8>>| #[trigger]
            tile_encode::encodes_tiles(
                encs,
                tile_encode::samples_from(image.pixels.values),
                image.axes,
                ztile,
                opts,
                image.pixels.kind.width() as usize,
            ) && u == tile_encode::int_hdu(image, opts, encs)
    } else {
        choose|encs: Seq<Seq<u8>>| #[trigger]
            tile_encode::encodes_raw_tiles(
                encs,
                image.pixels.values,
                image.axes,
                ztile,
                image.pixels.kind.width(),
            ) && u == tile_encode::raw_hdu(image, opts, encs)
    }
}

/// A header that says what the driver keywords of a compressed image do gives the image
/// back.
proof fn lemma_decompressed(
    image: ImageView,
    opts: CompressOptions,
    u: HduView,
    encs: Seq<Seq<u8>>,
    g: Seq<KeywordView>,
)
    requires
        image_data::pixels_valid(image.pixels),
        tile_encode::compress_error(image, opts) is None,
        compressed_sizes(image, opts, u),
        opts.algorithm == CompressionType::Rice1 ==> tiles_hold(image, opts),
        holds_tiles(image, opts, u, encs),
        forall|name: Seq<char>|
            no_table_name(name) ==> #[trigger] keyword_names::found(g, name)
                == keyword_names::found(driver_keywords(image, opts), name),
    ensures
        compressed_in(HduView { header: g, data: u.data }) matches Ok(c)
            && tile_compress::decompressed(c) == Ok::<ImageView, ErrorView>(image),
{
    let kind = image.pixels.kind;
    let ztile = tile_encode::wanted_tile(opts, image.axes);
    let params = image_params(image, opts);
    let z = driver_keywords(image, opts);
    let t = tile_encode::tile_table(encs);
    lemma_driver_keywords(image, opts);
    lemma_compressed_of(g, z, t, kind, image.axes, ztile, opts.algorithm, params);
    let c = compressed_view(kind, image.axes, ztile, opts.algorithm, params, t);
    if kind.number() > 0 {
        lemma_int_image(image, opts, encs, c);
    } else {
        lemma_float_image(image, opts, encs, c);
    }
}

/// What the header of a compressed image says under names that its table does not use.
pub proof fn lemma_header_says(z: Seq<KeywordView>, t: BinTableView, longest: int)
    ensures
        forall|name: Seq<char>|
            no_table_name(name) ==> #[trigger] keyword_names::found(
                tile_encode::compressed_header(z, t, longest),
                name,
            ) == keyword_names::found(z, name),
{
    let g = tile_encode::compressed_header(z, t, longest);
    assert forall|name: Seq<char>| no_table_name(name) implies #[trigger] keyword_names::found(
        g,
        name,
    ) == keyword_names::found(z, name) by {
        lemma_compressed_found(z, t, longest, name);
    }
}

/// Compression without loss: decompressing an HDU into which an image was compressed gives
/// the image, for integer images with RICE_1, GZIP_1 and GZIP_2, and for floating-point
/// images that are not quantized with GZIP_1.
pub proof fn compression_round_trip(image: ImageView, opts: CompressOptions, u: HduView)
    requires
        image_data::pixels_valid(image.pixels),
        tile_encode::compress_error(image, opts) is None,
        tile_encode::compresses(image, opts, u),
        compressed_sizes(image, opts, u),
        opts.algorithm == CompressionType::Rice1 ==> tiles_hold(image, opts),
    ensures
        compressed_in(u) matches Ok(c) && tile_compress::decompressed(c) == Ok::<
            ImageView,
            ErrorView,
        >(image),
{
    let encs = lemma_holds_tiles(image, opts, u);
    lemma_header_says(
        driver_keywords(image, opts),
        tile_encode::tile_table(encs),
        tile_encode::longest_of(encs),
    );
    lemma_decompressed(image, opts, u, encs, u.header);
    assert(u == HduView { header: u.header, data: u.data });
}

/// The keywords of a table leave what a header says under other names.
pub proof fn lemma_table_frame(h: Seq<KeywordView>, t: BinTableView, name: Seq<char>)
    requires
        no_table_name(name),
    ensures
        keyword_names::found(bintable::with_table(h, t), name) == keyword_names::found(h, name),
{
    let n = ((t.heap.len() as usize) as i64) as int;
    let m = ((t.columns.len() as usize) as i64) as int;
    let base = bintable::with_layout(
        h,
        "BINTABLE"@,
        "binary table extension"@,
        t.row_len,
        t.nrows,
        n,
        m,
    );
    file_reading::lemma_bin_columns(base, t.columns);
    file_reading::lemma_columns_frame(base, file_reading::all_bin_fields(t.columns), name);
    file_reading::lemma_layout_frame(
        h,
        "BINTABLE"@,
        "binary table extension"@,
        t.row_len,
        t.nrows,
        n,
        m,
        name,
    );
}

/// A column without scale, zero point and unit.
pub open spec fn bare_column(c: bintable::BinColumnView) -> bool {
    c.tscal is None && c.tzero is None && c.tunit is None
}

/// The header of a compressed image says nothing of the scale, zero point and unit of a
/// column that has none.
proof fn lemma_column_silent(z: Seq<KeywordView>, t: BinTableView, longest: int, q: int, j: int)
    requires
        no_driver_names(z),
        1 <= j <= t.columns.len(),
        bare_column(t.columns[j - 1]),
        3 <= q < 6,
    ensures
        keyword_names::found(
            tile_encode::compressed_header(z, t, longest),
            keyword_names::numbered(file_reading::column_prefix(q), j),
        ) is None,
{
    let name = keyword_names::numbered(file_reading::column_prefix(q), j);
    let n = ((t.heap.len() as usize) as i64) as int;
    let m = ((t.columns.len() as usize) as i64) as int;
    let base = bintable::with_layout(
        Seq::empty(),
        "BINTABLE"@,
        "binary table extension"@,
        t.row_len,
        t.nrows,
        n,
        m,
    );
    let form = ValueView::Text("1PB("@ + text::decimal(longest) + ")"@);
    let comment = Some("variable length array"@);
    let table = bintable::with_table(Seq::empty(), t);
    let a = header::with_set(table, "TFORM1"@, form, comment);
    file_reading::lemma_column_names_differ(q, j, q, j);
    file_reading::lemma_bin_columns(base, t.columns);
    file_reading::lemma_column_found(base, file_reading::all_bin_fields(t.columns), q, j);
    file_reading::lemma_layout_frame(
        Seq::empty(),
        "BINTABLE"@,
        "binary table extension"@,
        t.row_len,
        t.nrows,
        n,
        m,
        name,
    );
    assert(keyword_names::found(Seq::empty(), name) is None);
    keyword_names::lemma_layout_names();
    keyword_names::lemma_numbered(file_reading::column_prefix(q), j);
    reveal_strlit("TFORM1");
    assert(text::ascii_upper("TFORM1"@) =~= "TFORM1"@);
    keyword_names::lemma_heads_differ("TFORM1"@, name);
    keyword_names::found_after_set(table, "TFORM1"@, form, comment, name);
    lemma_found_concat(a, z, name);
    assert(keyword_names::found(z, name) is None);
}

/// An HDU with a compressed image can be written and read.
proof fn lemma_compressed_sound(
    image: ImageView,
    opts: CompressOptions,
    u: HduView,
    encs: Seq<Seq<u8>>,
)
    requires
        tile_encode::compress_error(image, opts) is None,
        compressed_sizes(image, opts, u),
        holds_tiles(image, opts, u, encs),
        image.pixels.values.len() > 0,
        u.data matches DataView::BinTable(t) && 0 < t.main_data.len() + t.heap.len() <= usize::MAX
            && t.nrows <= i64::MAX,
    ensures
        file_reading::sound(u),
{
    let ztile = tile_encode::wanted_tile(opts, image.axes);
    grid::lemma_grid_volume(image.axes, ztile);
    lemma_driver_keywords(image, opts);
    lemma_tile_table(encs);
    lemma_whole_table(encs);
    lemma_table_sound(
        driver_keywords(image, opts),
        tile_encode::tile_table(encs),
        tile_encode::longest_of(encs),
    );
}

/// An HDU with a table of bare columns and driver keywords can be written and read.
pub proof fn lemma_table_sound(z: Seq<KeywordView>, t: BinTableView, longest: int)
    requires
        no_driver_names(z),
        file_reading::whole_bintable(t),
        forall|j: int| 0 <= j < t.columns.len() ==> bare_column(#[trigger] t.columns[j]),
    ensures
        file_reading::sound(
            HduView {
                header: tile_encode::compressed_header(z, t, longest),
                data: DataView::BinTable(t),
            },
        ),
{
    keyword_names::lemma_layout_names();
    lemma_compressed_found(z, t, longest, "SIMPLE"@);
    assert(keyword_names::found(z, "SIMPLE"@) is None);
    lemma_fields_silent(z, t, longest);
}

/// The data of a table of tiles fill its rows.
proof fn lemma_whole_table(encs: Seq<Seq<u8>>)
    requires
        encs.len() <= usize::MAX,
        encs.len() <= i64::MAX,
        tile_encode::tile_table(encs).heap.len() <= i32::MAX,
        0 < tile_encode::tile_table(encs).main_data.len() + tile_encode::tile_table(
            encs,
        ).heap.len() <= usize::MAX,
    ensures
        file_reading::whole_bintable(tile_encode::tile_table(encs)),
{
    lemma_tile_table(encs);
    let t = tile_encode::tile_table(encs);
    assert(t.row_len * t.nrows == 8 * encs.len());
    assert forall|j: int| 0 <= j < t.columns.len() implies bintable::plain_format(
        (#[trigger] t.columns[j]).format,
    ) by {}
}

/// The header of a compressed image says nothing of its columns that they do not have.
proof fn lemma_fields_silent(z: Seq<KeywordView>, t: BinTableView, longest: int)
    requires
        no_driver_names(z),
        forall|j: int| 0 <= j < t.columns.len() ==> bare_column(#[trigger] t.columns[j]),
    ensures
        forall|j: int|
            0 <= j < t.columns.len() ==> file_reading::silent(
                tile_encode::compressed_header(z, t, longest),
                #[trigger] file_reading::all_bin_fields(t.columns)[j],
                j + 1,
            ),
{
    assert(file_reading::column_prefix(3) == "TSCAL"@);
    assert(file_reading::column_prefix(4) == "TZERO"@);
    assert(file_reading::column_prefix(5) == "TUNIT"@);
    assert forall|j: int| 0 <= j < t.columns.len() implies file_reading::silent(
        tile_encode::compressed_header(z, t, longest),
        #[trigger] file_reading::all_bin_fields(t.columns)[j],
        j + 1,
    ) by {
        assert(bare_column(t.columns[j]));
        lemma_column_silent(z, t, longest, 3, j + 1);
        lemma_column_silent(z, t, longest, 4, j + 1);
        lemma_column_silent(z, t, longest, 5, j + 1);
    }
}

/// No tile is longer than all tiles.
pub proof fn lemma_longest(encs: Seq<Seq<u8>>)
    ensures
        0 <= tile_encode::longest_of(encs) <= tile_offset(encs, encs.len() as int),
    decreases encs.len(),
{
    if encs.len() > 0 {
        let front = encs.drop_last();
        lemma_longest(front);
        lemma_offset_same(front, encs, front.len() as int);
    }
}

/// The header of an HDU with a compressed image is read as it was written.
proof fn lemma_header_keeps(
    image: ImageView,
    opts: CompressOptions,
    u: HduView,
    encs: Seq<Seq<u8>>,
)
    requires
        tile_encode::compress_error(image, opts) is None,
        image.axes.len() < 100,
        compressed_sizes(image, opts, u),
        holds_tiles(image, opts, u, encs),
    ensures
        file_reading::keeps_all(crate::hdu::with_data(u.header, u.data)),
{
    let t = tile_encode::tile_table(encs);
    grid::lemma_grid_volume(image.axes, tile_encode::wanted_tile(opts, image.axes));
    lemma_tile_table(encs);
    lemma_longest(encs);
    brief_headers::lemma_image_drivers_brief(image, opts);
    reveal_strlit("COMPRESSED_DATA");
    assert(brief_headers::brief_text(bintable::BinColumnType::VarP('B').tform()));
    assert(brief_headers::brief_column(t.columns[0]));
    brief_headers::lemma_compressed_keeps(
        driver_keywords(image, opts),
        t,
        tile_encode::longest_of(encs),
    );
}

/// The column of a table of tiles has no scale and no zero point.
proof fn lemma_tile_table_settled(encs: Seq<Seq<u8>>)
    requires
        encs.len() <= usize::MAX,
    ensures
        file_reading::settled(DataView::BinTable(tile_encode::tile_table(encs)))
            == DataView::BinTable(tile_encode::tile_table(encs)),
{
    lemma_tile_table(encs);
    file_reading::settled_is_same(tile_encode::tile_table(encs));
}

/// An HDU with a compressed image is read as it was written.
proof fn lemma_compressed_read(
    image: ImageView,
    opts: CompressOptions,
    u: HduView,
    encs: Seq<Seq<u8>>,
    rest: Seq<u8>,
)
    requires
        tile_encode::compress_error(image, opts) is None,
        compressed_sizes(image, opts, u),
        holds_tiles(image, opts, u, encs),
        image.pixels.values.len() > 0,
        image.axes.len() < 100,
        u.data matches DataView::BinTable(t) && 0 < t.main_data.len() + t.heap.len() <= usize::MAX
            && t.nrows <= i64::MAX,
    ensures
        crate::hdu::hdu_read(crate::hdu::hdu_bytes(u) + rest) == Ok::<(HduView, int), ErrorView>(
            (
                HduView { header: crate::hdu::with_data(u.header, u.data), data: u.data },
                crate::hdu::hdu_bytes(u).len() as int,
            ),
        ),
{
    grid::lemma_grid_volume(image.axes, tile_encode::wanted_tile(opts, image.axes));
    lemma_compressed_sound(image, opts, u, encs);
    lemma_header_keeps(image, opts, u, encs);
    file_reading::hdu_round_trip(u, rest);
    lemma_tile_table_settled(encs);
}

/// An HDU with a compressed image whose keywords are filled in gives the image back.
proof fn lemma_compressed_back(
    image: ImageView,
    opts: CompressOptions,
    u: HduView,
    encs: Seq<Seq<u8>>,
)
    requires
        image_data::pixels_valid(image.pixels),
        tile_encode::compress_error(image, opts) is None,
        compressed_sizes(image, opts, u),
        opts.algorithm == CompressionType::Rice1 ==> tiles_hold(image, opts),
        holds_tiles(image, opts, u, encs),
    ensures
        compressed_in(
            HduView { header: crate::hdu::with_data(u.header, u.data), data: u.data },
        ) matches Ok(c) && tile_compress::decompressed(c) == Ok::<ImageView, ErrorView>(image),
{
    let t = tile_encode::tile_table(encs);
    let g = crate::hdu::with_data(u.header, u.data);
    lemma_header_says(driver_keywords(image, opts), t, tile_encode::longest_of(encs));
    assert forall|name: Seq<char>| no_table_name(name) implies #[trigger] keyword_names::found(
        g,
        name,
    ) == keyword_names::found(driver_keywords(image, opts), name) by {
        lemma_table_frame(u.header, t, name);
        assert(keyword_names::found(u.header, name) == keyword_names::found(
            driver_keywords(image, opts),
            name,
        ));
    }
    lemma_decompressed(image, opts, u, encs, g);
}

/// An image with fewer than 100 axes that was compressed, written and read is decompressed
/// as it was.
pub proof fn compressed_hdu_round_trip(
    image: ImageView,
    opts: CompressOptions,
    u: HduView,
    rest: Seq<u8>,
)
    requires
        image_data::pixels_valid(image.pixels),
        image.pixels.values.len() > 0,
        tile_encode::compress_error(image, opts) is None,
        tile_encode::compresses(image, opts, u),
        compressed_sizes(image, opts, u),
        opts.algorithm == CompressionType::Rice1 ==> tiles_hold(image, opts),
        u.data matches DataView::BinTable(t) && 0 < t.main_data.len() + t.heap.len() <= usize::MAX
            && t.nrows <= i64::MAX,
        image.axes.len() < 100,
    ensures
        match crate::hdu::hdu_read(crate::hdu::hdu_bytes(u) + rest) {
            Ok((v, n)) => n == crate::hdu::hdu_bytes(u).len() && match compressed_in(v) {
                Ok(c) => tile_compress::decompressed(c) == Ok::<ImageView, ErrorView>(image),
                Err(_) => false,
            },
            Err(_) => false,
        },
{
    let encs = lemma_holds_tiles(image, opts, u);
    lemma_compressed_read(image, opts, u, encs, rest);
    lemma_compressed_back(image, opts, u, encs);
}

} // verus!
