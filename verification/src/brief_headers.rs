//! Headers with short values and short comments, which are read as they were written; the
//! headers of compressed images are such.
use crate::bintable;
use crate::bintable::{BinColumnView, BinTableView};
use crate::card_reading;
use crate::dither;
use crate::file_reading;
use crate::hdu;
use crate::hdu::DataView;
use crate::header;
use crate::image_data::ImageView;
use crate::keyword;
use crate::keyword::{KeywordView, ValueView};
use crate::keyword_names;
use crate::text;
use crate::tile_compress::CompressionType;
use crate::tile_encode;
use crate::tile_encode::CompressOptions;
use crate::tile_reading;
use crate::types::Bitpix;
use vstd::prelude::*;
use vstd::utf8::*;

verus! {

/// Text of at most 25 printed ASCII characters without quotes and ampersands.
pub open spec fn brief_text(s: Seq<char>) -> bool {
    &&& s.len() <= 25
    &&& forall|i: int|
        0 <= i < s.len() ==> '!' <= #[trigger] s[i] <= '~' && s[i] != '\'' && s[i] != '&'
}

/// A truth value, a 64-bit integer or a short text.
pub open spec fn brief_value(v: ValueView) -> bool {
    match v {
        ValueView::Logical(_) => true,
        ValueView::Integer(i) => card_reading::is_int64(i),
        ValueView::Text(s) => brief_text(s),
        _ => false,
    }
}

/// No comment, or one of at most 40 characters.
pub open spec fn brief_comment(comment: Option<Seq<char>>) -> bool {
    match comment {
        None => true,
        Some(c) => 0 < c.len() <= 40 && is_ascii_chars(c) && card_reading::unpadded(c),
    }
}

/// A keyword with a short value and a short comment.
pub open spec fn brief(k: KeywordView) -> bool {
    &&& card_reading::keeps_name(k.name)
    &&& match k.value {
        Some(v) => brief_value(v),
        None => false,
    }
    &&& brief_comment(k.comment)
}

/// Keywords with short values and short comments.
#[verifier::opaque]
pub open spec fn all_brief(h: Seq<KeywordView>) -> bool {
    forall|i: int| 0 <= i < h.len() ==> brief(#[trigger] h[i])
}

/// A name in upper case that fills at most the name field, and is not that of a card that
/// ends or continues.
pub open spec fn name_fits(name: Seq<char>) -> bool {
    &&& keyword_names::upper_name(name)
    &&& name.len() <= 8
    &&& name[0] != 'C'
    &&& !text::is_space(name.last())
}

proof fn lemma_undoubled(b: Seq<u8>)
    requires
        forall|i: int| 0 <= i < b.len() ==> #[trigger] b[i] != 0x27,
    ensures
        keyword::doubled_quotes(b).len() == b.len(),
    decreases b.len(),
{
    if b.len() > 0 {
        lemma_undoubled(b.drop_last());
    }
}

/// A short keyword is read as it was written.
proof fn lemma_brief_keeps(k: KeywordView)
    requires
        brief(k),
    ensures
        card_reading::keeps(k),
{
    match k.comment {
        Some(c) => {
            text::lemma_bytes_chars(c);
        },
        None => {},
    }
    match k.value {
        Some(ValueView::Text(s)) => {
            assert(is_ascii_chars(s)) by {
                assert forall|i: int| 0 <= i < s.len() implies '\0' <= #[trigger] s[i]
                    <= '\u{7f}' by {}
            }
            text::lemma_bytes_chars(s);
            let b = text::bytes_of(s);
            assert forall|i: int| 0 <= i < b.len() implies #[trigger] b[i] != 0x27 by {
                assert(b[i] == s[i] as u8);
                assert('!' <= s[i] <= '~' && s[i] != '\'');
            }
            lemma_undoubled(b);
            if s.len() > 0 {
                assert('!' <= s[s.len() - 1] <= '~');
            }
        },
        Some(ValueView::Integer(i)) => {
            file_reading::lemma_decimal_len(i);
        },
        Some(ValueView::Logical(b)) => {
            reveal_strlit("T");
            reveal_strlit("F");
        },
        _ => {},
    }
}

/// A header with short keywords is read as it was written.
proof fn lemma_all_keep(h: Seq<KeywordView>)
    requires
        all_brief(h),
    ensures
        file_reading::keeps_all(h),
{
    reveal(all_brief);
    assert forall|i: int| 0 <= i < h.len() implies card_reading::keeps(#[trigger] h[i]) by {
        lemma_brief_keeps(h[i]);
    }
}

/// Setting a short keyword leaves a header with short keywords so.
proof fn lemma_brief_set(
    h: Seq<KeywordView>,
    name: Seq<char>,
    value: ValueView,
    comment: Option<Seq<char>>,
)
    requires
        all_brief(h),
        name_fits(name),
        brief_value(value),
        brief_comment(comment),
    ensures
        all_brief(header::with_set(h, name, value, comment)),
{
    reveal(all_brief);
    reveal_strlit("END");
    reveal_strlit("CONTINUE");
    header::lemma_position(h, name);
    let g = header::with_set(h, name, value, comment);
    assert(name.len() != "END"@.len());
    assert("CONTINUE"@[0] == 'C');
    text::lemma_bytes_chars(name);
    assert forall|i: int| 0 <= i < g.len() implies brief(#[trigger] g[i]) by {
        if i < h.len() {
            assert(brief(h[i]));
        }
    }
}

proof fn lemma_brief_none()
    ensures
        all_brief(Seq::empty()),
{
    reveal(all_brief);
}

proof fn lemma_brief_concat(a: Seq<KeywordView>, b: Seq<KeywordView>)
    requires
        all_brief(a),
        all_brief(b),
    ensures
        all_brief(a + b),
{
    reveal(all_brief);
    let c = a + b;
    assert forall|i: int| 0 <= i < c.len() implies brief(#[trigger] c[i]) by {
        if i < a.len() {
            assert(c[i] == a[i]);
        } else {
            assert(c[i] == b[i - a.len()]);
        }
    }
}

/// A numbered name of at most six letters and two digits fits.
proof fn lemma_numbered_fits(key: Seq<char>, i: int)
    requires
        keyword_names::upper_name(key),
        key.len() <= 6,
        key[0] != 'C',
        1 <= i < 100,
    ensures
        name_fits(keyword_names::numbered(key, i)),
{
    keyword_names::lemma_numbered(key, i);
    text::decimal_round_trip(i);
    let d = text::decimal(i);
    assert(d.len() <= 2) by {
        reveal_with_fuel(text::decimal_nat, 3);
    }
    let s = keyword_names::numbered(key, i);
    assert(s.last() == d[d.len() - 1]);
}

proof fn lemma_numbered_brief(
    h: Seq<KeywordView>,
    key: Seq<char>,
    values: Seq<usize>,
    comment: Option<Seq<char>>,
)
    requires
        all_brief(h),
        keyword_names::upper_name(key),
        key.len() <= 6,
        key[0] != 'C',
        values.len() < 100,
        brief_comment(comment),
    ensures
        all_brief(tile_encode::with_numbered(h, key, values, comment)),
    decreases values.len(),
{
    if values.len() > 0 {
        let front = values.drop_last();
        lemma_numbered_brief(h, key, front, comment);
        lemma_numbered_fits(key, values.len() as int);
        lemma_brief_set(
            tile_encode::with_numbered(h, key, front, comment),
            keyword_names::numbered(key, values.len() as int),
            ValueView::Integer((values.last() as i64) as int),
            comment,
        );
    }
}

proof fn lemma_int_brief(h: Seq<KeywordView>, name: Seq<char>, value: int)
    requires
        all_brief(h),
        name_fits(name),
        card_reading::is_int64(value),
    ensures
        all_brief(bintable::with_int(h, name, value)),
{
    lemma_brief_set(h, name, ValueView::Integer(value), None);
}

proof fn lemma_layout_fits()
    ensures
        name_fits("XTENSION"@),
        name_fits("BITPIX"@),
        name_fits("NAXIS"@),
        name_fits("NAXIS1"@),
        name_fits("NAXIS2"@),
        name_fits("PCOUNT"@),
        name_fits("GCOUNT"@),
        name_fits("TFIELDS"@),
        name_fits("TFORM1"@),
        keyword_names::upper_name("TTYPE"@) && "TTYPE"@.len() == 5 && "TTYPE"@[0] == 'T',
        keyword_names::upper_name("TFORM"@) && "TFORM"@.len() == 5 && "TFORM"@[0] == 'T',
{
    keyword_names::lemma_layout_names();
    reveal_strlit("XTENSION");
    reveal_strlit("BITPIX");
    reveal_strlit("NAXIS");
    reveal_strlit("NAXIS1");
    reveal_strlit("NAXIS2");
    reveal_strlit("PCOUNT");
    reveal_strlit("GCOUNT");
    reveal_strlit("TFIELDS");
    reveal_strlit("TFORM1");
    assert(text::ascii_upper("XTENSION"@) =~= "XTENSION"@);
    assert(text::ascii_upper("NAXIS1"@) =~= "NAXIS1"@);
    assert(text::ascii_upper("NAXIS2"@) =~= "NAXIS2"@);
    assert(text::ascii_upper("TFORM1"@) =~= "TFORM1"@);
}

/// The keywords of the layout of a table leave a header with short keywords so.
proof fn lemma_layout_brief(h: Seq<KeywordView>, row_len: usize, nrows: usize, pcount: int, n: int)
    requires
        all_brief(h),
        card_reading::is_int64(pcount),
        card_reading::is_int64(n),
    ensures
        all_brief(
            bintable::with_layout(
                h,
                "BINTABLE"@,
                "binary table extension"@,
                row_len,
                nrows,
                pcount,
                n,
            ),
        ),
{
    lemma_layout_fits();
    reveal_strlit("BINTABLE");
    reveal_strlit("binary table extension");
    let comment = Some("binary table extension"@);
    let h0 = header::with_set(h, "XTENSION"@, ValueView::Text("BINTABLE"@), comment);
    lemma_brief_set(h, "XTENSION"@, ValueView::Text("BINTABLE"@), comment);
    let a = bintable::with_int(h0, "BITPIX"@, 8);
    lemma_int_brief(h0, "BITPIX"@, 8);
    let h1 = bintable::with_int(a, "NAXIS"@, 2);
    lemma_int_brief(a, "NAXIS"@, 2);
    let h2 = bintable::with_int(h1, "NAXIS1"@, (row_len as i64) as int);
    lemma_int_brief(h1, "NAXIS1"@, (row_len as i64) as int);
    let h3 = bintable::with_int(h2, "NAXIS2"@, (nrows as i64) as int);
    lemma_int_brief(h2, "NAXIS2"@, (nrows as i64) as int);
    let h4 = bintable::with_int(h3, "PCOUNT"@, pcount);
    lemma_int_brief(h3, "PCOUNT"@, pcount);
    let h5 = bintable::with_int(h4, "GCOUNT"@, 1);
    lemma_int_brief(h4, "GCOUNT"@, 1);
    lemma_int_brief(h5, "TFIELDS"@, n);
}

/// A column with a short name and a short format, and nothing else.
pub open spec fn brief_column(c: BinColumnView) -> bool {
    &&& tile_reading::bare_column(c)
    &&& brief_text(c.name)
    &&& brief_text(c.format.tform())
}

/// The keywords of short columns leave a header with short keywords so.
proof fn lemma_columns_brief(h: Seq<KeywordView>, columns: Seq<BinColumnView>)
    requires
        all_brief(h),
        columns.len() < 100,
        forall|j: int| 0 <= j < columns.len() ==> brief_column(#[trigger] columns[j]),
    ensures
        all_brief(bintable::with_columns(h, columns)),
    decreases columns.len(),
{
    if columns.len() > 0 {
        let front = columns.drop_last();
        let n = columns.len() as int;
        let c = columns.last();
        assert(brief_column(columns[n - 1]));
        assert forall|j: int| 0 <= j < front.len() implies brief_column(#[trigger] front[j]) by {
            assert(front[j] == columns[j]);
        }
        lemma_columns_brief(h, front);
        lemma_layout_fits();
        lemma_numbered_fits("TTYPE"@, n);
        lemma_numbered_fits("TFORM"@, n);
        let g = bintable::with_columns(h, front);
        let named = header::with_set(
            g,
            keyword_names::numbered("TTYPE"@, n),
            ValueView::Text(c.name),
            None,
        );
        lemma_brief_set(
            g,
            keyword_names::numbered("TTYPE"@, n),
            ValueView::Text(c.name),
            None,
        );
        lemma_brief_set(
            named,
            keyword_names::numbered("TFORM"@, n),
            ValueView::Text(c.format.tform()),
            None,
        );
    }
}

/// The keywords of a table with short columns leave a header with short keywords so.
proof fn lemma_table_brief(h: Seq<KeywordView>, t: BinTableView)
    requires
        all_brief(h),
        t.columns.len() < 100,
        forall|j: int| 0 <= j < t.columns.len() ==> brief_column(#[trigger] t.columns[j]),
    ensures
        all_brief(bintable::with_table(h, t)),
{
    let a = ((t.heap.len() as usize) as i64) as int;
    let b = ((t.columns.len() as usize) as i64) as int;
    let g = bintable::with_layout(
        h,
        "BINTABLE"@,
        "binary table extension"@,
        t.row_len,
        t.nrows,
        a,
        b,
    );
    lemma_layout_brief(h, t.row_len, t.nrows, a, b);
    lemma_columns_brief(g, t.columns);
}

proof fn lemma_driver_fits()
    ensures
        name_fits("ZIMAGE"@),
        name_fits("ZCMPTYPE"@),
        name_fits("ZBITPIX"@),
        name_fits("ZNAXIS"@),
        name_fits("ZNAME1"@),
        name_fits("ZNAME2"@),
        name_fits("ZVAL1"@),
        name_fits("ZVAL2"@),
        name_fits("ZQUANTIZ"@),
        name_fits("ZDITHER0"@),
        name_fits("ZBLANK"@),
        name_fits("EXTNAME"@),
        name_fits("ZTENSION"@),
        name_fits("ZPCOUNT"@),
        name_fits("ZGCOUNT"@),
        keyword_names::upper_name("ZTILE"@) && "ZTILE"@.len() == 5 && "ZTILE"@[0] == 'Z',
        "ZNAXIS"@.len() == 6 && "ZNAXIS"@[0] == 'Z',
{
    keyword_names::lemma_compression_names();
    reveal_strlit("ZIMAGE");
    reveal_strlit("ZCMPTYPE");
    reveal_strlit("ZBITPIX");
    reveal_strlit("ZNAXIS");
    reveal_strlit("ZNAME1");
    reveal_strlit("ZNAME2");
    reveal_strlit("ZVAL1");
    reveal_strlit("ZVAL2");
    reveal_strlit("ZQUANTIZ");
    reveal_strlit("ZDITHER0");
    reveal_strlit("ZBLANK");
    reveal_strlit("EXTNAME");
    reveal_strlit("ZTENSION");
    reveal_strlit("ZPCOUNT");
    reveal_strlit("ZGCOUNT");
    assert(text::ascii_upper("ZNAME1"@) =~= "ZNAME1"@);
    assert(text::ascii_upper("ZNAME2"@) =~= "ZNAME2"@);
    assert(text::ascii_upper("ZVAL1"@) =~= "ZVAL1"@);
    assert(text::ascii_upper("ZVAL2"@) =~= "ZVAL2"@);
}

proof fn lemma_algorithm_brief(algorithm: CompressionType)
    ensures
        brief_text(algorithm.name()),
{
    reveal_strlit("RICE_1");
    reveal_strlit("GZIP_1");
    reveal_strlit("GZIP_2");
    reveal_strlit("HCOMPRESS_1");
    reveal_strlit("PLIO_1");
    reveal_strlit("NOCOMPRESS");
}

proof fn lemma_params_brief(h: Seq<KeywordView>, params: Option<(usize, usize)>)
    requires
        all_brief(h),
    ensures
        all_brief(tile_encode::with_rice_params(h, params)),
{
    lemma_driver_fits();
    reveal_strlit("BLOCKSIZE");
    reveal_strlit("BYTEPIX");
    if let Some((blocksize, bytepix)) = params {
        let a = ValueView::Text("BLOCKSIZE"@);
        let b = ValueView::Integer((blocksize as i64) as int);
        let c = ValueView::Text("BYTEPIX"@);
        let d = ValueView::Integer((bytepix as i64) as int);
        let h1 = header::with_set(h, "ZNAME1"@, a, None);
        let h2 = header::with_set(h1, "ZVAL1"@, b, None);
        let h3 = header::with_set(h2, "ZNAME2"@, c, None);
        lemma_brief_set(h, "ZNAME1"@, a, None);
        lemma_brief_set(h1, "ZVAL1"@, b, None);
        lemma_brief_set(h2, "ZNAME2"@, c, None);
        lemma_brief_set(h3, "ZVAL2"@, d, None);
    }
}

proof fn lemma_start_brief(
    ztile: Seq<usize>,
    algorithm: CompressionType,
    params: Option<(usize, usize)>,
)
    requires
        ztile.len() < 100,
    ensures
        all_brief(tile_encode::z_start(ztile, algorithm, params)),
{
    lemma_driver_fits();
    lemma_algorithm_brief(algorithm);
    lemma_brief_none();
    reveal_strlit("extension contains compressed image");
    reveal_strlit("size of tiles to be compressed");
    reveal_strlit("compression algorithm");
    let h0 = Seq::<KeywordView>::empty();
    let c1 = Some("extension contains compressed image"@);
    let c2 = Some("size of tiles to be compressed"@);
    let c3 = Some("compression algorithm"@);
    let h1 = header::with_set(h0, "ZIMAGE"@, ValueView::Logical(true), c1);
    let h2 = tile_encode::with_numbered(h1, "ZTILE"@, ztile, c2);
    let h3 = header::with_set(h2, "ZCMPTYPE"@, ValueView::Text(algorithm.name()), c3);
    lemma_brief_set(h0, "ZIMAGE"@, ValueView::Logical(true), c1);
    lemma_numbered_brief(h1, "ZTILE"@, ztile, c2);
    lemma_brief_set(h2, "ZCMPTYPE"@, ValueView::Text(algorithm.name()), c3);
    lemma_params_brief(h3, params);
}

/// The driver keywords of a compressed image are short.
proof fn lemma_driver_brief(
    kind: Bitpix,
    axes: Seq<usize>,
    ztile: Seq<usize>,
    algorithm: CompressionType,
    params: Option<(usize, usize)>,
)
    requires
        axes.len() < 100,
        ztile.len() < 100,
    ensures
        all_brief(tile_encode::z_header(kind, axes, ztile, algorithm, params)),
{
    lemma_driver_fits();
    lemma_start_brief(ztile, algorithm, params);
    reveal_strlit("COMPRESSED_IMAGE");
    reveal_strlit("IMAGE");
    reveal_strlit("Image extension");
    reveal_strlit("data type of original image");
    reveal_strlit("dimension of original image");
    reveal_strlit("original PCOUNT");
    reveal_strlit("original GCOUNT");
    let count = ValueView::Integer((axes.len() as i64) as int);
    let width = ValueView::Integer(kind.number());
    let h4 = tile_encode::z_start(ztile, algorithm, params);
    let h5 = header::with_set(h4, "EXTNAME"@, ValueView::Text("COMPRESSED_IMAGE"@), None);
    let c6 = Some("Image extension"@);
    let h6 = header::with_set(h5, "ZTENSION"@, ValueView::Text("IMAGE"@), c6);
    let c7 = Some("data type of original image"@);
    let h7 = header::with_set(h6, "ZBITPIX"@, width, c7);
    let c8 = Some("dimension of original image"@);
    let h8 = header::with_set(h7, "ZNAXIS"@, count, c8);
    let h9 = tile_encode::with_numbered(h8, "ZNAXIS"@, axes, None);
    let c10 = Some("original PCOUNT"@);
    let h10 = header::with_set(h9, "ZPCOUNT"@, ValueView::Integer(0), c10);
    let c11 = Some("original GCOUNT"@);
    lemma_brief_set(h4, "EXTNAME"@, ValueView::Text("COMPRESSED_IMAGE"@), None);
    lemma_brief_set(h5, "ZTENSION"@, ValueView::Text("IMAGE"@), c6);
    lemma_brief_set(h6, "ZBITPIX"@, width, c7);
    lemma_brief_set(h7, "ZNAXIS"@, count, c8);
    lemma_numbered_brief(h8, "ZNAXIS"@, axes, None);
    lemma_brief_set(h9, "ZPCOUNT"@, ValueView::Integer(0), c10);
    lemma_brief_set(h10, "ZGCOUNT"@, ValueView::Integer(1), c11);
}

/// The header of a compressed image, with the keywords of its table filled in, is read as
/// it was written.
pub proof fn lemma_compressed_keeps(z: Seq<KeywordView>, t: BinTableView, longest: int)
    requires
        all_brief(z),
        t.columns.len() < 100,
        forall|j: int| 0 <= j < t.columns.len() ==> brief_column(#[trigger] t.columns[j]),
        0 <= longest <= i64::MAX,
    ensures
        file_reading::keeps_all(
            hdu::with_data(
                tile_encode::compressed_header(z, t, longest),
                DataView::BinTable(t),
            ),
        ),
{
    lemma_layout_fits();
    lemma_brief_none();
    reveal_strlit("1PB(");
    reveal_strlit(")");
    reveal_strlit("variable length array");
    let form = "1PB("@ + text::decimal(longest) + ")"@;
    let comment = Some("variable length array"@);
    file_reading::lemma_decimal_len(longest);
    text::lemma_decimal_nat(longest as nat);
    assert(brief_text(form)) by {
        assert forall|i: int| 0 <= i < form.len() implies '!' <= #[trigger] form[i] <= '~'
            && form[i] != '\'' && form[i] != '&' by {
            if 4 <= i < form.len() - 1 {
                assert(text::is_digit(text::decimal_nat(longest as nat)[i - 4]));
            }
        }
    }
    let none = Seq::<KeywordView>::empty();
    lemma_table_brief(none, t);
    let a = bintable::with_table(none, t);
    lemma_brief_set(a, "TFORM1"@, ValueView::Text(form), comment);
    let b = header::with_set(a, "TFORM1"@, ValueView::Text(form), comment);
    lemma_brief_concat(b, z);
    lemma_table_brief(b + z, t);
    lemma_all_keep(bintable::with_table(b + z, t));
}

/// The driver keywords of a compressed form of an image are short.
pub proof fn lemma_image_drivers_brief(image: ImageView, opts: CompressOptions)
    requires
        image.axes.len() < 100,
        tile_encode::wanted_tile(opts, image.axes).len() < 100,
    ensures
        all_brief(tile_reading::driver_keywords(image, opts)),
{
    let kind = image.pixels.kind;
    let ztile = tile_encode::wanted_tile(opts, image.axes);
    let params = tile_reading::image_params(image, opts);
    lemma_driver_brief(kind, image.axes, ztile, opts.algorithm, params);
    if kind.number() < 0 {
        lemma_driver_fits();
        reveal_strlit("NONE");
        reveal_strlit("no dithering");
        lemma_brief_set(
            tile_encode::z_header(kind, image.axes, ztile, opts.algorithm, params),
            "ZQUANTIZ"@,
            ValueView::Text("NONE"@),
            Some("no dithering"@),
        );
    }
}

/// The driver keywords of a quantized image are short.
pub proof fn lemma_quantized_drivers_brief(image: ImageView, opts: CompressOptions)
    requires
        image.axes.len() < 100,
        tile_encode::wanted_tile(opts, image.axes).len() < 100,
    ensures
        all_brief(tile_encode::quantized_header(image, opts)),
{
    let kind = image.pixels.kind;
    let ztile = tile_encode::wanted_tile(opts, image.axes);
    let params = tile_encode::written_params(opts.algorithm, opts.blocksize, 4);
    lemma_driver_brief(kind, image.axes, ztile, opts.algorithm, params);
    lemma_driver_fits();
    reveal_strlit("SUBTRACTIVE_DITHER_1");
    reveal_strlit("SUBTRACTIVE_DITHER_2");
    reveal_strlit("NO_DITHER");
    reveal_strlit("quantization method");
    reveal_strlit("dithering offset seed");
    reveal_strlit("null value");
    let bare = tile_encode::z_header(kind, image.axes, ztile, opts.algorithm, params);
    let method = ValueView::Text(opts.dither.name());
    let c1 = Some("quantization method"@);
    let c2 = Some("dithering offset seed"@);
    let c3 = Some("null value"@);
    let h1 = header::with_set(bare, "ZQUANTIZ"@, method, c1);
    lemma_brief_set(bare, "ZQUANTIZ"@, method, c1);
    let blank = ValueView::Integer(dither::NULL_VALUE as int);
    if opts.dither.dithers() {
        let seed = ValueView::Integer(
            match opts.dither_seed {
                Some(s) => s as int,
                None => 1,
            },
        );
        let h2 = header::with_set(h1, "ZDITHER0"@, seed, c2);
        lemma_brief_set(h1, "ZDITHER0"@, seed, c2);
        lemma_brief_set(h2, "ZBLANK"@, blank, c3);
    } else {
        lemma_brief_set(h1, "ZBLANK"@, blank, c3);
    }
}

} // verus!
