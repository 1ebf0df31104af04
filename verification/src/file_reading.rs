//! What reading gives back of header data units and files that were written.
use crate::ascii_table;
use crate::bintable;
use crate::card_reading;
use crate::casts;
use crate::checksum;
use crate::error::ErrorView;
use crate::fits;
use crate::grid;
use crate::hdu;
use crate::hdu::{DataView, HduView};
use crate::header;
use crate::image_data;
use crate::io_utils;
use crate::keyword;
use crate::keyword::{KeywordView, ValueView};
use crate::keyword_names;
use crate::number;
use crate::text;
use crate::types::Bitpix;
use vstd::prelude::*;

verus! {

/// A name that checksums do not use.
pub open spec fn no_checksum_name(name: Seq<char>) -> bool {
    &&& keyword_names::upper_name(name)
    &&& keyword_names::head(name) != ('D', 'A', 'T', 'A')
    &&& keyword_names::head(name) != ('C', 'H', 'E', 'C')
}

/// Whether two headers say the same under every name that checksums do not use.
pub open spec fn agrees(g: Seq<KeywordView>, h: Seq<KeywordView>) -> bool {
    forall|name: Seq<char>|
        no_checksum_name(name) ==> #[trigger] keyword_names::found(g, name) == keyword_names::found(
            h,
            name,
        )
}

/// Checksums leave everything else that a header says.
pub proof fn stamped_agrees(h: Seq<KeywordView>, dsum: u32)
    ensures
        agrees(checksum::stamped(h, dsum), h),
{
    keyword_names::lemma_layout_names();
    let g = checksum::stamped(h, dsum);
    assert forall|name: Seq<char>| no_checksum_name(name) implies #[trigger] keyword_names::found(
        g,
        name,
    ) == keyword_names::found(h, name) by {
        let sum = ValueView::Text(text::decimal(dsum as int));
        let h1 = header::with_set(h, "DATASUM"@, sum, Some("data unit checksum"@));
        let zero = ValueView::Text("0000000000000000"@);
        let h2 = header::with_set(h1, "CHECKSUM"@, zero, Some("HDU checksum"@));
        let code = ValueView::Text(
            text::chars_of(checksum::encoded(checksum::stamp_value(h, dsum))),
        );
        keyword_names::lemma_heads_differ("DATASUM"@, name);
        keyword_names::lemma_heads_differ("CHECKSUM"@, name);
        keyword_names::found_after_set(h, "DATASUM"@, sum, Some("data unit checksum"@), name);
        keyword_names::found_after_set(h1, "CHECKSUM"@, zero, Some("HDU checksum"@), name);
        keyword_names::found_after_set(h2, "CHECKSUM"@, code, Some("HDU checksum"@), name);
    }
}

proof fn lemma_axes_agree(
    g: Seq<KeywordView>,
    h: Seq<KeywordView>,
    i: nat,
    naxis: nat,
    product: int,
)
    requires
        agrees(g, h),
    ensures
        header::axes_product(g, i, naxis, product) == header::axes_product(h, i, naxis, product),
    decreases naxis + 1 - i,
{
    if i <= naxis {
        keyword_names::lemma_layout_names();
        keyword_names::lemma_numbered("NAXIS"@, i as int);
        let name = keyword_names::numbered("NAXIS"@, i as int);
        assert(keyword_names::found(g, name) == keyword_names::found(h, name));
        match header::required_int(h, name) {
            Ok(n) => lemma_axes_agree(g, h, i + 1, naxis, product * casts::size_of(n)),
            Err(_) => {},
        }
    }
}

/// Headers that agree describe the same number of data bytes.
proof fn lemma_data_bytes_agree(g: Seq<KeywordView>, h: Seq<KeywordView>)
    requires
        agrees(g, h),
    ensures
        header::data_bytes(g) == header::data_bytes(h),
{
    keyword_names::lemma_layout_names();
    assert(keyword_names::found(g, "NAXIS"@) == keyword_names::found(h, "NAXIS"@));
    assert(keyword_names::found(g, "BITPIX"@) == keyword_names::found(h, "BITPIX"@));
    assert(keyword_names::found(g, "PCOUNT"@) == keyword_names::found(h, "PCOUNT"@));
    assert(keyword_names::found(g, "GCOUNT"@) == keyword_names::found(h, "GCOUNT"@));
    match header::required_int(h, "NAXIS"@) {
        Ok(naxis) => lemma_axes_agree(g, h, 1, casts::size_of(naxis) as nat, 1),
        Err(_) => {},
    }
}

/// A size that fits in a signed 64-bit integer is read as it was written.
pub proof fn lemma_size(n: usize)
    requires
        n <= i64::MAX,
    ensures
        (n as i64) as int == n,
        casts::size_of((n as i64) as int) == n,
{
}

/// The axes that a header gives under numbered names.
pub proof fn lemma_axes_from(h: Seq<KeywordView>, name: Seq<char>, axes: Seq<usize>, i: nat)
    requires
        1 <= i <= axes.len() + 1,
        forall|k: int|
            0 <= k < axes.len() ==> #[trigger] axes[k] <= i64::MAX && header::int_of(
                h,
                name + text::decimal(k + 1),
            ) == Some(axes[k] as int),
    ensures
        image_data::axes_from(h, name, i, axes.len()) == Ok::<Seq<usize>, ErrorView>(
            axes.skip(i - 1),
        ),
    decreases axes.len() + 1 - i,
{
    if i <= axes.len() {
        lemma_axes_from(h, name, axes, i + 1);
        let n = axes[i - 1];
        lemma_size(n);
        assert(header::int_of(h, name + text::decimal(i as int)) == Some(n as int));
        assert(seq![n] + axes.skip(i as int) =~= axes.skip(i - 1));
    } else {
        assert(axes.skip(i - 1) =~= Seq::empty());
    }
}

/// The product of the axes that a header gives.
proof fn lemma_axes_product(h: Seq<KeywordView>, axes: Seq<usize>, i: nat, product: int)
    requires
        1 <= i <= axes.len() + 1,
        product > 0,
        grid::volume(axes.skip(i - 1)) > 0,
        product * grid::volume(axes.skip(i - 1)) <= usize::MAX,
        forall|k: int|
            0 <= k < axes.len() ==> #[trigger] axes[k] <= i64::MAX && header::int_of(
                h,
                "NAXIS"@ + text::decimal(k + 1),
            ) == Some(axes[k] as int),
    ensures
        header::axes_product(h, i, axes.len(), product) == Ok::<int, ErrorView>(
            product * grid::volume(axes.skip(i - 1)),
        ),
    decreases axes.len() + 1 - i,
{
    let rest = axes.skip(i - 1);
    if i <= axes.len() {
        let n = axes[i - 1];
        let tail = axes.skip(i as int);
        lemma_size(n);
        assert(header::int_of(h, "NAXIS"@ + text::decimal(i as int)) == Some(n as int));
        assert(rest.skip(1) =~= tail);
        assert(rest[0] == n);
        assert(grid::volume(rest) == n * grid::volume(tail));
        let m = grid::volume(tail) as int;
        assert(m > 0 && n > 0) by (nonlinear_arith)
            requires
                n * m > 0,
                n >= 0,
                m >= 0,
        ;
        assert(product * (n * m) == (product * n) * m) by (nonlinear_arith);
        assert(product * n <= (product * n) * m && product * n > 0) by (nonlinear_arith)
            requires
                m > 0,
                product > 0,
                n > 0,
        ;
        lemma_axes_product(h, axes, i + 1, product * n);
        assert(casts::size_of(n as int) == n);
        assert(axes.skip((i + 1) - 1) == tail);
        assert(product * grid::volume(rest) == (product * n) * m);
    } else {
        assert(rest =~= Seq::empty());
        assert(product * 1 == product) by (nonlinear_arith);
    }
}

/// What a header says whose axes were set.
proof fn lemma_axes_found(h: Seq<KeywordView>, axes: Seq<usize>)
    ensures
        ({
            let g = image_data::with_axes(h, axes);
            &&& forall|name: Seq<char>|
                keyword_names::upper_name(name) && keyword_names::head(name) != (
                    'N',
                    'A',
                    'X',
                    'I',
                ) ==> #[trigger] keyword_names::found(g, name) == keyword_names::found(h, name)
            &&& keyword_names::found(g, "NAXIS"@) == keyword_names::found(h, "NAXIS"@)
            &&& forall|k: int|
                0 <= k < axes.len() ==> keyword_names::found(
                    g,
                    keyword_names::numbered("NAXIS"@, k + 1),
                ) == Some(Some(ValueView::Integer((#[trigger] axes[k] as i64) as int)))
        }),
    decreases axes.len(),
{
    keyword_names::lemma_layout_names();
    let g = image_data::with_axes(h, axes);
    if axes.len() > 0 {
        let front = axes.drop_last();
        let n = axes.len() as int;
        let before = image_data::with_axes(h, front);
        let key = keyword_names::numbered("NAXIS"@, n);
        let value = ValueView::Integer((axes.last() as i64) as int);
        lemma_axes_found(h, front);
        keyword_names::lemma_numbered("NAXIS"@, n);
        assert(g == header::with_set(before, key, value, None));
        assert forall|name: Seq<char>|
            keyword_names::upper_name(name) && keyword_names::head(name) != (
                'N',
                'A',
                'X',
                'I',
            ) implies #[trigger] keyword_names::found(g, name) == keyword_names::found(
            h,
            name,
        ) by {
            keyword_names::lemma_heads_differ(key, name);
            keyword_names::found_after_set(before, key, value, None, name);
            assert(keyword_names::found(before, name) == keyword_names::found(h, name));
        }
        keyword_names::lemma_numbers_differ("NAXIS"@, n, n);
        keyword_names::found_after_set(before, key, value, None, "NAXIS"@);
        assert forall|k: int| 0 <= k < axes.len() implies keyword_names::found(
            g,
            keyword_names::numbered("NAXIS"@, k + 1),
        ) == Some(Some(ValueView::Integer((#[trigger] axes[k] as i64) as int))) by {
            let other = keyword_names::numbered("NAXIS"@, k + 1);
            keyword_names::lemma_numbers_differ("NAXIS"@, n, k + 1);
            keyword_names::found_after_set(before, key, value, None, other);
            if k < n - 1 {
                assert(front[k] == axes[k]);
            }
        }
    }
}

/// What a header says whose image keywords were set.
proof fn lemma_image_found(h: Seq<KeywordView>, v: image_data::ImageView)
    ensures
        ({
            let g = image_data::with_image(h, v);
            &&& forall|name: Seq<char>|
                keyword_names::upper_name(name) && keyword_names::head(name) != (
                    'N',
                    'A',
                    'X',
                    'I',
                ) && keyword_names::head(name) != ('B', 'I', 'T', 'P')
                    ==> #[trigger] keyword_names::found(g, name) == keyword_names::found(h, name)
            &&& keyword_names::found(g, "BITPIX"@) == Some(
                Some(ValueView::Integer(v.pixels.kind.number())),
            )
            &&& keyword_names::found(g, "NAXIS"@) == Some(
                Some(ValueView::Integer((v.axes.len() as i64) as int)),
            )
            &&& forall|k: int|
                0 <= k < v.axes.len() ==> keyword_names::found(
                    g,
                    keyword_names::numbered("NAXIS"@, k + 1),
                ) == Some(Some(ValueView::Integer((#[trigger] v.axes[k] as i64) as int)))
        }),
{
    keyword_names::lemma_layout_names();
    let g = image_data::with_image(h, v);
    let kind = ValueView::Integer(v.pixels.kind.number());
    let count = ValueView::Integer((v.axes.len() as i64) as int);
    let h1 = header::with_set(h, "BITPIX"@, kind, None);
    let h2 = header::with_set(h1, "NAXIS"@, count, None);
    lemma_axes_found(h2, v.axes);
    keyword_names::lemma_heads_differ("BITPIX"@, "NAXIS"@);
    keyword_names::lemma_heads_differ("NAXIS"@, "BITPIX"@);
    keyword_names::found_after_set(h, "BITPIX"@, kind, None, "BITPIX"@);
    keyword_names::found_after_set(h1, "NAXIS"@, count, None, "BITPIX"@);
    keyword_names::found_after_set(h1, "NAXIS"@, count, None, "NAXIS"@);
    assert forall|name: Seq<char>|
        keyword_names::upper_name(name) && keyword_names::head(name) != ('N', 'A', 'X', 'I')
            && keyword_names::head(name) != (
            'B',
            'I',
            'T',
            'P',
        ) implies #[trigger] keyword_names::found(g, name) == keyword_names::found(h, name) by {
        keyword_names::lemma_heads_differ("BITPIX"@, name);
        keyword_names::lemma_heads_differ("NAXIS"@, name);
        keyword_names::found_after_set(h, "BITPIX"@, kind, None, name);
        keyword_names::found_after_set(h1, "NAXIS"@, count, None, name);
        assert(keyword_names::found(g, name) == keyword_names::found(h2, name));
    }
}

/// An image whose pixels fill its axes, of sizes that a header can give.
pub open spec fn whole_image(v: image_data::ImageView) -> bool {
    &&& image_data::pixels_valid(v.pixels)
    &&& v.pixels.values.len() == grid::volume(v.axes)
    &&& 0 < grid::volume(v.axes)
    &&& image_data::image_size(v) <= usize::MAX
    &&& 0 < v.axes.len() <= i64::MAX
    &&& v.axes.len() <= usize::MAX
    &&& forall|k: int| 0 <= k < v.axes.len() ==> #[trigger] v.axes[k] <= i64::MAX
}

/// Whether a header describes a payload, so that it is read as such.
pub open spec fn describes(g: Seq<KeywordView>, d: DataView) -> bool {
    &&& header::data_bytes(g) == Ok::<int, ErrorView>(hdu::payload(d).len() as int)
    &&& match d {
        DataView::Empty => true,
        DataView::Image(v) => {
            &&& hdu::describes_image(g)
            &&& casts::size_of(header::int_or(g, "PCOUNT"@, 0)) == 0
            &&& image_data::shape_of(g) == Ok::<(Bitpix, Seq<usize>), ErrorView>(
                (v.pixels.kind, v.axes),
            )
        },
        DataView::AsciiTable(t) => {
            &&& !hdu::describes_image(g)
            &&& header::string_of(g, "XTENSION"@) == Some("TABLE"@)
            &&& ascii_table::table_of(g, hdu::payload(d)) == Ok::<
                ascii_table::AsciiTableView,
                ErrorView,
            >(t)
        },
        DataView::BinTable(t) => {
            &&& !hdu::describes_image(g)
            &&& header::string_of(g, "XTENSION"@) == Some("BINTABLE"@)
            &&& bintable::table_of(g, hdu::payload(d)) == Ok::<bintable::BinTableView, ErrorView>(t)
        },
    }
}

/// The header of an image describes it.
proof fn lemma_image_describes(
    g: Seq<KeywordView>,
    h: Seq<KeywordView>,
    v: image_data::ImageView,
)
    requires
        agrees(g, image_data::with_image(h, v)),
        hdu::describes_image(h),
        header::int_or(h, "PCOUNT"@, 0) == 0,
        header::int_or(h, "GCOUNT"@, 1) == 1,
        whole_image(v),
    ensures
        describes(g, DataView::Image(v)),
{
    keyword_names::lemma_layout_names();
    let w = image_data::with_image(h, v);
    lemma_image_found(h, v);
    assert(keyword_names::found(g, "SIMPLE"@) == keyword_names::found(w, "SIMPLE"@));
    assert(keyword_names::found(g, "XTENSION"@) == keyword_names::found(w, "XTENSION"@));
    assert(keyword_names::found(g, "PCOUNT"@) == keyword_names::found(w, "PCOUNT"@));
    assert(keyword_names::found(g, "GCOUNT"@) == keyword_names::found(w, "GCOUNT"@));
    assert(keyword_names::found(g, "BITPIX"@) == keyword_names::found(w, "BITPIX"@));
    assert(keyword_names::found(g, "NAXIS"@) == keyword_names::found(w, "NAXIS"@));
    assert(keyword_names::found(w, "SIMPLE"@) == keyword_names::found(h, "SIMPLE"@));
    assert(keyword_names::found(w, "XTENSION"@) == keyword_names::found(h, "XTENSION"@));
    assert(keyword_names::found(w, "PCOUNT"@) == keyword_names::found(h, "PCOUNT"@));
    assert(keyword_names::found(w, "GCOUNT"@) == keyword_names::found(h, "GCOUNT"@));
    assert forall|k: int| 0 <= k < v.axes.len() implies #[trigger] v.axes[k] <= i64::MAX
        && header::int_of(g, "NAXIS"@ + text::decimal(k + 1)) == Some(v.axes[k] as int) by {
        let name = keyword_names::numbered("NAXIS"@, k + 1);
        keyword_names::lemma_numbered("NAXIS"@, k + 1);
        lemma_size(v.axes[k]);
        assert(keyword_names::found(g, name) == keyword_names::found(w, name));
    }
    let n = v.axes.len();
    lemma_size(n as usize);
    lemma_axes_from(g, "NAXIS"@, v.axes, 1);
    assert(v.axes.skip(0) =~= v.axes);
    crate::types::bitpix_of_number(v.pixels.kind, v.pixels.kind.number());
    let volume = grid::volume(v.axes) as int;
    let width = v.pixels.kind.width() as int;
    assert(header::value_width(v.pixels.kind.number()) == width);
    assert(volume <= volume * width) by (nonlinear_arith)
        requires
            width >= 1,
            volume >= 0,
    ;
    assert(volume * width == width * volume) by (nonlinear_arith);
    crate::words::lemma_words_encoded_len(
        image_data::signed_kind(v.pixels.kind),
        v.pixels.kind.width(),
        v.pixels.values,
    );
    lemma_axes_product(g, v.axes, 1, 1);
    assert(casts::size_of(1) == 1);
    assert(casts::size_of(0) == 0);
    assert(1 * volume == volume && width * 1 == width) by (nonlinear_arith);
    assert(header::axes_product(g, 1, n, 1) == Ok::<int, ErrorView>(volume));
    assert(header::data_bytes(g) == Ok::<int, ErrorView>(width * volume));
    assert(image_data::shape_of(g) == Ok::<(Bitpix, Seq<usize>), ErrorView>(
        (v.pixels.kind, v.axes),
    ));
    assert(hdu::describes_image(g));
}

/// An item without a comment.
pub open spec fn plain_item(
    name: Seq<char>,
    value: Option<ValueView>,
) -> keyword_names::Item {
    keyword_names::Item { name, value, comment: None }
}

/// An item with an integer.
pub open spec fn int_item(name: Seq<char>, value: int) -> keyword_names::Item {
    plain_item(name, Some(ValueView::Integer(value)))
}

/// The keywords of a table, apart from its columns.
pub open spec fn layout_items(
    extension: Seq<char>,
    comment: Seq<char>,
    row_len: usize,
    nrows: usize,
    pcount: int,
    tfields: int,
) -> Seq<keyword_names::Item> {
    Seq::empty().push(
        keyword_names::Item {
            name: "XTENSION"@,
            value: Some(ValueView::Text(extension)),
            comment: Some(comment),
        },
    ).push(int_item("BITPIX"@, 8)).push(int_item("NAXIS"@, 2)).push(
        int_item(keyword_names::numbered("NAXIS"@, 1), (row_len as i64) as int),
    ).push(int_item(keyword_names::numbered("NAXIS"@, 2), (nrows as i64) as int)).push(
        int_item("PCOUNT"@, pcount),
    ).push(int_item("GCOUNT"@, 1)).push(int_item("TFIELDS"@, tfields))
}

proof fn lemma_axis_names()
    ensures
        "NAXIS1"@ == keyword_names::numbered("NAXIS"@, 1),
        "NAXIS2"@ == keyword_names::numbered("NAXIS"@, 2),
{
    reveal_strlit("NAXIS");
    reveal_strlit("NAXIS1");
    reveal_strlit("NAXIS2");
    assert(text::decimal(1) =~= seq!['1']);
    assert(text::decimal(2) =~= seq!['2']);
    assert("NAXIS1"@ =~= keyword_names::numbered("NAXIS"@, 1));
    assert("NAXIS2"@ =~= keyword_names::numbered("NAXIS"@, 2));
}

proof fn lemma_layout_items(
    h: Seq<KeywordView>,
    extension: Seq<char>,
    comment: Seq<char>,
    row_len: usize,
    nrows: usize,
    pcount: int,
    tfields: int,
)
    ensures
        bintable::with_layout(h, extension, comment, row_len, nrows, pcount, tfields)
            == keyword_names::with_items(
            h,
            layout_items(extension, comment, row_len, nrows, pcount, tfields),
        ),
{
    lemma_axis_names();
    let i0 = Seq::<keyword_names::Item>::empty();
    let x0 = keyword_names::Item {
        name: "XTENSION"@,
        value: Some(ValueView::Text(extension)),
        comment: Some(comment),
    };
    let x1 = int_item("BITPIX"@, 8);
    let x2 = int_item("NAXIS"@, 2);
    let x3 = int_item(keyword_names::numbered("NAXIS"@, 1), (row_len as i64) as int);
    let x4 = int_item(keyword_names::numbered("NAXIS"@, 2), (nrows as i64) as int);
    let x5 = int_item("PCOUNT"@, pcount);
    let x6 = int_item("GCOUNT"@, 1);
    let x7 = int_item("TFIELDS"@, tfields);
    let i1 = i0.push(x0);
    let i2 = i1.push(x1);
    let i3 = i2.push(x2);
    let i4 = i3.push(x3);
    let i5 = i4.push(x4);
    let i6 = i5.push(x5);
    let i7 = i6.push(x6);
    keyword_names::lemma_with_push(h, i0, x0);
    keyword_names::lemma_with_push(h, i1, x1);
    keyword_names::lemma_with_push(h, i2, x2);
    keyword_names::lemma_with_push(h, i3, x3);
    keyword_names::lemma_with_push(h, i4, x4);
    keyword_names::lemma_with_push(h, i5, x5);
    keyword_names::lemma_with_push(h, i6, x6);
    keyword_names::lemma_with_push(h, i7, x7);
}

/// No two keywords of a table's layout have the same name.
proof fn lemma_layout_distinct(items: Seq<keyword_names::Item>, p: int, q: int)
    requires
        exists|e: Seq<char>, c: Seq<char>, r: usize, n: usize, pc: int, t: int|
            items == #[trigger] layout_items(e, c, r, n, pc, t),
        0 <= p < 8,
        0 <= q < 8,
        p != q,
    ensures
        !text::same_ignoring_case(items[p].name, items[q].name),
{
    keyword_names::lemma_layout_names();
    keyword_names::lemma_numbered("NAXIS"@, 1);
    keyword_names::lemma_numbered("NAXIS"@, 2);
    keyword_names::lemma_numbers_differ("NAXIS"@, 1, 2);
    keyword_names::lemma_numbers_differ("NAXIS"@, 2, 1);
    let a = items[p].name;
    let b = items[q].name;
    if 2 <= p <= 4 && 2 <= q <= 4 {
    } else {
        assert(keyword_names::head(a) != keyword_names::head(b));
        keyword_names::lemma_heads_differ(a, b);
    }
}

/// What a header says whose table layout was set.
proof fn lemma_layout_found(
    h: Seq<KeywordView>,
    extension: Seq<char>,
    comment: Seq<char>,
    row_len: usize,
    nrows: usize,
    pcount: int,
    tfields: int,
)
    ensures
        ({
            let g = bintable::with_layout(h, extension, comment, row_len, nrows, pcount, tfields);
            &&& keyword_names::found(g, "XTENSION"@) == Some(Some(ValueView::Text(extension)))
            &&& keyword_names::found(g, "BITPIX"@) == Some(Some(ValueView::Integer(8)))
            &&& keyword_names::found(g, "NAXIS"@) == Some(Some(ValueView::Integer(2)))
            &&& keyword_names::found(g, "NAXIS1"@) == Some(
                Some(ValueView::Integer((row_len as i64) as int)),
            )
            &&& keyword_names::found(g, "NAXIS2"@) == Some(
                Some(ValueView::Integer((nrows as i64) as int)),
            )
            &&& keyword_names::found(g, "PCOUNT"@) == Some(Some(ValueView::Integer(pcount)))
            &&& keyword_names::found(g, "GCOUNT"@) == Some(Some(ValueView::Integer(1)))
            &&& keyword_names::found(g, "TFIELDS"@) == Some(Some(ValueView::Integer(tfields)))
            &&& keyword_names::found(g, "SIMPLE"@) == keyword_names::found(h, "SIMPLE"@)
        }),
{
    keyword_names::lemma_layout_names();
    lemma_axis_names();
    keyword_names::lemma_numbered("NAXIS"@, 1);
    keyword_names::lemma_numbered("NAXIS"@, 2);
    lemma_layout_items(h, extension, comment, row_len, nrows, pcount, tfields);
    let items = layout_items(extension, comment, row_len, nrows, pcount, tfields);
    assert forall|q: int| 0 <= q < 8 implies keyword_names::found(
        keyword_names::with_items(h, items),
        (#[trigger] items[q]).name,
    ) == Some(items[q].value) by {
        assert forall|k: int| 0 <= k < items.len() && k != q implies !text::same_ignoring_case(
            (#[trigger] items[k]).name,
            items[q].name,
        ) by {
            lemma_layout_distinct(items, k, q);
        }
        keyword_names::found_item(h, items, q);
    }
    assert(items[0].name == "XTENSION"@);
    assert(items[1].name == "BITPIX"@);
    assert(items[2].name == "NAXIS"@);
    assert(items[3].name == "NAXIS1"@);
    assert(items[4].name == "NAXIS2"@);
    assert(items[5].name == "PCOUNT"@);
    assert(items[6].name == "GCOUNT"@);
    assert(items[7].name == "TFIELDS"@);
    lemma_layout_frame(h, extension, comment, row_len, nrows, pcount, tfields, "SIMPLE"@);
}

/// Whether a name starts like one of a table's layout.
pub open spec fn layout_head(name: Seq<char>) -> bool {
    let f = keyword_names::head(name);
    ||| f == ('X', 'T', 'E', 'N')
    ||| f == ('B', 'I', 'T', 'P')
    ||| f == ('N', 'A', 'X', 'I')
    ||| f == ('P', 'C', 'O', 'U')
    ||| f == ('G', 'C', 'O', 'U')
    ||| f == ('T', 'F', 'I', 'E')
}

/// The layout of a table leaves what a header says under other names.
pub proof fn lemma_layout_frame(
    h: Seq<KeywordView>,
    extension: Seq<char>,
    comment: Seq<char>,
    row_len: usize,
    nrows: usize,
    pcount: int,
    tfields: int,
    name: Seq<char>,
)
    requires
        keyword_names::upper_name(name),
        !layout_head(name),
    ensures
        keyword_names::found(
            bintable::with_layout(h, extension, comment, row_len, nrows, pcount, tfields),
            name,
        ) == keyword_names::found(h, name),
{
    keyword_names::lemma_layout_names();
    keyword_names::lemma_numbered("NAXIS"@, 1);
    keyword_names::lemma_numbered("NAXIS"@, 2);
    lemma_layout_items(h, extension, comment, row_len, nrows, pcount, tfields);
    let items = layout_items(extension, comment, row_len, nrows, pcount, tfields);
    assert forall|k: int| 0 <= k < items.len() implies vstd::utf8::is_ascii_chars(
        (#[trigger] items[k]).name,
    ) && !text::same_ignoring_case(items[k].name, name) by {
        keyword_names::lemma_heads_differ(items[k].name, name);
    }
    keyword_names::found_beside_items(h, items, name);
}

/// The fields of a table's column.
pub struct ColumnFields {
    pub name: Seq<char>,
    pub tbcol: Option<int>,
    pub form: Seq<char>,
    pub tscal: Option<Seq<char>>,
    pub tzero: Option<Seq<char>>,
    pub tunit: Option<Seq<char>>,
}

/// The name of a column's keyword, without its number.
pub open spec fn column_prefix(k: int) -> Seq<char> {
    if k == 0 {
        "TTYPE"@
    } else if k == 1 {
        "TBCOL"@
    } else if k == 2 {
        "TFORM"@
    } else if k == 3 {
        "TSCAL"@
    } else if k == 4 {
        "TZERO"@
    } else {
        "TUNIT"@
    }
}

/// A text value that may be missing.
pub open spec fn maybe_text(s: Option<Seq<char>>) -> Option<ValueView> {
    match s {
        Some(t) => Some(ValueView::Text(t)),
        None => None,
    }
}

/// A real value that may be missing.
pub open spec fn maybe_real(s: Option<Seq<char>>) -> Option<ValueView> {
    match s {
        Some(t) => Some(ValueView::Float(t)),
        None => None,
    }
}

/// An integer value that may be missing.
pub open spec fn maybe_int(s: Option<int>) -> Option<ValueView> {
    match s {
        Some(t) => Some(ValueView::Integer(t)),
        None => None,
    }
}

/// The value of a column's keyword.
pub open spec fn column_value(c: ColumnFields, k: int) -> Option<ValueView> {
    if k == 0 {
        Some(ValueView::Text(c.name))
    } else if k == 1 {
        maybe_int(c.tbcol)
    } else if k == 2 {
        Some(ValueView::Text(c.form))
    } else if k == 3 {
        maybe_real(c.tscal)
    } else if k == 4 {
        maybe_real(c.tzero)
    } else {
        maybe_text(c.tunit)
    }
}

/// One keyword of column `i` (from one).
pub open spec fn column_item(c: ColumnFields, i: int, k: int) -> keyword_names::Item {
    plain_item(keyword_names::numbered(column_prefix(k), i), column_value(c, k))
}

/// The keywords of all columns.
pub open spec fn column_items(cols: Seq<ColumnFields>) -> Seq<keyword_names::Item> {
    Seq::new(6 * cols.len(), |k: int| column_item(cols[k / 6], k / 6 + 1, k % 6))
}

/// Keywords of columns have the same name only where they are the same field of the same
/// column.
pub proof fn lemma_column_names_differ(p: int, i: int, q: int, j: int)
    requires
        0 <= p < 6,
        0 <= q < 6,
        i >= 0,
        j >= 0,
    ensures
        text::same_ignoring_case(
            keyword_names::numbered(column_prefix(p), i),
            keyword_names::numbered(column_prefix(q), j),
        ) <==> p == q && i == j,
        keyword_names::upper_name(keyword_names::numbered(column_prefix(p), i)),
        !layout_head(keyword_names::numbered(column_prefix(p), i)),
        no_checksum_name(keyword_names::numbered(column_prefix(p), i)),
{
    keyword_names::lemma_layout_names();
    keyword_names::lemma_numbered(column_prefix(p), i);
    keyword_names::lemma_numbered(column_prefix(q), j);
    if p == q {
        keyword_names::lemma_numbers_differ(column_prefix(p), i, j);
    } else {
        keyword_names::lemma_heads_differ(
            keyword_names::numbered(column_prefix(p), i),
            keyword_names::numbered(column_prefix(q), j),
        );
    }
}

/// What a header says of a column whose keywords were set.
pub proof fn lemma_column_found(h: Seq<KeywordView>, cols: Seq<ColumnFields>, q: int, j: int)
    requires
        0 <= q < 6,
        1 <= j <= cols.len(),
    ensures
        keyword_names::found(
            keyword_names::with_items(h, column_items(cols)),
            keyword_names::numbered(column_prefix(q), j),
        ) == (match column_value(cols[j - 1], q) {
            Some(v) => Some(Some(v)),
            None => keyword_names::found(h, keyword_names::numbered(column_prefix(q), j)),
        }),
{
    let items = column_items(cols);
    let k = 6 * (j - 1) + q;
    assert(k / 6 == j - 1 && k % 6 == q);
    assert(items[k] == column_item(cols[j - 1], j, q));
    assert forall|m: int| 0 <= m < items.len() implies vstd::utf8::is_ascii_chars(
        (#[trigger] items[m]).name,
    ) && (m != k ==> !text::same_ignoring_case(items[m].name, items[k].name)) by {
        lemma_column_names_differ(m % 6, m / 6 + 1, q, j);
        if m != k {
            assert(m == 6 * (m / 6) + m % 6);
        }
    }
    keyword_names::found_item(h, items, k);
}

/// Whether a name starts like one of a column.
pub open spec fn column_head(name: Seq<char>) -> bool {
    let f = keyword_names::head(name);
    ||| f == ('T', 'T', 'Y', 'P')
    ||| f == ('T', 'B', 'C', 'O')
    ||| f == ('T', 'F', 'O', 'R')
    ||| f == ('T', 'S', 'C', 'A')
    ||| f == ('T', 'Z', 'E', 'R')
    ||| f == ('T', 'U', 'N', 'I')
}

/// The keywords of columns leave what a header says under other names.
pub proof fn lemma_columns_frame(h: Seq<KeywordView>, cols: Seq<ColumnFields>, name: Seq<char>)
    requires
        keyword_names::upper_name(name),
        !column_head(name),
    ensures
        keyword_names::found(keyword_names::with_items(h, column_items(cols)), name)
            == keyword_names::found(h, name),
{
    keyword_names::lemma_layout_names();
    let items = column_items(cols);
    assert forall|m: int| 0 <= m < items.len() implies vstd::utf8::is_ascii_chars(
        (#[trigger] items[m]).name,
    ) && !text::same_ignoring_case(items[m].name, name) by {
        keyword_names::lemma_numbered(column_prefix(m % 6), m / 6 + 1);
        keyword_names::lemma_heads_differ(items[m].name, name);
    }
    keyword_names::found_beside_items(h, items, name);
}

/// The keywords of one more column are set behind the others.
proof fn lemma_columns_push(h: Seq<KeywordView>, cols: Seq<ColumnFields>, c: ColumnFields)
    ensures
        ({
            let before = keyword_names::with_items(h, column_items(cols));
            let n = cols.len() as int + 1;
            let g0 = keyword_names::with_item(before, column_item(c, n, 0));
            let g1 = keyword_names::with_item(g0, column_item(c, n, 1));
            let g2 = keyword_names::with_item(g1, column_item(c, n, 2));
            let g3 = keyword_names::with_item(g2, column_item(c, n, 3));
            let g4 = keyword_names::with_item(g3, column_item(c, n, 4));
            keyword_names::with_items(h, column_items(cols.push(c))) == keyword_names::with_item(
                g4,
                column_item(c, n, 5),
            )
        }),
{
    let i0 = column_items(cols);
    let n = cols.len() as int + 1;
    let i1 = i0.push(column_item(c, n, 0));
    let i2 = i1.push(column_item(c, n, 1));
    let i3 = i2.push(column_item(c, n, 2));
    let i4 = i3.push(column_item(c, n, 3));
    let i5 = i4.push(column_item(c, n, 4));
    let i6 = i5.push(column_item(c, n, 5));
    keyword_names::lemma_with_push(h, i0, column_item(c, n, 0));
    keyword_names::lemma_with_push(h, i1, column_item(c, n, 1));
    keyword_names::lemma_with_push(h, i2, column_item(c, n, 2));
    keyword_names::lemma_with_push(h, i3, column_item(c, n, 3));
    keyword_names::lemma_with_push(h, i4, column_item(c, n, 4));
    keyword_names::lemma_with_push(h, i5, column_item(c, n, 5));
    let all = column_items(cols.push(c));
    assert forall|k: int| 0 <= k < all.len() implies #[trigger] all[k] == i6[k] by {
        if k < 6 * cols.len() {
            assert(k / 6 < cols.len());
            assert(cols.push(c)[k / 6] == cols[k / 6]);
        } else {
            assert(k / 6 == cols.len());
            assert(k % 6 == k - 6 * cols.len());
        }
    }
    assert(all =~= i6);
}

/// The fields of a column of a binary table.
pub open spec fn bin_fields(c: bintable::BinColumnView) -> ColumnFields {
    ColumnFields {
        name: c.name,
        tbcol: None,
        form: c.format.tform(),
        tscal: number::unless_one(c.tscal),
        tzero: number::unless_zero(c.tzero),
        tunit: c.tunit,
    }
}

/// The fields of the columns of a binary table.
pub open spec fn all_bin_fields(cols: Seq<bintable::BinColumnView>) -> Seq<ColumnFields> {
    Seq::new(cols.len(), |i: int| bin_fields(cols[i]))
}

pub proof fn lemma_bin_columns(h: Seq<KeywordView>, cols: Seq<bintable::BinColumnView>)
    ensures
        bintable::with_columns(h, cols) == keyword_names::with_items(
            h,
            column_items(all_bin_fields(cols)),
        ),
    decreases cols.len(),
{
    if cols.len() == 0 {
        assert(column_items(all_bin_fields(cols)) =~= Seq::empty());
    } else {
        let front = cols.drop_last();
        let c = cols.last();
        lemma_bin_columns(h, front);
        lemma_columns_push(h, all_bin_fields(front), bin_fields(c));
        assert(all_bin_fields(front).push(bin_fields(c)) =~= all_bin_fields(cols));
    }
}

/// The fields of a column of an ASCII table.
pub open spec fn ascii_fields(c: ascii_table::AsciiColumnView) -> ColumnFields {
    ColumnFields {
        name: c.name,
        tbcol: Some((c.tbcol as i64) as int),
        form: c.format.tform(),
        tscal: number::unless_one(c.tscal),
        tzero: number::unless_zero(c.tzero),
        tunit: c.tunit,
    }
}

/// The fields of the columns of an ASCII table.
pub open spec fn all_ascii_fields(cols: Seq<ascii_table::AsciiColumnView>) -> Seq<ColumnFields> {
    Seq::new(cols.len(), |i: int| ascii_fields(cols[i]))
}

proof fn lemma_ascii_columns(h: Seq<KeywordView>, cols: Seq<ascii_table::AsciiColumnView>)
    ensures
        ascii_table::with_columns(h, cols) == keyword_names::with_items(
            h,
            column_items(all_ascii_fields(cols)),
        ),
    decreases cols.len(),
{
    if cols.len() == 0 {
        assert(column_items(all_ascii_fields(cols)) =~= Seq::empty());
    } else {
        let front = cols.drop_last();
        let c = cols.last();
        lemma_ascii_columns(h, front);
        lemma_columns_push(h, all_ascii_fields(front), ascii_fields(c));
        assert(all_ascii_fields(front).push(ascii_fields(c)) =~= all_ascii_fields(cols));
    }
}

/// Whether a header gives a column no scale, zero point or unit where the column has none.
pub open spec fn silent(h: Seq<KeywordView>, c: ColumnFields, i: int) -> bool {
    let n = text::decimal(i);
    &&& c.tscal is None ==> number::unless_one(header::float_of(h, "TSCAL"@ + n)) is None
    &&& c.tzero is None ==> number::unless_zero(header::float_of(h, "TZERO"@ + n)) is None
    &&& c.tunit is None ==> header::string_of(h, "TUNIT"@ + n) is None
}

/// What a header says of the fields of column `j` (from one).
spec fn says_column(g: Seq<KeywordView>, c: ColumnFields, j: int) -> bool {
    let n = text::decimal(j);
    &&& header::string_of(g, "TTYPE"@ + n) == Some(c.name)
    &&& header::string_of(g, "TFORM"@ + n) == Some(c.form)
    &&& c.tbcol is Some ==> header::int_of(g, "TBCOL"@ + n) == c.tbcol
    &&& number::unless_one(header::float_of(g, "TSCAL"@ + n)) == number::unless_one(c.tscal)
    &&& number::unless_zero(header::float_of(g, "TZERO"@ + n)) == number::unless_zero(c.tzero)
    &&& header::string_of(g, "TUNIT"@ + n) == c.tunit
}

proof fn lemma_says_column(
    g: Seq<KeywordView>,
    h: Seq<KeywordView>,
    base: Seq<KeywordView>,
    cols: Seq<ColumnFields>,
    j: int,
)
    requires
        agrees(g, keyword_names::with_items(base, column_items(cols))),
        1 <= j <= cols.len(),
        silent(h, cols[j - 1], j),
        forall|q: int|
            0 <= q < 6 ==> keyword_names::found(
                base,
                keyword_names::numbered(#[trigger] column_prefix(q), j),
            ) == keyword_names::found(h, keyword_names::numbered(column_prefix(q), j)),
    ensures
        says_column(g, cols[j - 1], j),
{
    let w = keyword_names::with_items(base, column_items(cols));
    assert forall|q: int| 0 <= q < 6 implies keyword_names::found(
        g,
        keyword_names::numbered(#[trigger] column_prefix(q), j),
    ) == (match column_value(cols[j - 1], q) {
        Some(v) => Some(Some(v)),
        None => keyword_names::found(h, keyword_names::numbered(column_prefix(q), j)),
    }) by {
        lemma_column_names_differ(q, j, q, j);
        lemma_column_found(base, cols, q, j);
        let name = keyword_names::numbered(column_prefix(q), j);
        assert(keyword_names::found(g, name) == keyword_names::found(w, name));
    }
    assert(column_prefix(0) == "TTYPE"@);
    assert(column_prefix(1) == "TBCOL"@);
    assert(column_prefix(2) == "TFORM"@);
    assert(column_prefix(3) == "TSCAL"@);
    assert(column_prefix(4) == "TZERO"@);
    assert(column_prefix(5) == "TUNIT"@);
}

/// The layout of a table and its columns, as a header that agrees with them says it.
proof fn lemma_table_says(
    g: Seq<KeywordView>,
    h: Seq<KeywordView>,
    base: Seq<KeywordView>,
    extension: Seq<char>,
    comment: Seq<char>,
    row_len: usize,
    nrows: usize,
    pcount: int,
    cols: Seq<ColumnFields>,
)
    requires
        row_len <= i64::MAX,
        nrows <= i64::MAX,
        cols.len() <= i64::MAX,
        base == bintable::with_layout(
            h,
            extension,
            comment,
            row_len,
            nrows,
            pcount,
            cols.len() as int,
        ),
        agrees(g, keyword_names::with_items(base, column_items(cols))),
        forall|j: int| 0 <= j < cols.len() ==> silent(h, #[trigger] cols[j], j + 1),
    ensures
        header::string_of(g, "XTENSION"@) == Some(extension),
        header::int_of(g, "BITPIX"@) == Some(8int),
        header::int_of(g, "NAXIS"@) == Some(2int),
        header::int_of(g, "NAXIS1"@) == Some(row_len as int),
        header::int_of(g, "NAXIS2"@) == Some(nrows as int),
        header::int_of(g, "PCOUNT"@) == Some(pcount),
        header::int_of(g, "GCOUNT"@) == Some(1int),
        header::int_of(g, "TFIELDS"@) == Some(cols.len() as int),
        keyword_names::found(g, "SIMPLE"@) == keyword_names::found(h, "SIMPLE"@),
        forall|j: int| 0 <= j < cols.len() ==> says_column(g, #[trigger] cols[j], j + 1),
{
    let w = keyword_names::with_items(base, column_items(cols));
    keyword_names::lemma_layout_names();
    lemma_axis_names();
    keyword_names::lemma_numbered("NAXIS"@, 1);
    keyword_names::lemma_numbered("NAXIS"@, 2);
    lemma_layout_found(h, extension, comment, row_len, nrows, pcount, cols.len() as int);
    lemma_columns_frame(base, cols, "XTENSION"@);
    lemma_columns_frame(base, cols, "BITPIX"@);
    lemma_columns_frame(base, cols, "NAXIS"@);
    lemma_columns_frame(base, cols, "NAXIS1"@);
    lemma_columns_frame(base, cols, "NAXIS2"@);
    lemma_columns_frame(base, cols, "PCOUNT"@);
    lemma_columns_frame(base, cols, "GCOUNT"@);
    lemma_columns_frame(base, cols, "TFIELDS"@);
    lemma_columns_frame(base, cols, "SIMPLE"@);
    assert(keyword_names::found(g, "XTENSION"@) == keyword_names::found(w, "XTENSION"@));
    assert(keyword_names::found(g, "BITPIX"@) == keyword_names::found(w, "BITPIX"@));
    assert(keyword_names::found(g, "NAXIS"@) == keyword_names::found(w, "NAXIS"@));
    assert(keyword_names::found(g, "NAXIS1"@) == keyword_names::found(w, "NAXIS1"@));
    assert(keyword_names::found(g, "NAXIS2"@) == keyword_names::found(w, "NAXIS2"@));
    assert(keyword_names::found(g, "PCOUNT"@) == keyword_names::found(w, "PCOUNT"@));
    assert(keyword_names::found(g, "GCOUNT"@) == keyword_names::found(w, "GCOUNT"@));
    assert(keyword_names::found(g, "TFIELDS"@) == keyword_names::found(w, "TFIELDS"@));
    assert(keyword_names::found(g, "SIMPLE"@) == keyword_names::found(w, "SIMPLE"@));
    assert forall|j: int| 0 <= j < cols.len() implies says_column(g, #[trigger] cols[j], j + 1) by {
        assert forall|q: int| 0 <= q < 6 implies keyword_names::found(
            base,
            keyword_names::numbered(#[trigger] column_prefix(q), j + 1),
        ) == keyword_names::found(h, keyword_names::numbered(column_prefix(q), j + 1)) by {
            lemma_column_names_differ(q, j + 1, q, j + 1);
            lemma_layout_frame(
                h,
                extension,
                comment,
                row_len,
                nrows,
                pcount,
                cols.len() as int,
                keyword_names::numbered(column_prefix(q), j + 1),
            );
        }
        lemma_says_column(g, h, base, cols, j + 1);
    }
}

/// The number of data bytes that a header of a table describes.
proof fn lemma_table_bytes(g: Seq<KeywordView>, row_len: usize, nrows: usize, pcount: usize)
    requires
        header::int_of(g, "BITPIX"@) == Some(8int),
        header::int_of(g, "NAXIS"@) == Some(2int),
        header::int_of(g, "NAXIS1"@) == Some(row_len as int),
        header::int_of(g, "NAXIS2"@) == Some(nrows as int),
        header::int_of(g, "PCOUNT"@) == Some(pcount as int),
        header::int_of(g, "GCOUNT"@) == Some(1int),
        row_len <= i64::MAX,
        nrows <= i64::MAX,
        pcount <= i64::MAX,
        row_len * nrows + pcount <= usize::MAX,
    ensures
        header::data_bytes(g) == Ok::<int, ErrorView>(row_len * nrows + pcount),
{
    lemma_axis_names();
    lemma_size(row_len);
    lemma_size(nrows);
    lemma_size(pcount);
    lemma_size(2);
    lemma_size(1);
    let p = row_len * nrows;
    assert(p >= 0) by (nonlinear_arith)
        requires
            p == row_len * nrows,
    ;
    assert(1 * row_len == row_len);
    assert(header::axes_product(g, 3, 2, p) == Ok::<int, ErrorView>(p));
    assert(header::axes_product(g, 2, 2, row_len as int) == Ok::<int, ErrorView>(p));
    assert(header::axes_product(g, 1, 2, 1) == Ok::<int, ErrorView>(p));
    let a = header::value_width(8);
    let b = casts::size_of(1) as int;
    let c = pcount + p;
    assert((a * b) * c == c && a * b == 1) by (nonlinear_arith)
        requires
            a == 1,
            b == 1,
    ;
}

/// Columns of a binary table without the scales and zero points that spell the default.
pub open spec fn settled_columns(cols: Seq<bintable::BinColumnView>) -> Seq<
    bintable::BinColumnView,
> {
    Seq::new(
        cols.len(),
        |i: int|
            bintable::BinColumnView {
                tscal: number::unless_one(cols[i].tscal),
                tzero: number::unless_zero(cols[i].tzero),
                ..cols[i]
            },
    )
}

/// A binary table without the scales and zero points that spell the default.
pub open spec fn settled_bintable(t: bintable::BinTableView) -> bintable::BinTableView {
    bintable::BinTableView { columns: settled_columns(t.columns), ..t }
}

/// Columns of an ASCII table without the scales and zero points that spell the default.
pub open spec fn settled_ascii_columns(cols: Seq<ascii_table::AsciiColumnView>) -> Seq<
    ascii_table::AsciiColumnView,
> {
    Seq::new(
        cols.len(),
        |i: int|
            ascii_table::AsciiColumnView {
                tscal: number::unless_one(cols[i].tscal),
                tzero: number::unless_zero(cols[i].tzero),
                ..cols[i]
            },
    )
}

/// An ASCII table without the scales and zero points that spell the default.
pub open spec fn settled_ascii_table(
    t: ascii_table::AsciiTableView,
) -> ascii_table::AsciiTableView {
    ascii_table::AsciiTableView { columns: settled_ascii_columns(t.columns), ..t }
}

/// Data whose tables hold no scale or zero point that spells the default.
pub open spec fn settled(d: DataView) -> DataView {
    match d {
        DataView::AsciiTable(t) => DataView::AsciiTable(settled_ascii_table(t)),
        DataView::BinTable(t) => DataView::BinTable(settled_bintable(t)),
        _ => d,
    }
}

/// A table whose columns hold no scale or zero point that spells the default is settled.
pub proof fn settled_is_same(t: bintable::BinTableView)
    requires
        forall|j: int|
            0 <= j < t.columns.len() ==> number::unless_one((#[trigger] t.columns[j]).tscal)
                == t.columns[j].tscal && number::unless_zero(t.columns[j].tzero)
                == t.columns[j].tzero,
    ensures
        settled(DataView::BinTable(t)) == DataView::BinTable(t),
{
    assert(settled_columns(t.columns) =~= t.columns);
}

proof fn lemma_bin_columns_from(
    g: Seq<KeywordView>,
    cols: Seq<bintable::BinColumnView>,
    i: nat,
)
    requires
        1 <= i <= cols.len() + 1,
        forall|j: int| 0 <= j < cols.len() ==> bintable::plain_format((#[trigger] cols[j]).format),
        forall|j: int|
            0 <= j < cols.len() ==> says_column(g, #[trigger] all_bin_fields(cols)[j], j + 1),
    ensures
        bintable::columns_from(g, i, cols.len()) == Ok::<Seq<bintable::BinColumnView>, ErrorView>(
            settled_columns(cols).skip(i - 1),
        ),
    decreases cols.len() + 1 - i,
{
    if i <= cols.len() {
        lemma_bin_columns_from(g, cols, i + 1);
        let c = settled_columns(cols)[i - 1];
        assert(says_column(g, all_bin_fields(cols)[i - 1], i as int));
        bintable::tform_round_trip(c.format);
        assert(bintable::column_of(g, i) == Ok::<bintable::BinColumnView, ErrorView>(c));
        assert(seq![c] + settled_columns(cols).skip(i as int) =~= settled_columns(cols).skip(
            i - 1,
        ));
    } else {
        assert(settled_columns(cols).skip(i - 1) =~= Seq::empty());
    }
}

proof fn lemma_ascii_columns_from(
    g: Seq<KeywordView>,
    cols: Seq<ascii_table::AsciiColumnView>,
    i: nat,
)
    requires
        1 <= i <= cols.len() + 1,
        forall|j: int| 0 <= j < cols.len() ==> (#[trigger] cols[j]).tbcol <= i64::MAX,
        forall|j: int|
            0 <= j < cols.len() ==> says_column(g, #[trigger] all_ascii_fields(cols)[j], j + 1),
    ensures
        ascii_table::columns_from(g, i, cols.len()) == Ok::<
            Seq<ascii_table::AsciiColumnView>,
            ErrorView,
        >(settled_ascii_columns(cols).skip(i - 1)),
    decreases cols.len() + 1 - i,
{
    if i <= cols.len() {
        lemma_ascii_columns_from(g, cols, i + 1);
        let c = settled_ascii_columns(cols)[i - 1];
        assert(says_column(g, all_ascii_fields(cols)[i - 1], i as int));
        ascii_table::ascii_tform_round_trip(c.format);
        lemma_size(c.tbcol);
        assert(ascii_table::column_of(g, i) == Ok::<ascii_table::AsciiColumnView, ErrorView>(c));
        assert(seq![c] + settled_ascii_columns(cols).skip(i as int)
            =~= settled_ascii_columns(cols).skip(i - 1));
    } else {
        assert(settled_ascii_columns(cols).skip(i - 1) =~= Seq::empty());
    }
}

/// A binary table whose main data fill its rows, of sizes that a header can give.
pub open spec fn plain_bintable(t: bintable::BinTableView) -> bool {
    &&& t.main_data.len() == t.row_len * t.nrows
    &&& t.main_data.len() <= usize::MAX
    &&& t.row_len <= i64::MAX
    &&& t.nrows <= i64::MAX
    &&& t.heap.len() <= i64::MAX
    &&& t.heap.len() <= usize::MAX
    &&& t.columns.len() <= i64::MAX
    &&& t.columns.len() <= usize::MAX
    &&& forall|j: int|
        0 <= j < t.columns.len() ==> bintable::plain_format((#[trigger] t.columns[j]).format)
}

/// A binary table with data that fill its rows, of sizes that a header can give.
pub open spec fn whole_bintable(t: bintable::BinTableView) -> bool {
    plain_bintable(t) && 0 < t.main_data.len() + t.heap.len() <= usize::MAX
}

/// An ASCII table of sizes that a header can give.
pub open spec fn plain_ascii_table(t: ascii_table::AsciiTableView) -> bool {
    &&& t.row_len <= i64::MAX
    &&& t.nrows <= i64::MAX
    &&& t.columns.len() <= i64::MAX
    &&& t.columns.len() <= usize::MAX
    &&& forall|j: int|
        0 <= j < t.columns.len() ==> (#[trigger] t.columns[j]).tbcol <= i64::MAX
}

/// An ASCII table with data that fill its rows, of sizes that a header can give.
pub open spec fn whole_ascii_table(t: ascii_table::AsciiTableView) -> bool {
    &&& plain_ascii_table(t)
    &&& t.raw_data.len() == t.row_len * t.nrows
    &&& 0 < t.raw_data.len() <= usize::MAX
}

/// Whether a header gives no column of a binary table what the column does not have.
pub open spec fn bintable_silent(h: Seq<KeywordView>, t: bintable::BinTableView) -> bool {
    forall|j: int|
        0 <= j < t.columns.len() ==> silent(h, #[trigger] all_bin_fields(t.columns)[j], j + 1)
}

/// Whether a header gives no column of an ASCII table what the column does not have.
pub open spec fn ascii_silent(h: Seq<KeywordView>, t: ascii_table::AsciiTableView) -> bool {
    forall|j: int|
        0 <= j < t.columns.len() ==> silent(h, #[trigger] all_ascii_fields(t.columns)[j], j + 1)
}

/// What a header with the keywords of a binary table says of it.
proof fn lemma_bintable_reads(
    g: Seq<KeywordView>,
    h: Seq<KeywordView>,
    t: bintable::BinTableView,
    data: Seq<u8>,
)
    requires
        agrees(g, bintable::with_table(h, t)),
        plain_bintable(t),
        bintable_silent(h, t),
    ensures
        bintable::table_of(g, t.main_data + t.heap) == Ok::<bintable::BinTableView, ErrorView>(
            settled_bintable(t),
        ),
        data.len() < t.nrows * t.row_len ==> bintable::table_of(g, data) == Err::<
            bintable::BinTableView,
            ErrorView,
        >(
            ErrorView::DataSizeMismatch {
                expected: t.nrows * t.row_len,
                actual: data.len() as int,
            },
        ),
        header::string_of(g, "XTENSION"@) == Some("BINTABLE"@),
        keyword_names::found(g, "SIMPLE"@) == keyword_names::found(h, "SIMPLE"@),
        t.main_data.len() + t.heap.len() <= usize::MAX ==> header::data_bytes(g) == Ok::<
            int,
            ErrorView,
        >((t.main_data.len() + t.heap.len()) as int),
{
    let cols = all_bin_fields(t.columns);
    let n = t.heap.len() as usize;
    lemma_size(n);
    lemma_size(t.columns.len() as usize);
    let base = bintable::with_layout(
        h,
        "BINTABLE"@,
        "binary table extension"@,
        t.row_len,
        t.nrows,
        n as int,
        cols.len() as int,
    );
    lemma_bin_columns(base, t.columns);
    lemma_table_says(
        g,
        h,
        base,
        "BINTABLE"@,
        "binary table extension"@,
        t.row_len,
        t.nrows,
        n as int,
        cols,
    );
    if t.main_data.len() + t.heap.len() <= usize::MAX {
        lemma_table_bytes(g, t.row_len, t.nrows, n);
    }
    lemma_bin_columns_from(g, t.columns, 1);
    assert(settled_columns(t.columns).skip(0) =~= settled_columns(t.columns));
    lemma_size(t.row_len);
    lemma_size(t.nrows);
    assert(t.nrows * t.row_len == t.row_len * t.nrows) by (nonlinear_arith);
    let whole = t.main_data + t.heap;
    assert(whole.take(t.main_data.len() as int) =~= t.main_data);
    assert(whole.subrange(t.main_data.len() as int, whole.len() as int) =~= t.heap);
    if n == 0 {
        assert(t.heap =~= Seq::empty());
    }
    assert(bintable::heap_of(whole, t.main_data.len() as int, n as int) == t.heap);
}

/// The keywords of a binary table, set in a header that says nothing else of its columns,
/// and its data give the table back, without scales and zero points that spell the default;
/// fewer data than its rows have do not.
pub proof fn bintable_round_trip(h: Seq<KeywordView>, t: bintable::BinTableView, data: Seq<u8>)
    requires
        plain_bintable(t),
        bintable_silent(h, t),
    ensures
        bintable::table_of(bintable::with_table(h, t), t.main_data + t.heap) == Ok::<
            bintable::BinTableView,
            ErrorView,
        >(settled_bintable(t)),
        data.len() < t.nrows * t.row_len ==> bintable::table_of(bintable::with_table(h, t), data)
            == Err::<bintable::BinTableView, ErrorView>(
            ErrorView::DataSizeMismatch {
                expected: t.nrows * t.row_len,
                actual: data.len() as int,
            },
        ),
{
    lemma_bintable_reads(bintable::with_table(h, t), h, t, data);
}

/// The header of a binary table describes it.
proof fn lemma_bintable_describes(
    g: Seq<KeywordView>,
    h: Seq<KeywordView>,
    t: bintable::BinTableView,
)
    requires
        agrees(g, bintable::with_table(h, t)),
        keyword_names::found(h, "SIMPLE"@) is None,
        whole_bintable(t),
        bintable_silent(h, t),
    ensures
        describes(g, settled(DataView::BinTable(t))),
{
    lemma_bintable_reads(g, h, t, Seq::empty());
    reveal_strlit("BINTABLE");
    reveal_strlit("IMAGE");
    assert("BINTABLE"@.len() != "IMAGE"@.len());
    assert(!hdu::describes_image(g));
}

/// What a header with the keywords of an ASCII table says of it.
proof fn lemma_ascii_reads(
    g: Seq<KeywordView>,
    h: Seq<KeywordView>,
    t: ascii_table::AsciiTableView,
)
    requires
        agrees(g, ascii_table::with_table(h, t)),
        plain_ascii_table(t),
        ascii_silent(h, t),
    ensures
        ascii_table::table_of(g, t.raw_data) == Ok::<ascii_table::AsciiTableView, ErrorView>(
            settled_ascii_table(t),
        ),
        header::string_of(g, "XTENSION"@) == Some("TABLE"@),
        keyword_names::found(g, "SIMPLE"@) == keyword_names::found(h, "SIMPLE"@),
        t.row_len * t.nrows <= usize::MAX ==> header::data_bytes(g) == Ok::<int, ErrorView>(
            t.row_len * t.nrows,
        ),
{
    let cols = all_ascii_fields(t.columns);
    lemma_size(t.columns.len() as usize);
    let base = bintable::with_layout(
        h,
        "TABLE"@,
        "ASCII table extension"@,
        t.row_len,
        t.nrows,
        0,
        cols.len() as int,
    );
    lemma_ascii_columns(base, t.columns);
    lemma_table_says(
        g,
        h,
        base,
        "TABLE"@,
        "ASCII table extension"@,
        t.row_len,
        t.nrows,
        0,
        cols,
    );
    if t.row_len * t.nrows <= usize::MAX {
        lemma_table_bytes(g, t.row_len, t.nrows, 0);
    }
    lemma_ascii_columns_from(g, t.columns, 1);
    assert(settled_ascii_columns(t.columns).skip(0) =~= settled_ascii_columns(t.columns));
    lemma_size(t.row_len);
    lemma_size(t.nrows);
}

/// The keywords of an ASCII table, set in a header that says nothing else of its columns,
/// and its data give the table back, without scales and zero points that spell the default.
pub proof fn ascii_table_round_trip(h: Seq<KeywordView>, t: ascii_table::AsciiTableView)
    requires
        plain_ascii_table(t),
        ascii_silent(h, t),
    ensures
        ascii_table::table_of(ascii_table::with_table(h, t), t.raw_data) == Ok::<
            ascii_table::AsciiTableView,
            ErrorView,
        >(settled_ascii_table(t)),
{
    lemma_ascii_reads(ascii_table::with_table(h, t), h, t);
}

/// An empty header says nothing of the columns of any table.
pub proof fn empty_header_silent(t: bintable::BinTableView, a: ascii_table::AsciiTableView)
    ensures
        bintable_silent(Seq::empty(), t),
        ascii_silent(Seq::empty(), a),
{
}

/// The header of an ASCII table describes it.
proof fn lemma_ascii_describes(
    g: Seq<KeywordView>,
    h: Seq<KeywordView>,
    t: ascii_table::AsciiTableView,
)
    requires
        agrees(g, ascii_table::with_table(h, t)),
        keyword_names::found(h, "SIMPLE"@) is None,
        whole_ascii_table(t),
        ascii_silent(h, t),
    ensures
        describes(g, settled(DataView::AsciiTable(t))),
{
    lemma_ascii_reads(g, h, t);
    reveal_strlit("TABLE");
    reveal_strlit("IMAGE");
    assert("TABLE"@[0] != "IMAGE"@[0]);
    assert(!hdu::describes_image(g));
}

/// Whether an HDU's header describes its data once its keywords are filled in.
///
/// - No data: the header gives no data bytes.
/// - An image: the header starts a primary HDU or an image extension, and has no further
///   parameters or groups; the pixels fill the axes.
/// - A table: the header is not that of a primary HDU, and says nothing of a column's
///   scale, zero point or unit where it has none; the data fill the rows.
pub open spec fn sound(u: HduView) -> bool {
    let h = u.header;
    match u.data {
        DataView::Empty => header::data_bytes(h) == Ok::<int, ErrorView>(0),
        DataView::Image(v) => {
            &&& hdu::describes_image(h)
            &&& header::int_or(h, "PCOUNT"@, 0) == 0
            &&& header::int_or(h, "GCOUNT"@, 1) == 1
            &&& whole_image(v)
        },
        DataView::AsciiTable(t) => {
            &&& keyword_names::found(h, "SIMPLE"@) is None
            &&& whole_ascii_table(t)
            &&& ascii_silent(h, t)
        },
        DataView::BinTable(t) => {
            &&& keyword_names::found(h, "SIMPLE"@) is None
            &&& whole_bintable(t)
            &&& bintable_silent(h, t)
        },
    }
}

/// Whether every keyword of a header is read as it was written.
pub open spec fn keeps_all(h: Seq<KeywordView>) -> bool {
    forall|i: int| 0 <= i < h.len() ==> card_reading::keeps(#[trigger] h[i])
}

/// A filled header, with checksums or without, describes its data.
proof fn lemma_sound_describes(g: Seq<KeywordView>, u: HduView)
    requires
        sound(u),
        agrees(g, hdu::with_data(u.header, u.data)),
    ensures
        describes(g, settled(u.data)),
{
    match u.data {
        DataView::Empty => {
            lemma_data_bytes_agree(g, u.header);
        },
        DataView::Image(v) => {
            lemma_image_describes(g, u.header, v);
        },
        DataView::AsciiTable(t) => {
            lemma_ascii_describes(g, u.header, t);
        },
        DataView::BinTable(t) => {
            lemma_bintable_describes(g, u.header, t);
        },
    }
}

/// A payload behind its header is read as it was written.
proof fn lemma_data_read(g: Seq<KeywordView>, d: DataView, rest: Seq<u8>)
    requires
        describes(g, d),
        d matches DataView::Image(v) ==> whole_image(v),
        !(d is Empty) ==> hdu::payload(d).len() > 0,
    ensures
        hdu::data_read(g, hdu::payload(d).len() as int, hdu::data_unit(d) + rest) == Ok::<
            (DataView, int),
            ErrorView,
        >((d, hdu::data_unit(d).len() as int)),
{
    let size = hdu::payload(d).len() as int;
    let bytes = hdu::data_unit(d) + rest;
    io_utils::padded_is_least_multiple(size);
    assert(hdu::data_unit(d).len() == io_utils::padded(size));
    assert(bytes.take(size) =~= hdu::payload(d));
    match d {
        DataView::Empty => {},
        DataView::Image(v) => {
            crate::words::lemma_words_encoded_len(
                image_data::signed_kind(v.pixels.kind),
                v.pixels.kind.width(),
                v.pixels.values,
            );
            image_data::pixels_round_trip(v.pixels);
            let volume = grid::volume(v.axes) as int;
            let width = v.pixels.kind.width() as int;
            assert(volume <= volume * width) by (nonlinear_arith)
                requires
                    width >= 1,
                    volume >= 0,
            ;
            assert(image_data::image_read(g, bytes) == Ok::<image_data::ImageView, ErrorView>(v));
        },
        DataView::AsciiTable(t) => {
            reveal_strlit("TABLE");
            reveal_strlit("BINTABLE");
        },
        DataView::BinTable(t) => {
            reveal_strlit("TABLE");
            reveal_strlit("BINTABLE");
            assert("TABLE"@.len() != "BINTABLE"@.len());
        },
    }
}

proof fn lemma_hdu_of_parts(data: Seq<u8>, g: Seq<KeywordView>, n: nat, d: DataView, m: int)
    requires
        header::read_records(data, 0, Seq::empty()) == Ok::<(Seq<KeywordView>, nat), ErrorView>(
            (g, n),
        ),
        header::data_bytes(g) is Ok,
        hdu::data_read(g, header::data_bytes(g)->Ok_0, data.skip(n as int)) == Ok::<
            (DataView, int),
            ErrorView,
        >((d, m)),
    ensures
        hdu::hdu_read(data) == Ok::<(HduView, int), ErrorView>(
            (HduView { header: g, data: d }, n + m),
        ),
{
}

/// An HDU behind a header that describes its data is read as it was written.
#[verifier::spinoff_prover]
proof fn lemma_hdu_read(g: Seq<KeywordView>, d: DataView, rest: Seq<u8>)
    requires
        keeps_all(g),
        describes(g, d),
        d matches DataView::Image(v) ==> whole_image(v),
        !(d is Empty) ==> hdu::payload(d).len() > 0,
    ensures
        hdu::hdu_read(header::header_bytes(g) + hdu::data_unit(d) + rest) == Ok::<
            (HduView, int),
            ErrorView,
        >(
            (
                HduView { header: g, data: d },
                (header::header_bytes(g) + hdu::data_unit(d)).len() as int,
            ),
        ),
{
    let front = header::header_bytes(g);
    let back = hdu::data_unit(d) + rest;
    let bytes = front + hdu::data_unit(d) + rest;
    assert(bytes =~= front + back);
    assert(header::read_records(bytes, 0, Seq::empty()) == Ok::<
        (Seq<KeywordView>, nat),
        ErrorView,
    >((g, front.len()))) by {
        card_reading::header_round_trip(g, back);
    }
    assert(bytes.skip(front.len() as int) =~= back);
    let m = hdu::data_unit(d).len() as int;
    assert(header::data_bytes(g) is Ok && hdu::data_read(g, header::data_bytes(g)->Ok_0, back)
        == Ok::<(DataView, int), ErrorView>((d, m))) by {
        lemma_data_read(g, d, rest);
    }
    lemma_hdu_of_parts(bytes, g, front.len(), d, m);
}

proof fn lemma_sound_payload(u: HduView)
    requires
        sound(u),
    ensures
        settled(u.data) matches DataView::Image(v) ==> whole_image(v),
        !(settled(u.data) is Empty) ==> hdu::payload(settled(u.data)).len() > 0,
        hdu::data_unit(settled(u.data)) == hdu::data_unit(u.data),
{
    match u.data {
        DataView::Image(v) => {
            crate::words::lemma_words_encoded_len(
                image_data::signed_kind(v.pixels.kind),
                v.pixels.kind.width(),
                v.pixels.values,
            );
            let n = v.pixels.values.len() as int;
            let width = v.pixels.kind.width() as int;
            assert(n * width > 0) by (nonlinear_arith)
                requires
                    width >= 1,
                    n > 0,
            ;
        },
        _ => {},
    }
}

/// An HDU that was written is read back, whatever follows it: its data, the keywords of
/// its header with those of the data, and the number of its bytes.
pub proof fn hdu_round_trip(u: HduView, rest: Seq<u8>)
    requires
        sound(u),
        keeps_all(hdu::with_data(u.header, u.data)),
    ensures
        hdu::hdu_read(hdu::hdu_bytes(u) + rest) == Ok::<(HduView, int), ErrorView>(
            (filled(u), hdu::hdu_bytes(u).len() as int),
        ),
{
    reveal(hdu::hdu_bytes);
    let g = hdu::with_data(u.header, u.data);
    assert(agrees(g, g));
    lemma_sound_describes(g, u);
    lemma_sound_payload(u);
    lemma_hdu_read(g, settled(u.data), rest);
}

proof fn lemma_doubled_len(b: Seq<u8>)
    ensures
        keyword::doubled_quotes(b).len() <= 2 * b.len(),
    decreases b.len(),
{
    if b.len() > 0 {
        lemma_doubled_len(b.drop_last());
    }
}

/// A short string with a short comment is read as it was written.
proof fn lemma_keeps_short(s: Seq<char>, comment: Seq<char>)
    requires
        vstd::utf8::is_ascii_chars(s),
        0 < s.len() <= 20,
        !text::is_space(s.last()) && s.last() != '&',
        vstd::utf8::is_ascii_chars(comment),
        0 < comment.len() <= 20,
        card_reading::unpadded(comment),
    ensures
        card_reading::keeps_string(s, Some(comment)),
{
    text::lemma_bytes_chars(s);
    text::lemma_bytes_chars(comment);
    lemma_doubled_len(text::bytes_of(s));
}

/// Setting a keyword to a string keeps a header that is read as it was written so.
proof fn lemma_keeps_set(h: Seq<KeywordView>, name: Seq<char>, s: Seq<char>, comment: Seq<char>)
    requires
        keeps_all(h),
        card_reading::keeps_name(text::upper(name)),
        card_reading::keeps_string(s, Some(comment)),
    ensures
        keeps_all(header::with_set(h, name, ValueView::Text(s), Some(comment))),
{
    header::lemma_position(h, name);
    let g = header::with_set(h, name, ValueView::Text(s), Some(comment));
    let k = header::position(h, name);
    assert forall|i: int| 0 <= i < g.len() implies card_reading::keeps(#[trigger] g[i]) by {
        if i < h.len() {
            assert(card_reading::keeps(h[i]));
        }
    }
}

/// The checksums keep a header that is read as it was written so.
proof fn lemma_keeps_stamped(h: Seq<KeywordView>, dsum: u32)
    requires
        keeps_all(h),
    ensures
        keeps_all(checksum::stamped(h, dsum)),
{
    keyword_names::lemma_layout_names();
    reveal_strlit("END");
    reveal_strlit("CONTINUE");
    reveal_strlit("DATASUM");
    reveal_strlit("CHECKSUM");
    reveal_strlit("data unit checksum");
    reveal_strlit("HDU checksum");
    reveal_strlit("0000000000000000");
    let sum = text::decimal(dsum as int);
    let zeros = "0000000000000000"@;
    let code = checksum::encoded(checksum::stamp_value(h, dsum));
    let name = "CHECKSUM"@;
    lemma_decimal_len(dsum as int);
    text::decimal_round_trip(dsum as int);
    text::lemma_decimal_nat(dsum as nat);
    assert(text::is_digit(sum.last()));
    checksum::encoded_is_alphanumeric(checksum::stamp_value(h, dsum));
    text::lemma_chars_bytes(code);
    assert(checksum::alphanumeric(code[15] as int));
    assert(text::chars_of(code).last() == code[15] as char);
    lemma_keeps_short(sum, "data unit checksum"@);
    lemma_keeps_short(zeros, "HDU checksum"@);
    lemma_keeps_short(text::chars_of(code), "HDU checksum"@);
    let h1 = header::with_set(
        h,
        "DATASUM"@,
        ValueView::Text(sum),
        Some("data unit checksum"@),
    );
    text::lemma_bytes_chars("DATASUM"@);
    text::lemma_bytes_chars(name);
    lemma_keeps_set(h, "DATASUM"@, sum, "data unit checksum"@);
    lemma_keeps_set(h1, name, zeros, "HDU checksum"@);
    lemma_keeps_set(checksum::zeroed(h, dsum), name, text::chars_of(code), "HDU checksum"@);
}

/// An HDU that was written with checksums is read back likewise, with the checksums among
/// its keywords.
pub proof fn stamped_hdu_round_trip(u: HduView, rest: Seq<u8>)
    requires
        sound(u),
        keeps_all(hdu::with_data(u.header, u.data)),
    ensures
        hdu::hdu_read(hdu::stamped_bytes(u) + rest) == Ok::<(HduView, int), ErrorView>(
            (stamped(u), hdu::stamped_bytes(u).len() as int),
        ),
{
    reveal(hdu::stamped_bytes);
    let g = hdu::stamped_header(u);
    lemma_keeps_stamped(
        hdu::with_data(u.header, u.data),
        checksum::checksum_of(hdu::data_unit(u.data)),
    );
    stamped_agrees(
        hdu::with_data(u.header, u.data),
        checksum::checksum_of(hdu::data_unit(u.data)),
    );
    lemma_sound_describes(g, u);
    lemma_sound_payload(u);
    lemma_hdu_read(g, settled(u.data), rest);
}

/// An HDU as it is read back: with the keywords of its data filled in, and without scales
/// and zero points that spell the default.
pub open spec fn filled(u: HduView) -> HduView {
    HduView { header: hdu::with_data(u.header, u.data), data: settled(u.data) }
}

/// An HDU with checksums as it is read back.
pub open spec fn stamped(u: HduView) -> HduView {
    HduView { header: hdu::stamped_header(u), data: settled(u.data) }
}

/// HDUs with the keywords of their data filled in.
pub open spec fn all_filled(hdus: Seq<HduView>) -> Seq<HduView> {
    Seq::new(hdus.len(), |i: int| filled(hdus[i]))
}

/// HDUs with the keywords of their data and their checksums filled in.
pub open spec fn all_stamped(hdus: Seq<HduView>) -> Seq<HduView> {
    Seq::new(hdus.len(), |i: int| stamped(hdus[i]))
}

proof fn lemma_file_bytes_front(hdus: Seq<HduView>)
    requires
        hdus.len() > 0,
    ensures
        fits::file_bytes(hdus) == hdu::hdu_bytes(hdus[0]) + fits::file_bytes(hdus.skip(1)),
        fits::stamped_file_bytes(hdus) == hdu::stamped_bytes(hdus[0]) + fits::stamped_file_bytes(
            hdus.skip(1),
        ),
    decreases hdus.len(),
{
    let front = hdus.drop_last();
    let rest = hdus.skip(1);
    if hdus.len() == 1 {
        assert(front =~= Seq::empty());
        assert(rest =~= Seq::empty());
        assert(fits::file_bytes(hdus) =~= hdu::hdu_bytes(hdus[0]) + fits::file_bytes(rest));
        assert(fits::stamped_file_bytes(hdus) =~= hdu::stamped_bytes(hdus[0])
            + fits::stamped_file_bytes(rest));
    } else {
        lemma_file_bytes_front(front);
        assert(front.skip(1) =~= rest.drop_last());
        assert(fits::file_bytes(hdus) =~= hdu::hdu_bytes(hdus[0]) + fits::file_bytes(rest));
        assert(fits::stamped_file_bytes(hdus) =~= hdu::stamped_bytes(hdus[0])
            + fits::stamped_file_bytes(rest));
    }
}

proof fn lemma_no_hdu()
    ensures
        fits::hdus_read(Seq::empty()) == Ok::<Seq<HduView>, ErrorView>(Seq::empty()),
{
    assert(hdu::hdu_read(Seq::empty()) == Err::<(HduView, int), ErrorView>(
        io_utils::eof(),
    ));
}

/// An HDU and what is read behind it.
proof fn lemma_hdus_step(first: Seq<u8>, more: Seq<u8>, u: HduView, t: Seq<HduView>)
    requires
        hdu::hdu_read(first + more) == Ok::<(HduView, int), ErrorView>((u, first.len() as int)),
        fits::hdus_read(more) == Ok::<Seq<HduView>, ErrorView>(t),
    ensures
        fits::hdus_read(first + more) == Ok::<Seq<HduView>, ErrorView>(seq![u] + t),
{
    let bytes = first + more;
    hdu::lemma_hdu_takes(bytes);
    assert(bytes.skip(first.len() as int) =~= more);
}

/// Whether an HDU that is written is read back, whatever follows it.
#[verifier::opaque]
spec fn written_back(u: HduView) -> bool {
    forall|rest: Seq<u8>|
        hdu::hdu_read(#[trigger] (hdu::hdu_bytes(u) + rest)) == Ok::<(HduView, int), ErrorView>(
            (filled(u), hdu::hdu_bytes(u).len() as int),
        )
}

proof fn lemma_written_back(u: HduView)
    requires
        sound(u),
        keeps_all(hdu::with_data(u.header, u.data)),
    ensures
        written_back(u),
{
    reveal(written_back);
    assert forall|rest: Seq<u8>|
        hdu::hdu_read(#[trigger] (hdu::hdu_bytes(u) + rest)) == Ok::<(HduView, int), ErrorView>(
            (filled(u), hdu::hdu_bytes(u).len() as int),
        ) by {
        hdu_round_trip(u, rest);
    }
}

proof fn lemma_written_step(u: HduView, more: Seq<u8>, t: Seq<HduView>)
    requires
        written_back(u),
        fits::hdus_read(more) == Ok::<Seq<HduView>, ErrorView>(t),
    ensures
        fits::hdus_read(hdu::hdu_bytes(u) + more) == Ok::<Seq<HduView>, ErrorView>(
            seq![filled(u)] + t,
        ),
{
    reveal(written_back);
    lemma_hdus_step(hdu::hdu_bytes(u), more, filled(u), t);
}

proof fn lemma_hdus_round_trip(hdus: Seq<HduView>)
    requires
        forall|i: int| 0 <= i < hdus.len() ==> written_back(#[trigger] hdus[i]),
    ensures
        fits::hdus_read(fits::file_bytes(hdus)) == Ok::<Seq<HduView>, ErrorView>(all_filled(hdus)),
    decreases hdus.len(),
{
    if hdus.len() == 0 {
        lemma_no_hdu();
        assert(all_filled(hdus) =~= Seq::empty());
    } else {
        let rest = hdus.skip(1);
        lemma_file_bytes_front(hdus);
        assert forall|i: int| 0 <= i < rest.len() implies written_back(#[trigger] rest[i]) by {
            assert(rest[i] == hdus[i + 1]);
        }
        lemma_hdus_round_trip(rest);
        lemma_written_step(hdus[0], fits::file_bytes(rest), all_filled(rest));
        assert(seq![filled(hdus[0])] + all_filled(rest) =~= all_filled(hdus));
    }
}

/// A file that was written is read back: reading the bytes of its HDUs gives those HDUs,
/// with the keywords of their data in their headers.
pub proof fn file_round_trip(hdus: Seq<HduView>)
    requires
        hdus.len() > 0,
        forall|i: int|
            0 <= i < hdus.len() ==> sound(#[trigger] hdus[i]) && keeps_all(
                hdu::with_data(hdus[i].header, hdus[i].data),
            ),
    ensures
        fits::file_read(fits::file_bytes(hdus)) == Ok::<Seq<HduView>, ErrorView>(all_filled(hdus)),
{
    assert forall|i: int| 0 <= i < hdus.len() implies written_back(#[trigger] hdus[i]) by {
        lemma_written_back(hdus[i]);
    }
    lemma_hdus_round_trip(hdus);
    lemma_file_bytes_front(hdus);
    assert(sound(hdus[0]));
    hdu_round_trip(hdus[0], fits::file_bytes(hdus.skip(1)));
}

/// Whether an HDU that is written with checksums is read back, whatever follows it.
#[verifier::opaque]
spec fn stamped_back(u: HduView) -> bool {
    forall|rest: Seq<u8>|
        hdu::hdu_read(#[trigger] (hdu::stamped_bytes(u) + rest)) == Ok::<(HduView, int), ErrorView>(
            (stamped(u), hdu::stamped_bytes(u).len() as int),
        )
}

proof fn lemma_stamped_back(u: HduView)
    requires
        sound(u),
        keeps_all(hdu::with_data(u.header, u.data)),
    ensures
        stamped_back(u),
{
    reveal(stamped_back);
    assert forall|rest: Seq<u8>|
        hdu::hdu_read(#[trigger] (hdu::stamped_bytes(u) + rest)) == Ok::<(HduView, int), ErrorView>(
            (stamped(u), hdu::stamped_bytes(u).len() as int),
        ) by {
        stamped_hdu_round_trip(u, rest);
    }
}

proof fn lemma_stamped_step(u: HduView, more: Seq<u8>, t: Seq<HduView>)
    requires
        stamped_back(u),
        fits::hdus_read(more) == Ok::<Seq<HduView>, ErrorView>(t),
    ensures
        fits::hdus_read(hdu::stamped_bytes(u) + more) == Ok::<Seq<HduView>, ErrorView>(
            seq![stamped(u)] + t,
        ),
{
    reveal(stamped_back);
    lemma_hdus_step(hdu::stamped_bytes(u), more, stamped(u), t);
}

#[verifier::spinoff_prover]
#[verifier::rlimit(40)]
proof fn lemma_stamped_hdus_round_trip(hdus: Seq<HduView>)
    requires
        forall|i: int| 0 <= i < hdus.len() ==> stamped_back(#[trigger] hdus[i]),
    ensures
        fits::hdus_read(fits::stamped_file_bytes(hdus)) == Ok::<Seq<HduView>, ErrorView>(
            all_stamped(hdus),
        ),
    decreases hdus.len(),
{
    if hdus.len() == 0 {
        lemma_no_hdu();
        assert(all_stamped(hdus) =~= Seq::empty());
    } else {
        let rest = hdus.skip(1);
        lemma_file_bytes_front(hdus);
        assert forall|i: int| 0 <= i < rest.len() implies stamped_back(#[trigger] rest[i]) by {
            assert(rest[i] == hdus[i + 1]);
        }
        lemma_stamped_hdus_round_trip(rest);
        lemma_stamped_step(hdus[0], fits::stamped_file_bytes(rest), all_stamped(rest));
        assert(seq![stamped(hdus[0])] + all_stamped(rest) =~= all_stamped(hdus));
    }
}

/// A file that was written with checksums is read back likewise, with the checksums in the
/// headers; the sum of each data unit is the one that its header stores.
pub proof fn stamped_file_round_trip(hdus: Seq<HduView>)
    requires
        hdus.len() > 0,
        forall|i: int|
            0 <= i < hdus.len() ==> sound(#[trigger] hdus[i]) && keeps_all(
                hdu::with_data(hdus[i].header, hdus[i].data),
            ),
    ensures
        fits::file_read(fits::stamped_file_bytes(hdus)) == Ok::<Seq<HduView>, ErrorView>(
            all_stamped(hdus),
        ),
        forall|i: int|
            0 <= i < hdus.len() ==> checksum::stored_datasum(
                (#[trigger] all_stamped(hdus)[i]).header,
            ) == Some(checksum::checksum_of(hdu::data_unit(all_stamped(hdus)[i].data)) as int),
{
    assert forall|i: int| 0 <= i < hdus.len() implies checksum::stored_datasum(
        (#[trigger] all_stamped(hdus)[i]).header,
    ) == Some(checksum::checksum_of(hdu::data_unit(all_stamped(hdus)[i].data)) as int) by {
        hdu::stamped_bytes_verify(hdus[i]);
    }
    assert forall|i: int| 0 <= i < hdus.len() implies stamped_back(#[trigger] hdus[i]) by {
        lemma_stamped_back(hdus[i]);
    }
    lemma_stamped_hdus_round_trip(hdus);
    lemma_file_bytes_front(hdus);
    assert(sound(hdus[0]));
    stamped_hdu_round_trip(hdus[0], fits::stamped_file_bytes(hdus.skip(1)));
}

/// The number of digits of a number.
proof fn lemma_digits(n: nat, k: nat)
    requires
        n < vstd::arithmetic::power::pow(10, k),
        k > 0,
    ensures
        text::decimal_nat(n).len() <= k,
    decreases k,
{
    if n >= 10 {
        vstd::arithmetic::power::lemma_pow1(10);
        if k == 1 {
            assert(false);
        } else {
            assert(vstd::arithmetic::power::pow(10, k) == 10 * vstd::arithmetic::power::pow(
                10,
                (k - 1) as nat,
            )) by {
                reveal(vstd::arithmetic::power::pow);
            }
            lemma_digits(n / 10, (k - 1) as nat);
        }
    }
}

/// A 64-bit integer has at most 20 characters; a number below a thousand at most three.
pub proof fn lemma_decimal_len(i: int)
    requires
        card_reading::is_int64(i),
    ensures
        text::decimal(i).len() <= 20,
        0 <= i < 1000 ==> text::decimal(i).len() <= 3,
{
    reveal_with_fuel(vstd::arithmetic::power::pow, 20);
    assert(vstd::arithmetic::power::pow(10, 19) == 10_000_000_000_000_000_000);
    assert(vstd::arithmetic::power::pow(10, 3) == 1000);
    if i < 0 {
        lemma_digits((-i) as nat, 19);
    } else {
        lemma_digits(i as nat, 19);
        if i < 1000 {
            lemma_digits(i as nat, 3);
        }
    }
}

/// A keyword with an integer is read as it was written.
proof fn lemma_keeps_integer(name: Seq<char>, i: int)
    requires
        card_reading::keeps_name(name),
        card_reading::is_int64(i),
    ensures
        card_reading::keeps(
            KeywordView { name, value: Some(ValueView::Integer(i)), comment: None },
        ),
{
    lemma_decimal_len(i);
}

/// A name of an axis is read as it was written.
proof fn lemma_keeps_axis_name(i: int)
    requires
        1 <= i < 1000,
    ensures
        card_reading::keeps_name(keyword_names::numbered("NAXIS"@, i)),
{
    keyword_names::lemma_layout_names();
    keyword_names::lemma_numbered("NAXIS"@, i);
    lemma_decimal_len(i);
    text::decimal_round_trip(i);
    let s = keyword_names::numbered("NAXIS"@, i);
    reveal_strlit("END");
    reveal_strlit("CONTINUE");
    assert(s[0] == 'N');
    assert(s.last() == text::decimal(i).last());
    text::lemma_bytes_chars(s);
}

/// Setting a keyword that is not there adds it at the end.
proof fn lemma_set_new(
    h: Seq<KeywordView>,
    name: Seq<char>,
    value: ValueView,
    comment: Option<Seq<char>>,
)
    requires
        keyword_names::upper_name(name),
        keyword_names::found(h, name) is None,
    ensures
        header::with_set(h, name, value, comment) == h.push(
            KeywordView { name, value: Some(value), comment },
        ),
{
    header::lemma_position(h, name);
}

/// Setting a keyword to the value that it has changes nothing.
proof fn lemma_set_same(h: Seq<KeywordView>, name: Seq<char>, value: ValueView)
    requires
        keyword_names::found(h, name) == Some(Some(value)),
    ensures
        header::with_set(h, name, value, None) == h,
{
    header::lemma_position(h, name);
    let k = header::position(h, name);
    assert(header::with_set(h, name, value, None) =~= h);
}

proof fn lemma_keeps_push(h: Seq<KeywordView>, k: KeywordView)
    requires
        keeps_all(h),
        card_reading::keeps(k),
    ensures
        keeps_all(h.push(k)),
{
    assert forall|i: int| 0 <= i < h.push(k).len() implies card_reading::keeps(
        #[trigger] h.push(k)[i],
    ) by {
        if i < h.len() {
            assert(h.push(k)[i] == h[i]);
        }
    }
}

/// Axes leave what a header says of later ones.
proof fn lemma_axes_beyond(h: Seq<KeywordView>, axes: Seq<usize>, j: int)
    requires
        j > axes.len(),
    ensures
        keyword_names::found(
            image_data::with_axes(h, axes),
            keyword_names::numbered("NAXIS"@, j),
        ) == keyword_names::found(h, keyword_names::numbered("NAXIS"@, j)),
    decreases axes.len(),
{
    keyword_names::lemma_layout_names();
    if axes.len() > 0 {
        let n = axes.len() as int;
        let front = axes.drop_last();
        lemma_axes_beyond(h, front, j);
        keyword_names::lemma_numbered("NAXIS"@, n);
        keyword_names::lemma_numbers_differ("NAXIS"@, n, j);
        keyword_names::found_after_set(
            image_data::with_axes(h, front),
            keyword_names::numbered("NAXIS"@, n),
            ValueView::Integer((axes.last() as i64) as int),
            None,
            keyword_names::numbered("NAXIS"@, j),
        );
    }
}

proof fn lemma_axes_keep(h: Seq<KeywordView>, axes: Seq<usize>)
    requires
        keeps_all(h),
        axes.len() < 1000,
        forall|j: int|
            1 <= j <= axes.len() ==> keyword_names::found(
                h,
                #[trigger] keyword_names::numbered("NAXIS"@, j),
            ) is None,
    ensures
        keeps_all(image_data::with_axes(h, axes)),
    decreases axes.len(),
{
    if axes.len() > 0 {
        let n = axes.len() as int;
        let front = axes.drop_last();
        let name = keyword_names::numbered("NAXIS"@, n);
        let value = (axes.last() as i64) as int;
        lemma_axes_keep(h, front);
        lemma_axes_beyond(h, front, n);
        keyword_names::lemma_layout_names();
        keyword_names::lemma_numbered("NAXIS"@, n);
        assert(keyword_names::found(h, name) is None);
        lemma_set_new(image_data::with_axes(h, front), name, ValueView::Integer(value), None);
        lemma_keeps_axis_name(n);
        lemma_keeps_integer(name, value);
        lemma_keeps_push(
            image_data::with_axes(h, front),
            KeywordView { name, value: Some(ValueView::Integer(value)), comment: None },
        );
    }
}

/// Axes that a header already gives change nothing.
proof fn lemma_axes_same(g: Seq<KeywordView>, axes: Seq<usize>)
    requires
        forall|k: int|
            0 <= k < axes.len() ==> keyword_names::found(
                g,
                keyword_names::numbered("NAXIS"@, k + 1),
            ) == Some(Some(ValueView::Integer((#[trigger] axes[k] as i64) as int))),
    ensures
        image_data::with_axes(g, axes) == g,
    decreases axes.len(),
{
    if axes.len() > 0 {
        let front = axes.drop_last();
        let n = axes.len() as int;
        assert forall|k: int| 0 <= k < front.len() implies keyword_names::found(
            g,
            keyword_names::numbered("NAXIS"@, k + 1),
        ) == Some(Some(ValueView::Integer((#[trigger] front[k] as i64) as int))) by {
            assert(front[k] == axes[k]);
        }
        lemma_axes_same(g, front);
        assert(axes[n - 1] == axes.last());
        lemma_set_same(
            g,
            keyword_names::numbered("NAXIS"@, n),
            ValueView::Integer((axes.last() as i64) as int),
        );
    }
}

/// The start of a primary header is read as it was written, and is all that it says.
proof fn lemma_primary_start()
    ensures
        keeps_all(hdu::primary_start()),
        keyword_names::found(hdu::primary_start(), "SIMPLE"@) == Some(
            Some(ValueView::Logical(true)),
        ),
        forall|name: Seq<char>|
            keyword_names::upper_name(name) && keyword_names::head(name) != ('S', 'I', 'M', 'P')
                ==> #[trigger] keyword_names::found(hdu::primary_start(), name) is None,
{
    keyword_names::lemma_layout_names();
    let none = Seq::<KeywordView>::empty();
    let truth = ValueView::Logical(true);
    let comment = Some("conforms to FITS standard"@);
    assert(keyword_names::found(none, "SIMPLE"@) is None);
    lemma_set_new(none, "SIMPLE"@, truth, comment);
    keyword_names::found_after_set(none, "SIMPLE"@, truth, comment, "SIMPLE"@);
    assert forall|name: Seq<char>|
        keyword_names::upper_name(name) && keyword_names::head(name) != (
            'S',
            'I',
            'M',
            'P',
        ) implies #[trigger] keyword_names::found(hdu::primary_start(), name) is None by {
        keyword_names::lemma_heads_differ("SIMPLE"@, name);
        keyword_names::found_after_set(none, "SIMPLE"@, truth, comment, name);
        assert(keyword_names::found(none, name) is None);
    }
    reveal_strlit("conforms to FITS standard");
    reveal_strlit("END");
    reveal_strlit("CONTINUE");
    reveal_strlit("SIMPLE");
    reveal_strlit("T");
    text::lemma_bytes_chars("SIMPLE"@);
    text::lemma_bytes_chars("conforms to FITS standard"@);
    assert(card_reading::keeps(
        KeywordView { name: "SIMPLE"@, value: Some(truth), comment },
    ));
    lemma_keeps_push(none, KeywordView { name: "SIMPLE"@, value: Some(truth), comment });
}

/// The keywords BITPIX and NAXIS behind the start of a primary header.
proof fn lemma_primary_shape(kind: int, naxis: int)
    requires
        card_reading::is_int64(kind),
        card_reading::is_int64(naxis),
    ensures
        ({
            let h1 = header::with_set(
                hdu::primary_start(),
                "BITPIX"@,
                ValueView::Integer(kind),
                None,
            );
            let h2 = header::with_set(h1, "NAXIS"@, ValueView::Integer(naxis), None);
            &&& keeps_all(h2)
            &&& keyword_names::found(h2, "NAXIS"@) == Some(Some(ValueView::Integer(naxis)))
            &&& forall|j: int|
                j >= 1 ==> keyword_names::found(
                    h2,
                    #[trigger] keyword_names::numbered("NAXIS"@, j),
                ) is None
        }),
{
    keyword_names::lemma_layout_names();
    lemma_primary_start();
    let h0 = hdu::primary_start();
    let a = ValueView::Integer(kind);
    let b = ValueView::Integer(naxis);
    let h1 = header::with_set(h0, "BITPIX"@, a, None);
    let h2 = header::with_set(h1, "NAXIS"@, b, None);
    assert(keyword_names::found(h0, "BITPIX"@) is None);
    lemma_set_new(h0, "BITPIX"@, a, None);
    keyword_names::lemma_heads_differ("BITPIX"@, "NAXIS"@);
    keyword_names::found_after_set(h0, "BITPIX"@, a, None, "NAXIS"@);
    assert(keyword_names::found(h0, "NAXIS"@) is None);
    lemma_set_new(h1, "NAXIS"@, b, None);
    keyword_names::found_after_set(h1, "NAXIS"@, b, None, "NAXIS"@);
    reveal_strlit("END");
    reveal_strlit("CONTINUE");
    reveal_strlit("BITPIX");
    reveal_strlit("NAXIS");
    text::lemma_bytes_chars("BITPIX"@);
    text::lemma_bytes_chars("NAXIS"@);
    lemma_keeps_integer("BITPIX"@, kind);
    lemma_keeps_integer("NAXIS"@, naxis);
    lemma_keeps_push(h0, KeywordView { name: "BITPIX"@, value: Some(a), comment: None });
    lemma_keeps_push(h1, KeywordView { name: "NAXIS"@, value: Some(b), comment: None });
    assert forall|j: int| j >= 1 implies keyword_names::found(
        h2,
        #[trigger] keyword_names::numbered("NAXIS"@, j),
    ) is None by {
        let name = keyword_names::numbered("NAXIS"@, j);
        keyword_names::lemma_numbered("NAXIS"@, j);
        keyword_names::lemma_numbers_differ("NAXIS"@, j, j);
        keyword_names::found_after_set(h1, "NAXIS"@, b, None, name);
        keyword_names::lemma_heads_differ("BITPIX"@, name);
        keyword_names::found_after_set(h0, "BITPIX"@, a, None, name);
        assert(keyword_names::found(h0, name) is None);
    }
}

/// The HDU of a primary image.
pub open spec fn primary_image(v: image_data::ImageView) -> HduView {
    HduView {
        header: image_data::with_image(hdu::primary_start(), v),
        data: DataView::Image(v),
    }
}

/// The HDU of a primary image holds the keywords of its data, can be written, and each of
/// its keywords is read as it was written.
proof fn lemma_primary_image(v: image_data::ImageView)
    requires
        whole_image(v),
        v.axes.len() < 1000,
    ensures
        sound(primary_image(v)),
        filled(primary_image(v)) == primary_image(v),
        keeps_all(primary_image(v).header),
{
    keyword_names::lemma_layout_names();
    let s = hdu::primary_start();
    let g = image_data::with_image(s, v);
    lemma_primary_start();
    lemma_image_found(s, v);
    let n = (v.axes.len() as i64) as int;
    lemma_primary_shape(v.pixels.kind.number(), n);
    let h1 = header::with_set(
        s,
        "BITPIX"@,
        ValueView::Integer(v.pixels.kind.number()),
        None,
    );
    let h2 = header::with_set(h1, "NAXIS"@, ValueView::Integer(n), None);
    lemma_axes_keep(h2, v.axes);
    lemma_set_same(g, "BITPIX"@, ValueView::Integer(v.pixels.kind.number()));
    lemma_set_same(g, "NAXIS"@, ValueView::Integer(n));
    lemma_axes_same(g, v.axes);
    assert(keyword_names::found(g, "SIMPLE"@) == keyword_names::found(s, "SIMPLE"@));
    assert(keyword_names::found(g, "PCOUNT"@) == keyword_names::found(s, "PCOUNT"@));
    assert(keyword_names::found(g, "GCOUNT"@) == keyword_names::found(s, "GCOUNT"@));
    assert(keyword_names::found(s, "PCOUNT"@) is None);
    assert(keyword_names::found(s, "GCOUNT"@) is None);
}

/// A file with a primary image is read back as it was written.
pub proof fn image_file_round_trip(v: image_data::ImageView)
    requires
        whole_image(v),
        v.axes.len() < 1000,
    ensures
        fits::file_read(fits::file_bytes(seq![primary_image(v)])) == Ok::<Seq<HduView>, ErrorView>(
            seq![primary_image(v)],
        ),
{
    let u = primary_image(v);
    lemma_primary_image(v);
    let hdus = seq![u];
    file_round_trip(hdus);
    assert(all_filled(hdus) =~= hdus);
}

/// A file with a primary image that was written with checksums is read back as it was
/// written, and the sum of its data is the one that its header stores.
pub proof fn stamped_image_file_round_trip(v: image_data::ImageView)
    requires
        whole_image(v),
        v.axes.len() < 1000,
    ensures
        ({
            let u = stamped(primary_image(v));
            &&& fits::file_read(fits::stamped_file_bytes(seq![primary_image(v)])) == Ok::<
                Seq<HduView>,
                ErrorView,
            >(seq![u])
            &&& u.data == DataView::Image(v)
            &&& checksum::stored_datasum(u.header) == Some(
                checksum::checksum_of(hdu::data_unit(u.data)) as int,
            )
        }),
{
    let u = primary_image(v);
    lemma_primary_image(v);
    let hdus = seq![u];
    stamped_file_round_trip(hdus);
    assert(all_stamped(hdus) =~= seq![stamped(u)]);
    hdu::stamped_bytes_verify(u);
}

/// The HDU of an empty primary.
pub open spec fn primary_empty() -> HduView {
    HduView { header: hdu::empty_primary_header(), data: DataView::Empty }
}

/// A file with an empty primary is read back as it was written.
pub proof fn empty_file_round_trip()
    ensures
        fits::file_read(fits::file_bytes(seq![primary_empty()])) == Ok::<Seq<HduView>, ErrorView>(
            seq![primary_empty()],
        ),
{
    lemma_primary_shape(8, 0);
    let u = primary_empty();
    assert(casts::size_of(0) == 0);
    assert(header::data_bytes(u.header) == Ok::<int, ErrorView>(0));
    let hdus = seq![u];
    assert(sound(hdus[0]) && keeps_all(hdu::with_data(hdus[0].header, hdus[0].data)));
    file_round_trip(hdus);
    assert(all_filled(hdus) =~= hdus);
}

} // verus!
