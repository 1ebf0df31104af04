//! The order of the keywords that every header must have, and what fills up its blocks.
use crate::bintable;
use crate::hdu;
use crate::hdu::DataView;
use crate::header;
use crate::image_data;
use crate::io_utils;
use crate::keyword::{KeywordView, ValueView};
use crate::text;
use vstd::prelude::*;

verus! {

/// The names of keywords.
pub open spec fn names_of(h: Seq<KeywordView>) -> Seq<Seq<char>> {
    Seq::new(h.len(), |i: int| h[i].name)
}

/// A name that is written as it is: in upper case.
spec fn plain_name(name: Seq<char>) -> bool {
    vstd::utf8::is_ascii_chars(name) && text::ascii_upper(name) == name
}

spec fn plain_names(names: Seq<Seq<char>>) -> bool {
    forall|i: int| 0 <= i < names.len() ==> plain_name(#[trigger] names[i])
}

/// A keyword that a header does not have comes last.
proof fn lemma_new_name(
    h: Seq<KeywordView>,
    name: Seq<char>,
    value: ValueView,
    comment: Option<Seq<char>>,
)
    requires
        plain_names(names_of(h)),
        plain_name(name),
        !names_of(h).contains(name),
    ensures
        names_of(header::with_set(h, name, value, comment)) == names_of(h).push(name),
        plain_names(names_of(h).push(name)),
        header::with_set(h, name, value, comment).len() == h.len() + 1,
{
    header::lemma_position(h, name);
    let p = header::position(h, name);
    if p < h.len() {
        assert(names_of(h)[p] == h[p].name);
        assert(plain_name(names_of(h)[p]));
        assert(names_of(h).contains(name));
    }
    let g = header::with_set(h, name, value, comment);
    assert(names_of(g) =~= names_of(h).push(name));
    assert forall|i: int| 0 <= i < names_of(h).push(name).len() implies plain_name(
        #[trigger] names_of(h).push(name)[i],
    ) by {
        if i < h.len() {
            assert(names_of(h).push(name)[i] == names_of(h)[i]);
        }
    }
}

proof fn lemma_not_among(names: Seq<Seq<char>>, last: Seq<char>, name: Seq<char>)
    requires
        !names.contains(name),
        last != name,
    ensures
        !names.push(last).contains(name),
{
    let all = names.push(last);
    assert forall|i: int| 0 <= i < all.len() implies #[trigger] all[i] != name by {
        if i < names.len() {
            assert(all[i] == names[i]);
        }
    }
}

/// Texts of capital letters and digits.
proof fn lemma_plain(name: Seq<char>)
    requires
        forall|i: int|
            0 <= i < name.len() ==> 'A' <= #[trigger] name[i] <= 'Z' || '0' <= name[i] <= '9',
    ensures
        plain_name(name),
{
    assert(text::ascii_upper(name) =~= name);
}

proof fn lemma_names()
    ensures
        plain_name("SIMPLE"@),
        plain_name("XTENSION"@),
        plain_name("BITPIX"@),
        plain_name("NAXIS"@),
        plain_name("NAXIS1"@),
        plain_name("NAXIS2"@),
        plain_name("PCOUNT"@),
        plain_name("GCOUNT"@),
        plain_name("TFIELDS"@),
        "SIMPLE"@.len() == 6 && "SIMPLE"@[0] == 'S',
        "XTENSION"@.len() == 8 && "XTENSION"@[0] == 'X',
        "BITPIX"@.len() == 6 && "BITPIX"@[0] == 'B',
        "NAXIS"@.len() == 5,
        "NAXIS"@[0] == 'N' && "NAXIS"@[1] == 'A',
        "NAXIS1"@.len() == 6 && "NAXIS1"@[0] == 'N' && "NAXIS1"@[5] == '1',
        "NAXIS2"@.len() == 6 && "NAXIS2"@[0] == 'N' && "NAXIS2"@[5] == '2',
        "PCOUNT"@.len() == 6 && "PCOUNT"@[0] == 'P',
        "GCOUNT"@.len() == 6 && "GCOUNT"@[0] == 'G',
        "TFIELDS"@.len() == 7,
{
    reveal_strlit("SIMPLE");
    reveal_strlit("XTENSION");
    reveal_strlit("BITPIX");
    reveal_strlit("NAXIS");
    reveal_strlit("NAXIS1");
    reveal_strlit("NAXIS2");
    reveal_strlit("PCOUNT");
    reveal_strlit("GCOUNT");
    reveal_strlit("TFIELDS");
    lemma_plain("SIMPLE"@);
    lemma_plain("XTENSION"@);
    lemma_plain("BITPIX"@);
    lemma_plain("NAXIS"@);
    lemma_plain("NAXIS1"@);
    lemma_plain("NAXIS2"@);
    lemma_plain("PCOUNT"@);
    lemma_plain("GCOUNT"@);
    lemma_plain("TFIELDS"@);
}

/// The keywords of a new table are in the order that the format asks for.
pub proof fn table_keywords_in_order(
    extension: Seq<char>,
    comment: Seq<char>,
    row_len: usize,
    nrows: usize,
    pcount: int,
    tfields: int,
)
    ensures
        names_of(
            bintable::with_layout(
                Seq::empty(),
                extension,
                comment,
                row_len,
                nrows,
                pcount,
                tfields,
            ),
        ) == seq![
            "XTENSION"@,
            "BITPIX"@,
            "NAXIS"@,
            "NAXIS1"@,
            "NAXIS2"@,
            "PCOUNT"@,
            "GCOUNT"@,
            "TFIELDS"@,
        ],
{
    lemma_names();
    let h = Seq::<KeywordView>::empty();
    let n0 = Seq::<Seq<char>>::empty();
    assert(names_of(h) =~= n0);
    let v0 = ValueView::Text(extension);
    lemma_new_name(h, "XTENSION"@, v0, Some(comment));
    let h0 = header::with_set(h, "XTENSION"@, v0, Some(comment));
    let n1 = n0.push("XTENSION"@);
    lemma_not_among(n0, "XTENSION"@, "BITPIX"@);
    lemma_new_name(h0, "BITPIX"@, ValueView::Integer(8), None);
    let h1 = bintable::with_int(h0, "BITPIX"@, 8);
    let n2 = n1.push("BITPIX"@);
    assert(names_of(h1) == n2);
    lemma_not_among(n0, "XTENSION"@, "NAXIS"@);
    lemma_not_among(n1, "BITPIX"@, "NAXIS"@);
    lemma_new_name(h1, "NAXIS"@, ValueView::Integer(2), None);
    let h2 = bintable::with_int(h1, "NAXIS"@, 2);
    let n3 = n2.push("NAXIS"@);
    assert(names_of(h2) == n3);
    lemma_not_among(n0, "XTENSION"@, "NAXIS1"@);
    lemma_not_among(n1, "BITPIX"@, "NAXIS1"@);
    lemma_not_among(n2, "NAXIS"@, "NAXIS1"@);
    lemma_new_name(h2, "NAXIS1"@, ValueView::Integer((row_len as i64) as int), None);
    let h3 = bintable::with_int(h2, "NAXIS1"@, (row_len as i64) as int);
    let n4 = n3.push("NAXIS1"@);
    assert(names_of(h3) == n4);
    lemma_not_among(n0, "XTENSION"@, "NAXIS2"@);
    lemma_not_among(n1, "BITPIX"@, "NAXIS2"@);
    lemma_not_among(n2, "NAXIS"@, "NAXIS2"@);
    lemma_not_among(n3, "NAXIS1"@, "NAXIS2"@);
    lemma_new_name(h3, "NAXIS2"@, ValueView::Integer((nrows as i64) as int), None);
    let h4 = bintable::with_int(h3, "NAXIS2"@, (nrows as i64) as int);
    let n5 = n4.push("NAXIS2"@);
    assert(names_of(h4) == n5);
    lemma_not_among(n0, "XTENSION"@, "PCOUNT"@);
    lemma_not_among(n1, "BITPIX"@, "PCOUNT"@);
    lemma_not_among(n2, "NAXIS"@, "PCOUNT"@);
    lemma_not_among(n3, "NAXIS1"@, "PCOUNT"@);
    lemma_not_among(n4, "NAXIS2"@, "PCOUNT"@);
    lemma_new_name(h4, "PCOUNT"@, ValueView::Integer(pcount), None);
    let h5 = bintable::with_int(h4, "PCOUNT"@, pcount);
    let n6 = n5.push("PCOUNT"@);
    assert(names_of(h5) == n6);
    lemma_not_among(n0, "XTENSION"@, "GCOUNT"@);
    lemma_not_among(n1, "BITPIX"@, "GCOUNT"@);
    lemma_not_among(n2, "NAXIS"@, "GCOUNT"@);
    lemma_not_among(n3, "NAXIS1"@, "GCOUNT"@);
    lemma_not_among(n4, "NAXIS2"@, "GCOUNT"@);
    lemma_not_among(n5, "PCOUNT"@, "GCOUNT"@);
    lemma_new_name(h5, "GCOUNT"@, ValueView::Integer(1), None);
    let h6 = bintable::with_int(h5, "GCOUNT"@, 1);
    let n7 = n6.push("GCOUNT"@);
    assert(names_of(h6) == n7);
    lemma_not_among(n0, "XTENSION"@, "TFIELDS"@);
    lemma_not_among(n1, "BITPIX"@, "TFIELDS"@);
    lemma_not_among(n2, "NAXIS"@, "TFIELDS"@);
    lemma_not_among(n3, "NAXIS1"@, "TFIELDS"@);
    lemma_not_among(n4, "NAXIS2"@, "TFIELDS"@);
    lemma_not_among(n5, "PCOUNT"@, "TFIELDS"@);
    lemma_not_among(n6, "GCOUNT"@, "TFIELDS"@);
    lemma_new_name(h6, "TFIELDS"@, ValueView::Integer(tfields), None);
    assert(n7.push("TFIELDS"@) =~= seq![
        "XTENSION"@,
        "BITPIX"@,
        "NAXIS"@,
        "NAXIS1"@,
        "NAXIS2"@,
        "PCOUNT"@,
        "GCOUNT"@,
        "TFIELDS"@,
    ]);
}

/// The name of axis `i`.
pub open spec fn axis_name(i: int) -> Seq<char> {
    "NAXIS"@ + text::decimal(i)
}

proof fn lemma_axis_name(i: int, j: int)
    requires
        i >= 1,
        j >= 1,
    ensures
        plain_name(axis_name(i)),
        axis_name(i).len() >= 6,
        axis_name(i)[0] == 'N',
        axis_name(i) == axis_name(j) ==> i == j,
{
    lemma_names();
    reveal_strlit("NAXIS");
    let name = axis_name(i);
    text::decimal_round_trip(i);
    text::decimal_round_trip(j);
    text::lemma_decimal_nat(i as nat);
    assert forall|k: int| 0 <= k < name.len() implies 'A' <= #[trigger] name[k] <= 'Z' || '0'
        <= name[k] <= '9' by {
        if k < 5 {
            assert(name[k] == "NAXIS"@[k]);
        } else {
            assert(name[k] == text::decimal(i)[k - 5]);
        }
    }
    lemma_plain(name);
    assert(name.skip(5) =~= text::decimal(i));
    assert(axis_name(j).skip(5) =~= text::decimal(j));
}

/// The names of `n` axes.
pub open spec fn axis_names(n: nat) -> Seq<Seq<char>> {
    Seq::new(n, |i: int| axis_name(i + 1))
}

proof fn lemma_axes_named(h: Seq<KeywordView>, axes: Seq<usize>)
    requires
        plain_names(names_of(h)),
        forall|i: int, j: int|
            0 <= i < h.len() && j >= 1 ==> #[trigger] names_of(h)[i] != #[trigger] axis_name(j),
    ensures
        names_of(image_data::with_axes(h, axes)) == names_of(h) + axis_names(axes.len()),
        plain_names(names_of(image_data::with_axes(h, axes))),
    decreases axes.len(),
{
    let n = axes.len();
    if n == 0 {
        assert(names_of(h) + axis_names(0) =~= names_of(h));
    } else {
        let front = axes.drop_last();
        lemma_axes_named(h, front);
        let g = image_data::with_axes(h, front);
        let name = axis_name(n as int);
        lemma_axis_name(n as int, n as int);
        let all = names_of(g);
        assert forall|i: int| 0 <= i < all.len() implies #[trigger] all[i] != name by {
            if i < h.len() {
                assert(all[i] == names_of(h)[i]);
            } else {
                let j = i - h.len() as int;
                assert(all[i] == axis_names((n - 1) as nat)[j]);
                lemma_axis_name(n as int, j + 1);
            }
        }
        lemma_new_name(g, name, ValueView::Integer((axes.last() as i64) as int), None);
        assert(all.push(name) =~= names_of(h) + axis_names(n));
    }
}

/// The keywords of a new image are in the order that the format asks for, in a primary HDU and in
/// an extension.
pub proof fn image_keywords_in_order(v: image_data::ImageView)
    ensures
        names_of(image_data::with_image(hdu::primary_start(), v)) == seq![
            "SIMPLE"@,
            "BITPIX"@,
            "NAXIS"@,
        ] + axis_names(v.axes.len()),
        names_of(hdu::image_extension_header(v)) == seq!["XTENSION"@, "BITPIX"@, "NAXIS"@]
            + axis_names(v.axes.len()) + seq!["PCOUNT"@, "GCOUNT"@],
{
    lemma_names();
    let h = Seq::<KeywordView>::empty();
    assert(names_of(h) =~= Seq::<Seq<char>>::empty());
    lemma_new_name(
        h,
        "SIMPLE"@,
        ValueView::Logical(true),
        Some("conforms to FITS standard"@),
    );
    lemma_image_named(hdu::primary_start(), "SIMPLE"@, v);
    let start = header::with_set(
        h,
        "XTENSION"@,
        ValueView::Text("IMAGE"@),
        Some("image extension"@),
    );
    lemma_new_name(h, "XTENSION"@, ValueView::Text("IMAGE"@), Some("image extension"@));
    lemma_image_named(start, "XTENSION"@, v);
    let g = image_data::with_image(start, v);
    let all = names_of(g);
    lemma_not_in_image("XTENSION"@, v.axes.len(), "PCOUNT"@);
    lemma_not_in_image("XTENSION"@, v.axes.len(), "GCOUNT"@);
    lemma_new_name(g, "PCOUNT"@, ValueView::Integer(0), None);
    let p = header::with_set(g, "PCOUNT"@, ValueView::Integer(0), None);
    lemma_not_among(all, "PCOUNT"@, "GCOUNT"@);
    lemma_new_name(p, "GCOUNT"@, ValueView::Integer(1), None);
    assert(all.push("PCOUNT"@).push("GCOUNT"@) =~= all + seq!["PCOUNT"@, "GCOUNT"@]);
}

proof fn lemma_not_in_image(first: Seq<char>, n: nat, name: Seq<char>)
    requires
        first != name,
        name.len() > 0,
        name != "BITPIX"@,
        name[0] != 'N',
    ensures
        !(seq![first, "BITPIX"@, "NAXIS"@] + axis_names(n)).contains(name),
{
    lemma_names();
    let all = seq![first, "BITPIX"@, "NAXIS"@] + axis_names(n);
    assert forall|i: int| 0 <= i < all.len() implies #[trigger] all[i] != name by {
        if i >= 3 {
            assert(all[i] == axis_name(i - 2));
            lemma_axis_name(i - 2, i - 2);
        }
    }
}

proof fn lemma_image_named(h: Seq<KeywordView>, first: Seq<char>, v: image_data::ImageView)
    requires
        names_of(h) == Seq::<Seq<char>>::empty().push(first),
        first == "SIMPLE"@ || first == "XTENSION"@,
    ensures
        names_of(image_data::with_image(h, v)) == seq![first, "BITPIX"@, "NAXIS"@] + axis_names(
            v.axes.len(),
        ),
        plain_names(names_of(image_data::with_image(h, v))),
{
    lemma_names();
    let n0 = Seq::<Seq<char>>::empty();
    let n1 = n0.push(first);
    assert(plain_names(names_of(h))) by {
        assert(forall|i: int| 0 <= i < n1.len() ==> #[trigger] n1[i] == first);
    }
    lemma_not_among(n0, first, "BITPIX"@);
    lemma_new_name(h, "BITPIX"@, ValueView::Integer(v.pixels.kind.number()), None);
    let h1 = header::with_set(h, "BITPIX"@, ValueView::Integer(v.pixels.kind.number()), None);
    let n2 = n1.push("BITPIX"@);
    lemma_not_among(n0, first, "NAXIS"@);
    lemma_not_among(n1, "BITPIX"@, "NAXIS"@);
    let n = ValueView::Integer((v.axes.len() as i64) as int);
    lemma_new_name(h1, "NAXIS"@, n, None);
    let h2 = header::with_set(h1, "NAXIS"@, n, None);
    let n3 = n2.push("NAXIS"@);
    assert(names_of(h2) == n3);
    assert forall|i: int, j: int| 0 <= i < h2.len() && j >= 1 implies #[trigger] names_of(h2)[i]
        != #[trigger] axis_name(j) by {
        lemma_axis_name(j, j);
        if i == 0 {
            assert(n3[i] == first);
        } else if i == 1 {
            assert(n3[i] == "BITPIX"@);
        } else {
            assert(n3[i] == "NAXIS"@);
        }
    }
    lemma_axes_named(h2, v.axes);
    assert(n3 =~= seq![first, "BITPIX"@, "NAXIS"@]);
}

/// The blocks of a header end in blanks behind the card called END, and those of data in zeros,
/// or in blanks for an ASCII table.
pub proof fn blocks_are_filled(h: Seq<KeywordView>, d: DataView, i: int)
    ensures
        ({
            let n = header::all_cards(h).len() as int;
            &&& 0 <= i < n ==> header::header_bytes(h)[i] == header::all_cards(h)[i]
            &&& header::header_bytes(h).len() >= n + 80
            &&& header::header_bytes(h)[n] == 'E' as u8
            &&& header::header_bytes(h)[n + 1] == 'N' as u8
            &&& header::header_bytes(h)[n + 2] == 'D' as u8
            &&& n + 3 <= i < header::header_bytes(h).len() ==> header::header_bytes(h)[i] == 0x20
        }),
        0 <= i < hdu::payload(d).len() ==> hdu::data_unit(d)[i] == hdu::payload(d)[i],
        hdu::payload(d).len() <= i < hdu::data_unit(d).len() ==> hdu::data_unit(d)[i] == (if d
            is AsciiTable {
            0x20u8
        } else {
            0
        }),
{
    reveal_strlit("END");
    text::lemma_bytes_chars("END"@);
    io_utils::padded_is_least_multiple((header::all_cards(h) + header::end_card()).len() as int);
    io_utils::padded_is_least_multiple(hdu::payload(d).len() as int);
}

} // verus!
