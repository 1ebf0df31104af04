//! Cells of a table as text, for messages.
use crate::bintable::{BinCellValue, CellView};
use crate::rice;
use crate::text;
use crate::words;
use vstd::prelude::*;

verus! {

/// The text that `str`'s `Debug` makes of a text: in quotation marks, with escapes.
pub uninterp spec fn quoted(s: Seq<char>) -> Seq<char>;

/// Names what `<str as std::fmt::Debug>::fmt` writes: the text in quotation marks, with its
/// special characters escaped. Which characters are escaped, and how, is not stated.
#[verifier::external_body]
fn quote(s: &str) -> (r: String)
    ensures
        r@ == quoted(s@),
{
    format!("{s:?}")
}

/// Texts in a row, with commas between them.
pub open spec fn joined(items: Seq<Seq<char>>) -> Seq<char>
    decreases items.len(),
{
    if items.len() == 0 {
        Seq::empty()
    } else if items.len() == 1 {
        items[0]
    } else {
        joined(items.drop_last()) + ", "@ + items.last()
    }
}

/// A list of texts.
pub open spec fn list(items: Seq<Seq<char>>) -> Seq<char> {
    "["@ + joined(items) + "]"@
}

/// Numbers in decimal notation.
pub open spec fn decimals(v: Seq<int>) -> Seq<Seq<char>> {
    Seq::new(v.len(), |i: int| text::decimal(v[i]))
}

/// A truth value as text.
pub open spec fn truth(b: bool) -> Seq<char> {
    if b {
        "true"@
    } else {
        "false"@
    }
}

/// Truth values as texts.
pub open spec fn truths(v: Seq<bool>) -> Seq<Seq<char>> {
    Seq::new(v.len(), |i: int| truth(v[i]))
}

/// Bytes as numbers.
pub open spec fn byte_numbers(v: Seq<u8>) -> Seq<int> {
    Seq::new(v.len(), |i: int| v[i] as int)
}

/// A cell as text: its kind and what it holds. Of floating-point numbers only the kind is
/// given.
pub open spec fn shown(c: CellView) -> Seq<char> {
    match c {
        CellView::Logical(v) => "Logical("@ + list(truths(v)) + ")"@,
        CellView::Bytes(v) => "Bytes("@ + list(decimals(byte_numbers(v))) + ")"@,
        CellView::I16(v) => "I16("@ + list(decimals(v)) + ")"@,
        CellView::I32(v) => "I32("@ + list(decimals(v)) + ")"@,
        CellView::I64(v) => "I64("@ + list(decimals(v)) + ")"@,
        CellView::F32(_) => "F32"@,
        CellView::F64(_) => "F64"@,
        CellView::Text(s) => "String("@ + quoted(s) + ")"@,
        CellView::ComplexF32(_) => "ComplexF32"@,
        CellView::ComplexF64(_) => "ComplexF64"@,
        CellView::Bits(v, n) => "Bits("@ + list(decimals(byte_numbers(v))) + ", "@
            + text::decimal(n as int) + ")"@,
    }
}

/// Append an item to a row of `n` items.
fn push_item(s: String, n: usize, item: &str, Ghost(items): Ghost<Seq<Seq<char>>>) -> (r: String)
    requires
        items.len() == n,
        s@ == "["@ + joined(items),
    ensures
        r@ == "["@ + joined(items.push(item@)),
{
    proof {
        assert(items.push(item@).drop_last() =~= items);
    }
    if n == 0 {
        let r = s.concat(item);
        assert(joined(items) =~= Seq::<char>::empty());
        assert(r@ =~= "["@ + item@);
        r
    } else {
        let r = s.concat(", ").concat(item);
        assert(r@ =~= "["@ + (joined(items) + ", "@ + item@));
        r
    }
}

/// Numbers as text.
fn number_list(v: &[i64]) -> (r: String)
    ensures
        r@ == list(decimals(words::numbers(v@))),
{
    let ghost all = decimals(words::numbers(v@));
    let mut s: String = "[".to_owned();
    let mut i: usize = 0;
    assert(all.take(0) =~= Seq::<Seq<char>>::empty());
    assert(s@ =~= "["@ + joined(all.take(0)));
    while i < v.len()
        invariant
            i <= v@.len(),
            all == decimals(words::numbers(v@)),
            s@ == "["@ + joined(all.take(i as int)),
        decreases v@.len() - i,
    {
        let item: String = text::decimal_i64(v[i]);
        assert(all.take(i as int).push(item@) =~= all.take(i + 1));
        s = push_item(s, i, item.as_str(), Ghost(all.take(i as int)));
        i += 1;
    }
    assert(all.take(i as int) =~= all);
    s.concat("]")
}

/// Truth values as text.
fn truth_list(v: &[bool]) -> (r: String)
    ensures
        r@ == list(truths(v@)),
{
    let ghost all = truths(v@);
    let mut s: String = "[".to_owned();
    let mut i: usize = 0;
    assert(all.take(0) =~= Seq::<Seq<char>>::empty());
    assert(s@ =~= "["@ + joined(all.take(0)));
    while i < v.len()
        invariant
            i <= v@.len(),
            all == truths(v@),
            s@ == "["@ + joined(all.take(i as int)),
        decreases v@.len() - i,
    {
        let item: &str = if v[i] {
            "true"
        } else {
            "false"
        };
        assert(all.take(i as int).push(item@) =~= all.take(i + 1));
        s = push_item(s, i, item, Ghost(all.take(i as int)));
        i += 1;
    }
    assert(all.take(i as int) =~= all);
    s.concat("]")
}

/// Bytes as text.
fn byte_list(v: &[u8]) -> (r: String)
    ensures
        r@ == list(decimals(byte_numbers(v@))),
{
    let wide: Vec<i64> = rice::widen_u8(v);
    assert(words::numbers(wide@) =~= byte_numbers(v@));
    number_list(wide.as_slice())
}

/// A cell as text.
pub(crate) fn show(c: &BinCellValue) -> (r: String)
    ensures
        r@ == shown(c@),
{
    match c {
        BinCellValue::Logical(v) => "Logical(".to_owned().concat(
            truth_list(v.as_slice()).as_str(),
        ).concat(")"),
        BinCellValue::Bytes(v) => "Bytes(".to_owned().concat(
            byte_list(v.as_slice()).as_str(),
        ).concat(")"),
        BinCellValue::I16(v) => {
            let wide: Vec<i64> = rice::widen_i16(v.as_slice());
            assert(words::numbers(wide@) =~= words::numbers(v@));
            "I16(".to_owned().concat(number_list(wide.as_slice()).as_str()).concat(")")
        },
        BinCellValue::I32(v) => {
            let wide: Vec<i64> = rice::widen_i32(v.as_slice());
            assert(words::numbers(wide@) =~= words::numbers(v@));
            "I32(".to_owned().concat(number_list(wide.as_slice()).as_str()).concat(")")
        },
        BinCellValue::I64(v) => "I64(".to_owned().concat(
            number_list(v.as_slice()).as_str(),
        ).concat(")"),
        BinCellValue::F32(_) => "F32".to_owned(),
        BinCellValue::F64(_) => "F64".to_owned(),
        BinCellValue::String(s) => "String(".to_owned().concat(quote(s.as_str()).as_str()).concat(
            ")",
        ),
        BinCellValue::ComplexF32(_) => "ComplexF32".to_owned(),
        BinCellValue::ComplexF64(_) => "ComplexF64".to_owned(),
        BinCellValue::Bits(v, n) => "Bits(".to_owned().concat(
            byte_list(v.as_slice()).as_str(),
        ).concat(", ").concat(text::decimal_u64(*n as u64).as_str()).concat(")"),
    }
}

} // verus!
