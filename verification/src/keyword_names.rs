//! Lookups in headers by the names of keywords: which names differ, and what setting one
//! keyword leaves of the others.
use crate::header;
use crate::keyword::{KeywordView, ValueView};
use crate::text;
use vstd::prelude::*;
use vstd::utf8::*;

verus! {

/// The value of the first keyword with a name; `None` where there is no such keyword.
pub open spec fn found(h: Seq<KeywordView>, name: Seq<char>) -> Option<Option<ValueView>> {
    let k = header::position(h, name);
    if k < h.len() {
        Some(h[k].value)
    } else {
        None
    }
}

/// What is found behind a keyword that was set: its value under its name, and under any
/// other name what was found before.
pub proof fn found_after_set(
    h: Seq<KeywordView>,
    name: Seq<char>,
    value: ValueView,
    comment: Option<Seq<char>>,
    other: Seq<char>,
)
    requires
        is_ascii_chars(name),
    ensures
        found(header::with_set(h, name, value, comment), other) == (
        if text::same_ignoring_case(name, other) {
            Some(Some(value))
        } else {
            found(h, other)
        }),
{
    let g = header::with_set(h, name, value, comment);
    header::lemma_position(h, name);
    header::lemma_position(h, other);
    header::lemma_upper_twice(name);
    let p = header::position(h, name);
    let k = header::position(h, other);
    if text::same_ignoring_case(name, other) {
        assert forall|i: int| 0 <= i < p implies !text::same_ignoring_case(
            #[trigger] g[i].name,
            other,
        ) by {
            assert(g[i].name == h[i].name);
        }
        header::lemma_position_is(g, other, p);
    } else if k < h.len() {
        assert forall|i: int| 0 <= i < k implies !text::same_ignoring_case(
            #[trigger] g[i].name,
            other,
        ) by {
            assert(g[i].name == h[i].name);
        }
        header::lemma_position_is(g, other, k);
    } else {
        assert forall|i: int| 0 <= i < g.len() implies !text::same_ignoring_case(
            #[trigger] g[i].name,
            other,
        ) by {
            if i < h.len() {
                assert(g[i].name == h[i].name);
            }
        }
        header::lemma_position(g, other);
    }
}

/// The first four characters of a name.
pub open spec fn head(name: Seq<char>) -> (char, char, char, char) {
    (name[0], name[1], name[2], name[3])
}

/// A name in upper case with a length and first characters.
pub open spec fn named(name: Seq<char>, len: int, first: (char, char, char, char)) -> bool {
    &&& name.len() == len
    &&& head(name) == first
    &&& is_ascii_chars(name)
    &&& text::ascii_upper(name) == name
}

/// A name of at least four characters in upper case.
pub open spec fn upper_name(name: Seq<char>) -> bool {
    name.len() >= 4 && is_ascii_chars(name) && text::ascii_upper(name) == name
}

/// Names in upper case with different first characters are different names.
pub proof fn lemma_heads_differ(a: Seq<char>, b: Seq<char>)
    requires
        upper_name(a),
        upper_name(b),
        head(a) != head(b),
    ensures
        !text::same_ignoring_case(a, b),
{
}

/// A name with a number behind it.
pub open spec fn numbered(name: Seq<char>, i: int) -> Seq<char> {
    name + text::decimal(i)
}

/// A name with a number behind it is in upper case, and keeps its first characters.
pub proof fn lemma_numbered(name: Seq<char>, i: int)
    requires
        upper_name(name),
        i >= 0,
    ensures
        upper_name(numbered(name, i)),
        head(numbered(name, i)) == head(name),
        numbered(name, i).len() > name.len(),
{
    let s = numbered(name, i);
    let d = text::decimal(i);
    text::decimal_round_trip(i);
    text::lemma_decimal_nat(i as nat);
    assert forall|k: int| 0 <= k < s.len() implies text::upper_char(#[trigger] s[k]) == s[k] by {
        if k < name.len() {
            assert(text::ascii_upper(name)[k] == name[k]);
        } else {
            assert(text::is_digit(d[k - name.len()]));
        }
    }
    assert(text::ascii_upper(s) =~= s);
    assert forall|k: int| 0 <= k < s.len() implies '\0' <= #[trigger] s[k] <= '\u{7f}' by {
        if k < name.len() {
            assert(s[k] == name[k]);
        } else {
            assert(s[k] == d[k - name.len()]);
        }
    }
}

/// A name with different numbers behind it makes different names, and differs from the
/// bare name.
pub proof fn lemma_numbers_differ(name: Seq<char>, i: int, j: int)
    requires
        upper_name(name),
        i >= 0,
        j >= 0,
    ensures
        text::same_ignoring_case(numbered(name, i), numbered(name, j)) <==> i == j,
        !text::same_ignoring_case(numbered(name, i), name),
        !text::same_ignoring_case(name, numbered(name, i)),
{
    lemma_numbered(name, i);
    lemma_numbered(name, j);
    text::decimal_round_trip(i);
    text::decimal_round_trip(j);
    if text::same_ignoring_case(numbered(name, i), numbered(name, j)) {
        assert(numbered(name, i).skip(name.len() as int) =~= text::decimal(i));
        assert(numbered(name, j).skip(name.len() as int) =~= text::decimal(j));
    }
    assert(text::ascii_upper(numbered(name, i)).len() > text::ascii_upper(name).len());
}

/// A keyword to set, where it has a value.
pub struct Item {
    pub name: Seq<char>,
    pub value: Option<ValueView>,
    pub comment: Option<Seq<char>>,
}

/// The list of keywords with an item set.
pub open spec fn with_item(h: Seq<KeywordView>, item: Item) -> Seq<KeywordView> {
    match item.value {
        Some(v) => header::with_set(h, item.name, v, item.comment),
        None => h,
    }
}

/// The list of keywords with several items set, one after the other.
pub open spec fn with_items(h: Seq<KeywordView>, items: Seq<Item>) -> Seq<KeywordView>
    decreases items.len(),
{
    if items.len() == 0 {
        h
    } else {
        with_item(with_items(h, items.drop_last()), items.last())
    }
}

/// Items under other names leave what is found under a name.
pub proof fn found_beside_items(h: Seq<KeywordView>, items: Seq<Item>, name: Seq<char>)
    requires
        forall|k: int|
            0 <= k < items.len() ==> is_ascii_chars((#[trigger] items[k]).name)
                && !text::same_ignoring_case(items[k].name, name),
    ensures
        found(with_items(h, items), name) == found(h, name),
    decreases items.len(),
{
    if items.len() > 0 {
        let front = items.drop_last();
        let item = items.last();
        assert forall|k: int| 0 <= k < front.len() implies is_ascii_chars((#[trigger] front[k]).name)
            && !text::same_ignoring_case(front[k].name, name) by {
            assert(front[k] == items[k]);
        }
        found_beside_items(h, front, name);
        assert(items[items.len() - 1] == item);
        if let Some(v) = item.value {
            found_after_set(with_items(h, front), item.name, v, item.comment, name);
        }
    }
}

/// What is found under the name of an item whose name no other item has: its value, or
/// where it has none what was found before.
pub proof fn found_item(h: Seq<KeywordView>, items: Seq<Item>, q: int)
    requires
        0 <= q < items.len(),
        forall|k: int| 0 <= k < items.len() ==> is_ascii_chars((#[trigger] items[k]).name),
        forall|k: int|
            0 <= k < items.len() && k != q ==> !text::same_ignoring_case(
                (#[trigger] items[k]).name,
                items[q].name,
            ),
    ensures
        found(with_items(h, items), items[q].name) == (match items[q].value {
            Some(v) => Some(Some(v)),
            None => found(h, items[q].name),
        }),
    decreases items.len(),
{
    let front = items.drop_last();
    let item = items.last();
    let name = items[q].name;
    assert forall|k: int| 0 <= k < front.len() implies is_ascii_chars((#[trigger] front[k]).name)
        && (k != q ==> !text::same_ignoring_case(front[k].name, name)) by {
        assert(front[k] == items[k]);
    }
    assert(items[items.len() - 1] == item);
    if q < front.len() {
        found_item(h, front, q);
        if let Some(v) = item.value {
            found_after_set(with_items(h, front), item.name, v, item.comment, name);
        }
    } else {
        found_beside_items(h, front, name);
        if let Some(v) = item.value {
            found_after_set(with_items(h, front), item.name, v, item.comment, name);
        }
    }
}

/// One more item is set behind the others.
pub proof fn lemma_with_push(h: Seq<KeywordView>, items: Seq<Item>, item: Item)
    ensures
        with_items(h, items.push(item)) == with_item(with_items(h, items), item),
{
    assert(items.push(item).drop_last() =~= items);
}

/// The names of the keywords that describe data.
pub proof fn lemma_layout_names()
    ensures
        named("SIMPLE"@, 6, ('S', 'I', 'M', 'P')),
        named("XTENSION"@, 8, ('X', 'T', 'E', 'N')),
        named("BITPIX"@, 6, ('B', 'I', 'T', 'P')),
        named("NAXIS"@, 5, ('N', 'A', 'X', 'I')),
        named("PCOUNT"@, 6, ('P', 'C', 'O', 'U')),
        named("GCOUNT"@, 6, ('G', 'C', 'O', 'U')),
        named("TFIELDS"@, 7, ('T', 'F', 'I', 'E')),
        named("TTYPE"@, 5, ('T', 'T', 'Y', 'P')),
        named("TFORM"@, 5, ('T', 'F', 'O', 'R')),
        named("TSCAL"@, 5, ('T', 'S', 'C', 'A')),
        named("TZERO"@, 5, ('T', 'Z', 'E', 'R')),
        named("TUNIT"@, 5, ('T', 'U', 'N', 'I')),
        named("TBCOL"@, 5, ('T', 'B', 'C', 'O')),
        named("DATASUM"@, 7, ('D', 'A', 'T', 'A')),
        named("CHECKSUM"@, 8, ('C', 'H', 'E', 'C')),
{
    reveal_strlit("SIMPLE");
    reveal_strlit("XTENSION");
    reveal_strlit("BITPIX");
    reveal_strlit("NAXIS");
    reveal_strlit("PCOUNT");
    reveal_strlit("GCOUNT");
    reveal_strlit("TFIELDS");
    reveal_strlit("TTYPE");
    reveal_strlit("TFORM");
    reveal_strlit("TSCAL");
    reveal_strlit("TZERO");
    reveal_strlit("TUNIT");
    reveal_strlit("TBCOL");
    reveal_strlit("DATASUM");
    reveal_strlit("CHECKSUM");
    assert(text::ascii_upper("SIMPLE"@) =~= "SIMPLE"@);
    assert(text::ascii_upper("XTENSION"@) =~= "XTENSION"@);
    assert(text::ascii_upper("BITPIX"@) =~= "BITPIX"@);
    assert(text::ascii_upper("NAXIS"@) =~= "NAXIS"@);
    assert(text::ascii_upper("PCOUNT"@) =~= "PCOUNT"@);
    assert(text::ascii_upper("GCOUNT"@) =~= "GCOUNT"@);
    assert(text::ascii_upper("TFIELDS"@) =~= "TFIELDS"@);
    assert(text::ascii_upper("TTYPE"@) =~= "TTYPE"@);
    assert(text::ascii_upper("TFORM"@) =~= "TFORM"@);
    assert(text::ascii_upper("TSCAL"@) =~= "TSCAL"@);
    assert(text::ascii_upper("TZERO"@) =~= "TZERO"@);
    assert(text::ascii_upper("TUNIT"@) =~= "TUNIT"@);
    assert(text::ascii_upper("TBCOL"@) =~= "TBCOL"@);
    assert(text::ascii_upper("DATASUM"@) =~= "DATASUM"@);
    assert(text::ascii_upper("CHECKSUM"@) =~= "CHECKSUM"@);
}

/// The names of the keywords that describe a compressed image.
pub proof fn lemma_compression_names()
    ensures
        named("ZIMAGE"@, 6, ('Z', 'I', 'M', 'A')),
        named("ZCMPTYPE"@, 8, ('Z', 'C', 'M', 'P')),
        named("ZBITPIX"@, 7, ('Z', 'B', 'I', 'T')),
        named("ZNAXIS"@, 6, ('Z', 'N', 'A', 'X')),
        named("ZTILE"@, 5, ('Z', 'T', 'I', 'L')),
        named("ZNAME"@, 5, ('Z', 'N', 'A', 'M')),
        named("ZVAL"@, 4, ('Z', 'V', 'A', 'L')),
        named("ZQUANTIZ"@, 8, ('Z', 'Q', 'U', 'A')),
        named("ZDITHER0"@, 8, ('Z', 'D', 'I', 'T')),
        named("ZBLANK"@, 6, ('Z', 'B', 'L', 'A')),
        named("EXTNAME"@, 7, ('E', 'X', 'T', 'N')),
        named("ZTENSION"@, 8, ('Z', 'T', 'E', 'N')),
        named("ZPCOUNT"@, 7, ('Z', 'P', 'C', 'O')),
        named("ZGCOUNT"@, 7, ('Z', 'G', 'C', 'O')),
{
    reveal_strlit("EXTNAME");
    reveal_strlit("ZTENSION");
    reveal_strlit("ZPCOUNT");
    reveal_strlit("ZGCOUNT");
    assert(text::ascii_upper("EXTNAME"@) =~= "EXTNAME"@);
    assert(text::ascii_upper("ZTENSION"@) =~= "ZTENSION"@);
    assert(text::ascii_upper("ZPCOUNT"@) =~= "ZPCOUNT"@);
    assert(text::ascii_upper("ZGCOUNT"@) =~= "ZGCOUNT"@);
    reveal_strlit("ZIMAGE");
    reveal_strlit("ZCMPTYPE");
    reveal_strlit("ZBITPIX");
    reveal_strlit("ZNAXIS");
    reveal_strlit("ZTILE");
    reveal_strlit("ZNAME");
    reveal_strlit("ZVAL");
    reveal_strlit("ZQUANTIZ");
    reveal_strlit("ZDITHER0");
    reveal_strlit("ZBLANK");
    assert(text::ascii_upper("ZIMAGE"@) =~= "ZIMAGE"@);
    assert(text::ascii_upper("ZCMPTYPE"@) =~= "ZCMPTYPE"@);
    assert(text::ascii_upper("ZBITPIX"@) =~= "ZBITPIX"@);
    assert(text::ascii_upper("ZNAXIS"@) =~= "ZNAXIS"@);
    assert(text::ascii_upper("ZTILE"@) =~= "ZTILE"@);
    assert(text::ascii_upper("ZNAME"@) =~= "ZNAME"@);
    assert(text::ascii_upper("ZVAL"@) =~= "ZVAL"@);
    assert(text::ascii_upper("ZQUANTIZ"@) =~= "ZQUANTIZ"@);
    assert(text::ascii_upper("ZDITHER0"@) =~= "ZDITHER0"@);
    assert(text::ascii_upper("ZBLANK"@) =~= "ZBLANK"@);
}

} // verus!
