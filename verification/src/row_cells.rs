//! What reading gives back of the cells that were written to the row of a binary table.
use crate::bigendian;
use crate::bintable;
use crate::bintable::{BinColumnType, BinColumnView, BinTableView, CellView};
use crate::card_reading;
use crate::error::ErrorView;
use crate::keyword;
use crate::text;
use crate::words;
use vstd::prelude::*;
use vstd::utf8::*;

verus! {

/// The bytes of logical values.
pub open spec fn truth_bytes(values: Seq<bool>) -> Seq<u8> {
    Seq::new(
        values.len(),
        |i: int|
            if values[i] {
                0x54u8
            } else {
                0x46u8
            },
    )
}

/// Pairs of numbers, one number after the other.
pub open spec fn flat(values: Seq<(int, int)>) -> Seq<int> {
    Seq::new(
        2 * values.len(),
        |i: int|
            if i % 2 == 0 {
                values[i / 2].0
            } else {
                values[i / 2].1
            },
    )
}

/// Numbers that words of `w` bytes hold.
pub open spec fn all_held(signed: bool, w: nat, values: Seq<int>) -> bool {
    forall|i: int| 0 <= i < values.len() ==> words::word_holds(signed, w, #[trigger] values[i])
}

/// The bytes that a value is written as in a cell of a format.
pub open spec fn cell_bytes(format: BinColumnType, value: CellView) -> Seq<u8> {
    match (format, value) {
        (_, CellView::Logical(v)) => truth_bytes(v),
        (_, CellView::Bits(v, _)) => v,
        (_, CellView::Bytes(v)) => v,
        (_, CellView::I16(v)) => words::words_encoded(true, 2, v),
        (_, CellView::I32(v)) => words::words_encoded(true, 4, v),
        (_, CellView::I64(v)) => words::words_encoded(true, 8, v),
        (_, CellView::F32(v)) => words::words_encoded(false, 4, v),
        (_, CellView::F64(v)) => words::words_encoded(false, 8, v),
        (_, CellView::ComplexF32(v)) => words::words_encoded(false, 4, flat(v)),
        (_, CellView::ComplexF64(v)) => words::words_encoded(false, 8, flat(v)),
        (BinColumnType::Char(n), CellView::Text(s)) => keyword::fixed(text::bytes_of(s), n as nat),
        (_, CellView::Text(s)) => text::bytes_of(s),
    }
}

/// Whether a value is one that a cell of a format holds: of its type, with as many elements.
/// A text does not end in white space, which is lost.
pub open spec fn cell_holds(format: BinColumnType, value: CellView) -> bool {
    match (format, value) {
        (BinColumnType::Logical(n), CellView::Logical(v)) => v.len() == n,
        (BinColumnType::Bit(n), CellView::Bits(v, m)) => m == n && v.len() == format.size(),
        (BinColumnType::Byte(n), CellView::Bytes(v)) => v.len() == n,
        (BinColumnType::I16(n), CellView::I16(v)) => v.len() == n && all_held(true, 2, v),
        (BinColumnType::J32(n), CellView::I32(v)) => v.len() == n && all_held(true, 4, v),
        (BinColumnType::K64(n), CellView::I64(v)) => v.len() == n && all_held(true, 8, v),
        (BinColumnType::E32(n), CellView::F32(v)) => v.len() == n && all_held(false, 4, v),
        (BinColumnType::D64(n), CellView::F64(v)) => v.len() == n && all_held(false, 8, v),
        (BinColumnType::C64(n), CellView::ComplexF32(v)) => v.len() == n && all_held(
            false,
            4,
            flat(v),
        ),
        (BinColumnType::M128(n), CellView::ComplexF64(v)) => v.len() == n && all_held(
            false,
            8,
            flat(v),
        ),
        (BinColumnType::Char(n), CellView::Text(s)) => text::bytes_of(s).len() <= n && (s.len() > 0
            ==> !text::is_space(s.last())),
        _ => false,
    }
}

proof fn lemma_words_cell(signed: bool, w: nat, values: Seq<int>)
    requires
        w > 0,
        all_held(signed, w, values),
    ensures
        words::words_decoded(signed, w, words::words_encoded(signed, w, values)) == values,
        words::words_encoded(signed, w, values).len() == values.len() * w,
{
    words::words_round_trip(signed, w, values);
    words::lemma_words_encoded_len(signed, w, values);
}

proof fn lemma_pairs_cell(w: nat, values: Seq<(int, int)>)
    requires
        w > 0,
        all_held(false, w, flat(values)),
    ensures
        bintable::pairs(
            words::words_decoded(false, w, words::words_encoded(false, w, flat(values))),
        ) == values,
        words::words_encoded(false, w, flat(values)).len() == 2 * values.len() * w,
{
    lemma_words_cell(false, w, flat(values));
    let f = flat(values);
    assert forall|i: int| 0 <= i < values.len() implies #[trigger] bintable::pairs(f)[i]
        == values[i] by {
        assert((2 * i) / 2 == i && (2 * i) % 2 == 0);
        assert((2 * i + 1) / 2 == i && (2 * i + 1) % 2 == 1);
    }
    assert(bintable::pairs(f) =~= values);
}

/// Trailing blanks do not count in a text cell.
proof fn lemma_text_cell(s: Seq<char>, n: nat)
    requires
        text::bytes_of(s).len() <= n,
        s.len() > 0 ==> !text::is_space(s.last()),
    ensures
        bintable::cell_text(keyword::fixed(text::bytes_of(s), n), "char column"@) == Ok::<CellView, ErrorView>(
            CellView::Text(s),
        ),
{
    let b = text::bytes_of(s);
    let pad = (n - b.len()) as nat;
    let t = s + card_reading::spaces(pad);
    card_reading::lemma_spaces_bytes(pad);
    text::lemma_bytes_add(s, card_reading::spaces(pad));
    assert(keyword::fixed(b, n) =~= text::bytes_of(t));
    encode_utf8_valid_utf8(t);
    encode_utf8_decode_utf8(t);
    card_reading::lemma_trim_end_spaces(s, pad);
    assert(text::trim_end(s) == s);
}

/// A value that was written to a cell is read back: logical values, bits, bytes, numbers,
/// complex numbers and text.
pub proof fn cell_round_trip(heap: Seq<u8>, format: BinColumnType, value: CellView)
    requires
        cell_holds(format, value),
    ensures
        cell_bytes(format, value).len() == format.size(),
        bintable::cell_value(heap, format, cell_bytes(format, value)) == Ok::<CellView, ErrorView>(
            value,
        ),
{
    match value {
        CellView::Logical(v) => {
            assert(bintable::truths(truth_bytes(v)) =~= v);
        },
        CellView::I16(v) => lemma_words_cell(true, 2, v),
        CellView::I32(v) => lemma_words_cell(true, 4, v),
        CellView::I64(v) => lemma_words_cell(true, 8, v),
        CellView::F32(v) => lemma_words_cell(false, 4, v),
        CellView::F64(v) => lemma_words_cell(false, 8, v),
        CellView::ComplexF32(v) => lemma_pairs_cell(4, v),
        CellView::ComplexF64(v) => lemma_pairs_cell(8, v),
        CellView::Text(s) => lemma_text_cell(s, format.size()),
        CellView::Bits(_, _) => {},
        CellView::Bytes(_) => {},
    }
}

/// The bytes of a row's cells, one after the other.
pub open spec fn row_of(columns: Seq<BinColumnView>, cells: Seq<CellView>) -> Seq<u8>
    decreases cells.len(),
{
    if cells.len() == 0 {
        Seq::empty()
    } else {
        row_of(columns, cells.drop_last()) + cell_bytes(
            columns[cells.len() - 1].format,
            cells.last(),
        )
    }
}

/// Whether columns hold cells: no more cells than columns, each cell one that its column
/// holds.
pub open spec fn row_fits(columns: Seq<BinColumnView>, cells: Seq<CellView>) -> bool {
    &&& cells.len() <= columns.len()
    &&& forall|i: int|
        0 <= i < cells.len() ==> cell_holds(columns[i].format, #[trigger] cells[i])
}

proof fn lemma_row_of(columns: Seq<BinColumnView>, cells: Seq<CellView>, col: int)
    requires
        row_fits(columns, cells),
        0 <= col < cells.len(),
    ensures
        row_of(columns, cells).len() == bintable::column_offset(columns, cells.len() as int),
        bintable::column_offset(columns, col) + columns[col].format.size() <= row_of(
            columns,
            cells,
        ).len(),
        row_of(columns, cells).subrange(
            bintable::column_offset(columns, col) as int,
            (bintable::column_offset(columns, col) + columns[col].format.size()) as int,
        ) == cell_bytes(columns[col].format, cells[col]),
    decreases cells.len(),
{
    let front = cells.drop_last();
    let n = front.len() as int;
    assert forall|i: int| 0 <= i < front.len() implies cell_holds(
        columns[i].format,
        #[trigger] front[i],
    ) by {
        assert(front[i] == cells[i]);
    }
    cell_round_trip(Seq::empty(), columns[n].format, cells[n]);
    let row = row_of(columns, cells);
    let a = bintable::column_offset(columns, col) as int;
    let b = a + columns[col].format.size();
    if n > 0 {
        lemma_row_of(
            columns,
            front,
            if col < n {
                col
            } else {
                0
            },
        );
    } else {
        assert(front =~= Seq::empty());
    }
    if col < n {
        assert(row.subrange(a, b) =~= row_of(columns, front).subrange(a, b));
    } else {
        assert(row.subrange(a, b) =~= cell_bytes(columns[n].format, cells[n]));
    }
}

/// The cells that were written to a pushed row are the ones that are read from it, and the
/// rows before it keep theirs.
pub proof fn pushed_cells_read_back(
    t: BinTableView,
    cells: Seq<CellView>,
    heap: Seq<u8>,
    col: usize,
)
    requires
        t.nrows < usize::MAX,
        t.main_data.len() == t.nrows * t.row_len,
        t.row_len == bintable::column_offset(t.columns, t.columns.len() as int),
        cells.len() == t.columns.len(),
        row_fits(t.columns, cells),
        col < t.columns.len(),
    ensures
        bintable::table_cell(
            bintable::with_row(t, row_of(t.columns, cells), heap),
            t.nrows,
            col,
        ) == Ok::<CellView, ErrorView>(cells[col as int]),
        forall|row: usize|
            row < t.nrows ==> #[trigger] bintable::cell_data(
                bintable::with_row(t, row_of(t.columns, cells), heap),
                row,
                col,
            ) == bintable::cell_data(t, row, col),
{
    let data = row_of(t.columns, cells);
    lemma_row_of(t.columns, cells, col as int);
    bintable::pushed_row_cells(t, data, heap, col);
    assert(bintable::row_bytes(data, t.row_len as nat) =~= data);
    cell_round_trip(heap, t.columns[col as int].format, cells[col as int]);
}

/// The methods of a row writer write a single value as its cell holds it.
pub proof fn single_values(b: bool, u: u8, i: i16, j: i32, k: i64, e: u32, d: u64)
    ensures
        cell_bytes(BinColumnType::Logical(1), CellView::Logical(seq![b])) == seq![
            if b {
                0x54u8
            } else {
                0x46u8
            },
        ],
        cell_bytes(BinColumnType::Byte(1), CellView::Bytes(seq![u])) == seq![u],
        cell_bytes(BinColumnType::I16(1), CellView::I16(seq![i as int]))
            == bigendian::be_signed_digits(i as int, 2),
        cell_bytes(BinColumnType::J32(1), CellView::I32(seq![j as int]))
            == bigendian::be_signed_digits(j as int, 4),
        cell_bytes(BinColumnType::K64(1), CellView::I64(seq![k as int]))
            == bigendian::be_signed_digits(k as int, 8),
        cell_bytes(BinColumnType::E32(1), CellView::F32(seq![e as int])) == bigendian::be_digits(
            e as nat,
            4,
        ),
        cell_bytes(BinColumnType::D64(1), CellView::F64(seq![d as int])) == bigendian::be_digits(
            d as nat,
            8,
        ),
        cell_holds(BinColumnType::Logical(1), CellView::Logical(seq![b])),
        cell_holds(BinColumnType::Byte(1), CellView::Bytes(seq![u])),
        cell_holds(BinColumnType::I16(1), CellView::I16(seq![i as int])),
        cell_holds(BinColumnType::J32(1), CellView::I32(seq![j as int])),
        cell_holds(BinColumnType::K64(1), CellView::I64(seq![k as int])),
        cell_holds(BinColumnType::E32(1), CellView::F32(seq![e as int])),
        cell_holds(BinColumnType::D64(1), CellView::F64(seq![d as int])),
{
    bigendian::lemma_byte_powers();
    assert(truth_bytes(seq![b]) =~= seq![
        if b {
            0x54u8
        } else {
            0x46u8
        },
    ]);
    lemma_single_word(true, 2, i as int);
    lemma_single_word(true, 4, j as int);
    lemma_single_word(true, 8, k as int);
    lemma_single_word(false, 4, e as int);
    lemma_single_word(false, 8, d as int);
}

proof fn lemma_single_word(signed: bool, w: nat, v: int)
    ensures
        words::words_encoded(signed, w, seq![v]) == words::word_bytes(signed, w, v),
{
    let one = seq![v];
    assert(one.drop_last() =~= Seq::<int>::empty());
    assert(words::words_encoded(signed, w, Seq::<int>::empty()) =~= Seq::<u8>::empty());
    assert(words::words_encoded(signed, w, one) =~= words::word_bytes(signed, w, v));
}

/// Whether a value is one that a variable-length array of elements holds: of the type that
/// the letter stands for. A text does not end in white space, which is lost.
pub open spec fn array_holds(element: char, value: CellView) -> bool {
    match value {
        CellView::Logical(_) => element == 'L',
        CellView::Bytes(_) => element == 'B',
        CellView::Text(s) => element == 'A' && (s.len() > 0 ==> !text::is_space(s.last())),
        CellView::I16(v) => element == 'I' && all_held(true, 2, v),
        CellView::I32(v) => element == 'J' && all_held(true, 4, v),
        CellView::I64(v) => element == 'K' && all_held(true, 8, v),
        CellView::F32(v) => element == 'E' && all_held(false, 4, v),
        CellView::F64(v) => element == 'D' && all_held(false, 8, v),
        _ => false,
    }
}

/// How many elements an array has. Those of a text are its bytes.
pub open spec fn array_count(value: CellView) -> nat {
    match value {
        CellView::Logical(v) => v.len(),
        CellView::Bytes(v) => v.len(),
        CellView::Text(s) => text::bytes_of(s).len(),
        CellView::I16(v) => v.len(),
        CellView::I32(v) => v.len(),
        CellView::I64(v) => v.len(),
        CellView::F32(v) => v.len(),
        CellView::F64(v) => v.len(),
        CellView::ComplexF32(v) => v.len(),
        CellView::ComplexF64(v) => v.len(),
        CellView::Bits(_, n) => n,
    }
}

/// The bytes that an array is written as: `T` or `F` for a truth value, bytes and text as they
/// are, and the big-endian words of numbers and of the bit patterns of floating-point numbers.
pub open spec fn array_bytes(value: CellView) -> Seq<u8> {
    match value {
        CellView::Logical(v) => truth_bytes(v),
        CellView::Bytes(v) => v,
        CellView::Text(s) => text::bytes_of(s),
        CellView::I16(v) => words::words_encoded(true, 2, v),
        CellView::I32(v) => words::words_encoded(true, 4, v),
        CellView::I64(v) => words::words_encoded(true, 8, v),
        CellView::F32(v) => words::words_encoded(false, 4, v),
        CellView::F64(v) => words::words_encoded(false, 8, v),
        CellView::ComplexF32(v) => words::words_encoded(false, 4, flat(v)),
        CellView::ComplexF64(v) => words::words_encoded(false, 8, flat(v)),
        CellView::Bits(v, _) => v,
    }
}

/// The elements of a variable-length array are read back from the bytes that they are written
/// as, each type as itself.
pub proof fn array_round_trip(element: char, value: CellView)
    requires
        array_holds(element, value),
    ensures
        bintable::array_value(element, array_bytes(value)) == Ok::<CellView, ErrorView>(value),
        bintable::element_size(element) is Some,
        array_bytes(value).len() == array_count(value) * bintable::element_size(element)->0,
{
    match value {
        CellView::Logical(v) => {
            assert(bintable::truths(truth_bytes(v)) =~= v);
        },
        CellView::I16(v) => lemma_words_cell(true, 2, v),
        CellView::I32(v) => lemma_words_cell(true, 4, v),
        CellView::I64(v) => lemma_words_cell(true, 8, v),
        CellView::F32(v) => lemma_words_cell(false, 4, v),
        CellView::F64(v) => lemma_words_cell(false, 8, v),
        CellView::Text(s) => {
            encode_utf8_valid_utf8(s);
            encode_utf8_decode_utf8(s);
        },
        _ => {},
    }
}

/// The descriptor of an array: how many elements it has and where in the heap it starts, each
/// a big-endian number of `w` bytes.
pub open spec fn descriptor(count: nat, offset: nat, w: nat) -> Seq<u8> {
    bigendian::be_digits(count, w) + bigendian::be_digits(offset, w)
}

proof fn lemma_descriptor(count: nat, offset: nat, w: nat)
    requires
        w == 4 || w == 8,
        count <= if w == 4 {
            i32::MAX as int
        } else {
            i64::MAX as int
        },
        offset <= if w == 4 {
            i32::MAX as int
        } else {
            i64::MAX as int
        },
    ensures
        descriptor(count, offset, w).len() == 2 * w,
        bigendian::be_signed(descriptor(count, offset, w).subrange(0, w as int)) == count,
        bigendian::be_signed(descriptor(count, offset, w).subrange(w as int, 2 * w as int))
            == offset,
{
    let a = bigendian::be_digits(count, w);
    let b = bigendian::be_digits(offset, w);
    bigendian::lemma_byte_powers();
    bigendian::lemma_be_digits_len(count, w);
    bigendian::lemma_be_digits_len(offset, w);
    bigendian::be_signed_round_trip(count as int, w);
    bigendian::be_signed_round_trip(offset as int, w);
    if w == 4 {
        vstd::arithmetic::div_mod::lemma_small_mod(count, 0x1_0000_0000);
        vstd::arithmetic::div_mod::lemma_small_mod(offset, 0x1_0000_0000);
    } else {
        vstd::arithmetic::div_mod::lemma_small_mod(count, 0x1_0000_0000_0000_0000);
        vstd::arithmetic::div_mod::lemma_small_mod(offset, 0x1_0000_0000_0000_0000);
    }
    assert((a + b).subrange(0, w as int) =~= a);
    assert((a + b).subrange(w as int, 2 * w as int) =~= b);
}

/// A variable-length array is read back as the values that were written: from wherever in the
/// heap its bytes lie, by a descriptor of two 32-bit numbers (`P`) or of two 64-bit numbers
/// (`Q`).
pub proof fn array_cell_round_trip(
    before: Seq<u8>,
    after: Seq<u8>,
    element: char,
    value: CellView,
)
    requires
        array_holds(element, value),
        before.len() + array_bytes(value).len() <= usize::MAX,
    ensures
        array_count(value) <= i32::MAX && before.len() <= i32::MAX ==> bintable::cell_value(
            before + array_bytes(value) + after,
            BinColumnType::VarP(element),
            descriptor(array_count(value), before.len(), 4),
        ) == Ok::<CellView, ErrorView>(value),
        array_count(value) <= i64::MAX && before.len() <= i64::MAX ==> bintable::cell_value(
            before + array_bytes(value) + after,
            BinColumnType::VarQ(element),
            descriptor(array_count(value), before.len(), 8),
        ) == Ok::<CellView, ErrorView>(value),
{
    let bytes = array_bytes(value);
    let heap = before + bytes + after;
    let count = array_count(value);
    let at = before.len() as int;
    array_round_trip(element, value);
    assert(heap.subrange(at, at + bytes.len()) =~= bytes);
    if count == 0 {
        assert(bytes =~= Seq::<u8>::empty());
    }
    assert(count <= bytes.len()) by (nonlinear_arith)
        requires
            bytes.len() == count * bintable::element_size(element)->0,
            bintable::element_size(element)->0 >= 1,
    ;
    if count <= i32::MAX && at <= i32::MAX {
        lemma_descriptor(count, before.len(), 4);
    }
    if count <= i64::MAX && at <= i64::MAX {
        lemma_descriptor(count, before.len(), 8);
    }
}

/// An array that was written to the heap, and its descriptor to a pushed row, is the one that
/// is read from the row.
pub proof fn pushed_array_read_back(
    t: BinTableView,
    data: Seq<u8>,
    after: Seq<u8>,
    element: char,
    value: CellView,
    col: usize,
)
    requires
        t.nrows < usize::MAX,
        t.main_data.len() == t.nrows * t.row_len,
        col < t.columns.len(),
        t.columns[col as int].format == BinColumnType::VarP(element),
        bintable::column_offset(t.columns, col as int) + 8 <= t.row_len,
        array_holds(element, value),
        array_count(value) <= i32::MAX,
        t.heap.len() <= i32::MAX,
        t.heap.len() + array_bytes(value).len() <= usize::MAX,
        bintable::row_bytes(data, t.row_len as nat).subrange(
            bintable::column_offset(t.columns, col as int) as int,
            bintable::column_offset(t.columns, col as int) as int + 8,
        ) == descriptor(array_count(value), t.heap.len(), 4),
    ensures
        bintable::table_cell(
            bintable::with_row(t, data, t.heap + array_bytes(value) + after),
            t.nrows,
            col,
        ) == Ok::<CellView, ErrorView>(value),
{
    bintable::pushed_row_cells(t, data, t.heap + array_bytes(value) + after, col);
    array_cell_round_trip(t.heap, after, element, value);
}

/// An array that does not lie in the heap as a whole is refused, and the refusal says how long
/// the heap would have to be; one that does is not.
pub proof fn arrays_beyond_heap(heap: Seq<u8>, element: char, count: usize, offset: usize, w: int)
    requires
        count > 0,
        w == 1 && (element == 'L' || element == 'B') || w == 2 && element == 'I' || w == 4 && (
        element == 'J' || element == 'E') || w == 8 && (element == 'K' || element == 'D'),
        offset + count * w <= usize::MAX,
    ensures
        bintable::heap_array(heap, element, count, offset) is Ok <==> offset + count * w
            <= heap.len(),
        bintable::heap_array(heap, element, count, offset) matches Err(e) ==> e
            == (ErrorView::DataSizeMismatch {
            expected: offset + count * w,
            actual: heap.len() as int,
        }),
{
}

} // verus!
