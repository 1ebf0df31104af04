//! What reading gives back of the texts that are laid out in an ASCII table.
use crate::ascii_table;
use crate::ascii_table::{AsciiColumnView, AsciiFormat, AsciiTableView};
use crate::card_reading;
use crate::error::ErrorView;
use crate::number;
use crate::text;
use vstd::prelude::*;
use vstd::utf8::*;

verus! {

/// Whether a TFORM value names a width: `Aw`, `Iw`, `Fw.d`, `Ew.d` or `Dw.d`.
pub open spec fn names_width(tform: Seq<char>, w: usize) -> bool {
    let n = text::decimal(w as int);
    ||| tform == "A"@ + n
    ||| tform == "I"@ + n
    ||| exists|d: usize| #[trigger]
        with_decimals(tform, "F"@ + n, d) || with_decimals(tform, "E"@ + n, d) || with_decimals(
            tform,
            "D"@ + n,
            d,
        )
}

/// Whether a TFORM value is a letter and a width, and behind a point a number of decimals.
pub open spec fn with_decimals(tform: Seq<char>, front: Seq<char>, d: usize) -> bool {
    tform == front + "."@ + text::decimal(d as int)
}

/// A TFORM value gives a format of its letter, its width and its decimals, and a value of
/// that format takes as many characters as the width says.
pub proof fn format_of_letters(w: usize, d: usize)
    ensures
        ascii_table::ascii_format_of("A"@ + text::decimal(w as int)) == Some(AsciiFormat::Aw(w)),
        ascii_table::ascii_format_of("I"@ + text::decimal(w as int)) == Some(AsciiFormat::Iw(w)),
        ascii_table::ascii_format_of(
            "F"@ + text::decimal(w as int) + "."@ + text::decimal(d as int),
        ) == Some(AsciiFormat::Fwd(w, d)),
        ascii_table::ascii_format_of(
            "E"@ + text::decimal(w as int) + "."@ + text::decimal(d as int),
        ) == Some(AsciiFormat::Ewd(w, d)),
        ascii_table::ascii_format_of(
            "D"@ + text::decimal(w as int) + "."@ + text::decimal(d as int),
        ) == Some(AsciiFormat::Dwd(w, d)),
        AsciiFormat::Aw(w).columns() == w,
        AsciiFormat::Iw(w).columns() == w,
        AsciiFormat::Fwd(w, d).columns() == w,
        AsciiFormat::Ewd(w, d).columns() == w,
        AsciiFormat::Dwd(w, d).columns() == w,
{
    ascii_table::ascii_tform_round_trip(AsciiFormat::Aw(w));
    ascii_table::ascii_tform_round_trip(AsciiFormat::Iw(w));
    ascii_table::ascii_tform_round_trip(AsciiFormat::Fwd(w, d));
    ascii_table::ascii_tform_round_trip(AsciiFormat::Ewd(w, d));
    ascii_table::ascii_tform_round_trip(AsciiFormat::Dwd(w, d));
}

/// A format takes the width that its TFORM value names.
pub proof fn width_is_named(f: AsciiFormat, w: usize)
    requires
        names_width(f.tform(), w),
    ensures
        f.columns() == w,
{
    let tform = f.tform();
    let n = text::decimal(w as int);
    ascii_table::ascii_tform_round_trip(f);
    format_of_letters(w, 0);
    if tform != "A"@ + n && tform != "I"@ + n {
        let d = choose|d: usize| #[trigger]
            with_decimals(tform, "F"@ + n, d) || with_decimals(tform, "E"@ + n, d) || with_decimals(
                tform,
                "D"@ + n,
                d,
            );
        format_of_letters(w, d);
    }
}

/// A cell is read from exactly the characters that its TFORM value names: the text whose bytes
/// stand there, from the column that TBCOL counts on, is the one that is read.
pub proof fn cell_in_place(t: AsciiTableView, row: usize, col: usize, w: usize, s: Seq<char>)
    requires
        row < t.nrows,
        col < t.columns.len(),
        t.columns[col as int].tbcol >= 1,
        names_width(t.columns[col as int].format.tform(), w),
        text::bytes_of(s).len() == w,
        row * t.row_len + t.columns[col as int].tbcol - 1 + w <= t.raw_data.len(),
        forall|k: int|
            0 <= k < w ==> #[trigger] text::bytes_of(s)[k] == t.raw_data[row * t.row_len
                + t.columns[col as int].tbcol - 1 + k],
    ensures
        ascii_table::cell_text(t, row, col) == Ok::<Seq<char>, ErrorView>(s),
{
    let c = t.columns[col as int];
    width_is_named(c.format, w);
    let at = row * t.row_len + c.tbcol - 1;
    assert(0 <= row * t.row_len) by (nonlinear_arith)
        requires
            row >= 0,
            t.row_len >= 0,
    ;
    assert(t.raw_data.subrange(at, at + w) =~= text::bytes_of(s));
    encode_utf8_valid_utf8(s);
    encode_utf8_decode_utf8(s);
}

/// The bytes of texts, one behind the other.
pub open spec fn line(texts: Seq<Seq<char>>) -> Seq<u8>
    decreases texts.len(),
{
    if texts.len() == 0 {
        Seq::empty()
    } else {
        line(texts.drop_last()) + text::bytes_of(texts.last())
    }
}

/// The lines of a table, one behind the other.
pub open spec fn lines(rows: Seq<Seq<Seq<char>>>) -> Seq<u8>
    decreases rows.len(),
{
    if rows.len() == 0 {
        Seq::empty()
    } else {
        lines(rows.drop_last()) + line(rows.last())
    }
}

/// The bytes before column `col` where columns of named widths stand side by side.
pub open spec fn width_before(widths: Seq<usize>, col: int) -> int
    decreases col,
{
    if col <= 0 {
        0
    } else {
        width_before(widths, col - 1) + widths[col - 1]
    }
}

/// Whether columns of named widths stand side by side, the first at the start of a line.
pub open spec fn side_by_side(columns: Seq<AsciiColumnView>, widths: Seq<usize>) -> bool {
    &&& widths.len() == columns.len()
    &&& forall|c: int|
        0 <= c < columns.len() ==> names_width((#[trigger] columns[c]).format.tform(), widths[c])
            && columns[c].tbcol == width_before(widths, c) + 1
}

/// Whether texts take the widths of their columns.
pub open spec fn fill(widths: Seq<usize>, texts: Seq<Seq<char>>) -> bool {
    &&& texts.len() == widths.len()
    &&& forall|c: int|
        0 <= c < texts.len() ==> text::bytes_of(#[trigger] texts[c]).len() == widths[c]
}

proof fn lemma_line(widths: Seq<usize>, texts: Seq<Seq<char>>, n: int, col: int)
    requires
        0 <= n <= texts.len(),
        fill(widths, texts),
    ensures
        line(texts.take(n)).len() == width_before(widths, n),
        0 <= col < n ==> width_before(widths, col) >= 0 && width_before(widths, col)
            + widths[col] <= line(texts.take(n)).len() && line(texts.take(n)).subrange(
            width_before(widths, col),
            width_before(widths, col) + widths[col],
        ) == text::bytes_of(texts[col]),
    decreases n,
{
    if n == 0 {
        assert(texts.take(0) =~= Seq::empty());
    } else {
        let now = texts.take(n);
        assert(now.drop_last() =~= texts.take(n - 1));
        assert(now.last() == texts[n - 1]);
        assert(text::bytes_of(texts[n - 1]).len() == widths[n - 1]);
        lemma_line(widths, texts, n - 1, col);
        let a = width_before(widths, col);
        if 0 <= col < n - 1 {
            assert(line(now).subrange(a, a + widths[col]) =~= line(texts.take(n - 1)).subrange(
                a,
                a + widths[col],
            ));
        } else if col == n - 1 {
            assert(line(now).subrange(a, a + widths[col]) =~= text::bytes_of(texts[col]));
        }
    }
}

proof fn lemma_lines(rows: Seq<Seq<Seq<char>>>, len: nat, row: int)
    requires
        0 <= row < rows.len(),
        forall|r: int| 0 <= r < rows.len() ==> line(#[trigger] rows[r]).len() == len,
    ensures
        lines(rows).len() == rows.len() * len,
        0 <= row * len,
        row * len + len <= lines(rows).len(),
        lines(rows).subrange(row * len, row * len + len) == line(rows[row]),
    decreases rows.len(),
{
    let front = rows.drop_last();
    let n = front.len();
    assert forall|r: int| 0 <= r < front.len() implies line(#[trigger] front[r]).len() == len by {
        assert(front[r] == rows[r]);
    }
    assert(line(rows[n as int]).len() == len);
    assert((n + 1) * len == n * len + len) by (nonlinear_arith);
    if n > 0 {
        lemma_lines(
            front,
            len,
            if row < n {
                row
            } else {
                0
            },
        );
    } else {
        assert(front =~= Seq::empty());
        assert(lines(front).len() == 0);
        assert(n * len == 0) by (nonlinear_arith)
            requires
                n == 0,
        ;
    }
    assert(0 <= row * len && row * len + len <= (n + 1) * len) by (nonlinear_arith)
        requires
            0 <= row < n + 1,
            len >= 0,
    ;
    if row < n {
        assert(row * len + len <= n * len) by (nonlinear_arith)
            requires
                row + 1 <= n,
                len >= 0,
        ;
        assert(lines(rows).subrange(row * len, row * len + len) =~= lines(front).subrange(
            row * len,
            row * len + len,
        ));
    } else {
        assert(lines(rows).subrange(row * len, row * len + len) =~= line(rows[row]));
    }
}

/// A table that is laid out from texts gives each of them back: columns that stand side by
/// side, each as wide as its TFORM value says, line by line.
pub proof fn laid_out_cells(
    t: AsciiTableView,
    widths: Seq<usize>,
    rows: Seq<Seq<Seq<char>>>,
    row: usize,
    col: usize,
)
    requires
        t.nrows == rows.len(),
        side_by_side(t.columns, widths),
        t.row_len == width_before(widths, widths.len() as int),
        forall|r: int| 0 <= r < rows.len() ==> fill(widths, #[trigger] rows[r]),
        t.raw_data == lines(rows),
        row < t.nrows,
        col < t.columns.len(),
    ensures
        ascii_table::cell_text(t, row, col) == Ok::<Seq<char>, ErrorView>(
            rows[row as int][col as int],
        ),
{
    let n = widths.len() as int;
    let len = t.row_len as nat;
    assert forall|r: int| 0 <= r < rows.len() implies line(#[trigger] rows[r]).len() == len by {
        assert(fill(widths, rows[r]));
        lemma_line(widths, rows[r], n, 0);
        assert(rows[r].take(n) =~= rows[r]);
    }
    lemma_lines(rows, len, row as int);
    let texts = rows[row as int];
    assert(fill(widths, texts));
    lemma_line(widths, texts, n, col as int);
    assert(texts.take(n) =~= texts);
    let s = texts[col as int];
    let w = widths[col as int];
    let a = width_before(widths, col as int);
    let base = row * len;
    assert(names_width(t.columns[col as int].format.tform(), w));
    assert forall|k: int| 0 <= k < w implies #[trigger] text::bytes_of(s)[k] == t.raw_data[row
        * t.row_len + t.columns[col as int].tbcol - 1 + k] by {
        assert(line(texts).subrange(a, a + w)[k] == line(texts)[a + k]);
        assert(lines(rows).subrange(base, base + len)[a + k] == lines(rows)[base + a + k]);
    }
    cell_in_place(t, row, col, w, s);
}

/// An integer in a cell, with blanks around it, is read as itself.
pub proof fn integer_cell(i: i64, before: nat, after: nat)
    ensures
        ascii_table::cell_integer(
            card_reading::spaces(before) + text::decimal(i as int) + card_reading::spaces(after),
        ) == Some(i as int),
{
    let s = text::decimal(i as int);
    text::decimal_round_trip(i as int);
    assert(!text::is_space(s[0]));
    card_reading::lemma_trim_between(before, s, after);
}

/// A text in a cell is read without the blanks behind it, and with those before it.
pub proof fn string_cell(s: Seq<char>, after: nat)
    requires
        s.len() > 0 ==> !text::is_space(s.last()),
    ensures
        ascii_table::cell_string(s + card_reading::spaces(after)) == s,
{
    card_reading::lemma_trim_end_spaces(s, after);
}

/// The text of a number in exponential form.
pub open spec fn exponential(
    negative: bool,
    whole: Seq<char>,
    fraction: Seq<char>,
    letter: char,
    exponent: int,
) -> Seq<char> {
    (if negative {
        seq!['-']
    } else {
        Seq::empty()
    }) + whole + seq!['.'] + fraction + seq![letter] + text::decimal(exponent)
}

/// A number in a cell, with blanks around it, is read as itself; the exponent letter `D` of
/// Fortran counts as `E`.
pub proof fn number_cell(
    negative: bool,
    whole: Seq<char>,
    fraction: Seq<char>,
    letter: char,
    exponent: int,
    before: nat,
    after: nat,
)
    requires
        text::all_digits(whole),
        text::all_digits(fraction),
        letter == 'D' || letter == 'E' || letter == 'd' || letter == 'e',
    ensures
        ascii_table::cell_number(
            card_reading::spaces(before) + exponential(
                negative,
                whole,
                fraction,
                letter,
                exponent,
            ) + card_reading::spaces(after),
        ) == Some(
            exponential(
                negative,
                whole,
                fraction,
                if letter == 'D' || letter == 'E' {
                    'E'
                } else {
                    'e'
                },
                exponent,
            ),
        ),
{
    let s = exponential(negative, whole, fraction, letter, exponent);
    let shown = if letter == 'D' || letter == 'E' {
        'E'
    } else {
        'e'
    };
    let t = exponential(negative, whole, fraction, shown, exponent);
    let d = text::decimal(exponent);
    text::decimal_round_trip(exponent);
    let m = whole.len() as int + (if negative {
        1int
    } else {
        0
    });
    assert forall|k: int| 0 <= k < s.len() implies !text::is_space(#[trigger] s[k]) && (k != m + 1
        + fraction.len() ==> s[k] != 'D' && s[k] != 'd' && s[k] == t[k]) by {
        if negative && k == 0 {
            assert(s[k] == '-');
        } else if k < m {
            assert(s[k] == whole[k - (m - whole.len())]);
            assert(text::is_digit(whole[k - (m - whole.len())]));
        } else if k == m {
            assert(s[k] == '.');
        } else if k < m + 1 + fraction.len() {
            assert(s[k] == fraction[k - m - 1]);
            assert(text::is_digit(fraction[k - m - 1]));
        } else if k == m + 1 + fraction.len() {
            assert(s[k] == letter);
        } else {
            let q = k - m - 2 - fraction.len();
            assert(s[k] == d[q]);
            lemma_decimal_chars(exponent, q);
        }
    }
    assert(s.len() == t.len());
    assert(s[m + 1 + fraction.len()] == letter);
    assert(t[m + 1 + fraction.len()] == shown);
    assert(!text::is_space(s[0]) && !text::is_space(s[s.len() - 1]));
    card_reading::lemma_trim_between(before, s, after);
    assert(number::exponent_e(s) =~= t);
    lemma_exponential(negative, whole, fraction, shown, exponent);
}

proof fn lemma_decimal_chars(n: int, k: int)
    requires
        0 <= k < text::decimal(n).len(),
    ensures
        text::is_digit(text::decimal(n)[k]) || k == 0 && n < 0 && text::decimal(n)[k] == '-',
{
    if n < 0 {
        text::lemma_decimal_nat((-n) as nat);
        if k > 0 {
            assert(text::is_digit(text::decimal_nat((-n) as nat)[k - 1]));
        }
    } else {
        text::lemma_decimal_nat(n as nat);
        assert(text::is_digit(text::decimal_nat(n as nat)[k]));
    }
}

/// A number in exponential form is a number.
proof fn lemma_exponential(
    negative: bool,
    whole: Seq<char>,
    fraction: Seq<char>,
    letter: char,
    exponent: int,
)
    requires
        text::all_digits(whole),
        text::all_digits(fraction),
        letter == 'E' || letter == 'e',
    ensures
        number::is_float(exponential(negative, whole, fraction, letter, exponent)),
{
    let t = exponential(negative, whole, fraction, letter, exponent);
    let u = exponential(false, whole, fraction, letter, exponent);
    let d = text::decimal(exponent);
    assert(u[0] == whole[0]);
    assert(text::is_digit(whole[0]));
    if negative {
        assert(t[0] == '-');
        assert(t.skip(1) =~= u);
    } else {
        assert(t =~= u);
    }
    assert(number::unsigned_part(t) == u);
    let mant = whole + seq!['.'] + fraction;
    let k = mant.len() as int;
    number::lemma_first_of(u, 'e', 'E');
    let e = number::first_of(u, 'e', 'E');
    assert(u[k] == letter);
    assert forall|i: int| 0 <= i < k implies #[trigger] u[i] != 'e' && u[i] != 'E' by {
        assert(u[i] == mant[i]);
        if i < whole.len() {
            assert(text::is_digit(whole[i]));
        } else if i > whole.len() {
            assert(text::is_digit(fraction[i - whole.len() - 1]));
        }
    }
    assert(e == k);
    assert(u.take(k) =~= mant);
    assert(u.skip(k + 1) =~= d);
    number::lemma_first_of(mant, '.', '.');
    let p = number::first_of(mant, '.', '.');
    assert(mant[whole.len() as int] == '.');
    assert(p == whole.len()) by {
        if p < whole.len() {
            assert(mant[p] == whole[p]);
            assert(text::is_digit(whole[p]));
        }
    }
    assert(mant.take(p) =~= whole);
    assert(mant.skip(p + 1) =~= fraction);
    assert(number::is_mantissa(mant));
    if exponent < 0 {
        text::lemma_decimal_nat((-exponent) as nat);
        assert(d[0] == '-');
        assert(d.skip(1) =~= text::decimal_nat((-exponent) as nat));
    } else {
        text::lemma_decimal_nat(exponent as nat);
        assert(text::is_digit(d[0]));
    }
}

} // verus!
