//! ASCII tables: column formats and the text of cells.
use crate::bintable;
use crate::casts;
use crate::error::{Error, ErrorView, Result};
use crate::header;
use crate::header::Header;
use crate::image_data;
use crate::keyword;
use crate::keyword::{HeaderValue, KeywordView};
use crate::number;
use crate::number::Real;
use crate::text;
use vstd::prelude::*;

verus! {

/// ASCII table column format types.
#[derive(Debug, Clone, Copy, PartialEq, Eq)]
pub enum AsciiFormat {
    /// Character string of width w
    Aw(usize),
    /// Integer of width w
    Iw(usize),
    /// Fixed-point float of width w with d decimal places
    Fwd(usize, usize),
    /// Exponential float of width w with d decimal places
    Ewd(usize, usize),
    /// Double exponential of width w with d decimal places
    Dwd(usize, usize),
}

/// A width and a number of decimals with a point between them.
pub open spec fn width_decimals(s: Seq<char>) -> Option<(usize, usize)> {
    let dot = number::first_of(s, '.', '.');
    let w = text::size_value(s.take(dot));
    let d = text::size_value(s.skip(dot + 1));
    if dot >= s.len() || w is None || d is None {
        None
    } else {
        Some((w->0, d->0))
    }
}

/// The column format that a TFORM value spells.
pub open spec fn ascii_format_of(s: Seq<char>) -> Option<AsciiFormat> {
    let t = text::trim(s);
    if t.len() == 0 {
        None
    } else {
        let rest = t.skip(1);
        match t[0] {
            'A' => match text::size_value(rest) {
                Some(w) => Some(AsciiFormat::Aw(w)),
                None => None,
            },
            'I' => match text::size_value(rest) {
                Some(w) => Some(AsciiFormat::Iw(w)),
                None => None,
            },
            'F' => match width_decimals(rest) {
                Some((w, d)) => Some(AsciiFormat::Fwd(w, d)),
                None => None,
            },
            'E' => match width_decimals(rest) {
                Some((w, d)) => Some(AsciiFormat::Ewd(w, d)),
                None => None,
            },
            'D' => match width_decimals(rest) {
                Some((w, d)) => Some(AsciiFormat::Dwd(w, d)),
                None => None,
            },
            _ => None,
        }
    }
}

/// Why a text is not a width and a number of decimals; `t` is the whole TFORM value.
pub open spec fn width_fault(s: Seq<char>, t: Seq<char>) -> Seq<char> {
    let dot = number::first_of(s, '.', '.');
    if dot >= s.len() || number::first_of(s.skip(dot + 1), '.', '.') < s.len() - dot - 1 {
        "expected w.d format: "@ + t
    } else if text::size_value(s.take(dot)) is None {
        "invalid width: "@ + t
    } else {
        "invalid decimals: "@ + t
    }
}

/// Why a TFORM value spells no column format.
pub open spec fn ascii_format_fault(s: Seq<char>) -> ErrorView {
    let t = text::trim(s);
    ErrorView::InvalidTableFormat(
        if t.len() == 0 {
            "empty TFORM"@
        } else if t[0] == 'A' {
            "invalid Aw format: "@ + t
        } else if t[0] == 'I' {
            "invalid Iw format: "@ + t
        } else if t[0] == 'F' || t[0] == 'E' || t[0] == 'D' {
            width_fault(t.skip(1), t)
        } else {
            "unknown ASCII TFORM code: "@ + t
        },
    )
}

/// Why a TFORM value that is not empty spells no column format.
fn format_error(t: &[char]) -> (r: Error)
    requires
        t@.len() > 0,
        text::trim(t@) == t@,
    ensures
        r@ == ascii_format_fault(t@),
{
    let rest = text::tail(t, 1);
    match t[0] {
        'A' => bintable::fault_with("invalid Aw format: ", t),
        'I' => bintable::fault_with("invalid Iw format: ", t),
        'F' | 'E' | 'D' => {
            let dot: usize = number::find_first(rest, '.', '.');
            if dot >= rest.len() {
                return bintable::fault_with("expected w.d format: ", t);
            }
            let second = text::tail(rest, dot + 1);
            if number::find_first(second, '.', '.') < second.len() {
                bintable::fault_with("expected w.d format: ", t)
            } else if text::parse_usize(text::head(rest, dot)).is_none() {
                bintable::fault_with("invalid width: ", t)
            } else {
                bintable::fault_with("invalid decimals: ", t)
            }
        },
        _ => bintable::fault_with("unknown ASCII TFORM code: ", t),
    }
}

/// Trimmed text is its own trimmed text.
proof fn lemma_trim_twice(s: Seq<char>)
    ensures
        text::trim(text::trim(s)) == text::trim(s),
{
    text::lemma_trim_ends(s);
    text::lemma_trim_same(text::trim(s));
}

fn parse_wd(rest: &[char]) -> (r: Option<(usize, usize)>)
    ensures
        r == width_decimals(rest@),
{
    let dot: usize = number::find_first(rest, '.', '.');
    if dot >= rest.len() {
        return None;
    }
    let w: usize = match text::parse_usize(text::head(rest, dot)) {
        Some(w) => w,
        None => return None,
    };
    match text::parse_usize(text::tail(rest, dot + 1)) {
        Some(d) => Some((w, d)),
        None => None,
    }
}

impl AsciiFormat {
    /// Characters that a value takes.
    pub open spec fn columns(self) -> usize {
        match self {
            AsciiFormat::Aw(w) => w,
            AsciiFormat::Iw(w) => w,
            AsciiFormat::Fwd(w, _) => w,
            AsciiFormat::Ewd(w, _) => w,
            AsciiFormat::Dwd(w, _) => w,
        }
    }

    /// The TFORM value of a column format.
    pub open spec fn tform(self) -> Seq<char> {
        match self {
            AsciiFormat::Aw(w) => "A"@ + text::decimal(w as int),
            AsciiFormat::Iw(w) => "I"@ + text::decimal(w as int),
            AsciiFormat::Fwd(w, d) => "F"@ + text::decimal(w as int) + "."@ + text::decimal(
                d as int,
            ),
            AsciiFormat::Ewd(w, d) => "E"@ + text::decimal(w as int) + "."@ + text::decimal(
                d as int,
            ),
            AsciiFormat::Dwd(w, d) => "D"@ + text::decimal(w as int) + "."@ + text::decimal(
                d as int,
            ),
        }
    }

    pub fn parse(s: &str) -> (r: Result<Self>)
        ensures
            match r {
                Ok(f) => ascii_format_of(s@) == Some(f),
                Err(e) => e@ == ascii_format_fault(s@) && ascii_format_of(s@) is None,
            },
    {
        let chars: Vec<char> = text::char_vec(s);
        let t = text::trimmed(chars.as_slice());
        if t.len() == 0 {
            return Err(Error::InvalidTableFormat("empty TFORM".to_owned()));
        }
        let rest = text::tail(t, 1);
        let format: Option<AsciiFormat> = match t[0] {
            'A' => match text::parse_usize(rest) {
                Some(w) => Some(AsciiFormat::Aw(w)),
                None => None,
            },
            'I' => match text::parse_usize(rest) {
                Some(w) => Some(AsciiFormat::Iw(w)),
                None => None,
            },
            'F' => match parse_wd(rest) {
                Some((w, d)) => Some(AsciiFormat::Fwd(w, d)),
                None => None,
            },
            'E' => match parse_wd(rest) {
                Some((w, d)) => Some(AsciiFormat::Ewd(w, d)),
                None => None,
            },
            'D' => match parse_wd(rest) {
                Some((w, d)) => Some(AsciiFormat::Dwd(w, d)),
                None => None,
            },
            _ => None,
        };
        match format {
            Some(f) => Ok(f),
            None => {
                proof {
                    lemma_trim_twice(s@);
                }
                Err(format_error(t))
            },
        }
    }

    pub fn width(&self) -> (r: usize)
        ensures
            r == self.columns(),
    {
        match self {
            AsciiFormat::Aw(w) | AsciiFormat::Iw(w) => *w,
            AsciiFormat::Fwd(w, _) | AsciiFormat::Ewd(w, _) | AsciiFormat::Dwd(w, _) => *w,
        }
    }

    /// Format string for writing TFORM.
    pub fn to_tform_string(&self) -> (r: String)
        ensures
            r@ == self.tform(),
    {
        match self {
            AsciiFormat::Aw(w) => text::numbered("A", *w),
            AsciiFormat::Iw(w) => text::numbered("I", *w),
            AsciiFormat::Fwd(w, d) => with_decimals(text::numbered("F", *w), *d),
            AsciiFormat::Ewd(w, d) => with_decimals(text::numbered("E", *w), *d),
            AsciiFormat::Dwd(w, d) => with_decimals(text::numbered("D", *w), *d),
        }
    }
}

/// The error for a cell whose text cannot be parsed.
fn unparsed(message: &str, t: &[char]) -> (r: Error)
    ensures
        r@ == ErrorView::InvalidTableFormat(message@ + t@ + "'"@),
{
    Error::InvalidTableFormat(
        message.to_owned().concat(text::string_from(t).as_str()).concat("'"),
    )
}

fn with_decimals(s: String, d: usize) -> (r: String)
    ensures
        r@ == s@ + "."@ + text::decimal(d as int),
{
    let point: String = s.concat(".");
    text::numbered(point.as_str(), d)
}

proof fn lemma_width_decimals(w: usize, d: usize)
    ensures
        width_decimals(text::decimal(w as int) + "."@ + text::decimal(d as int)) == Some((w, d)),
{
    reveal_strlit(".");
    let a = text::decimal(w as int);
    let b = text::decimal(d as int);
    let s = a + "."@ + b;
    text::decimal_round_trip(w as int);
    text::decimal_round_trip(d as int);
    text::lemma_decimal_nat(w as nat);
    text::lemma_decimal_nat(d as nat);
    let dot = number::first_of(s, '.', '.');
    number::lemma_first_of(s, '.', '.');
    assert(s[a.len() as int] == '.');
    assert(dot == a.len()) by {
        if dot < a.len() {
            assert(s[dot] == a[dot]);
            assert(text::is_digit(a[dot]));
        }
    }
    assert(s.take(dot) =~= a);
    assert(s.skip(dot + 1) =~= b);
}

proof fn lemma_trim_format(c: char, body: Seq<char>)
    requires
        'A' <= c <= 'Z',
        body.len() > 0,
        !text::is_space(body.last()),
    ensures
        text::trim(seq![c] + body) == seq![c] + body,
        (seq![c] + body).skip(1) == body,
{
    text::lemma_trim_same(seq![c] + body);
    assert((seq![c] + body).skip(1) =~= body);
}

/// Parsing the TFORM value of a column format gives that format.
pub proof fn ascii_tform_round_trip(f: AsciiFormat)
    ensures
        ascii_format_of(f.tform()) == Some(f),
{
    reveal_strlit("A");
    reveal_strlit("I");
    reveal_strlit("F");
    reveal_strlit("E");
    reveal_strlit("D");
    reveal_strlit(".");
    let c = f.tform()[0];
    match f {
        AsciiFormat::Aw(w) | AsciiFormat::Iw(w) => {
            text::decimal_round_trip(w as int);
            text::lemma_decimal_nat(w as nat);
            let body = text::decimal(w as int);
            assert(text::is_digit(body[0]));
            lemma_trim_format(c, body);
            assert(f.tform() =~= seq![c] + body);
        },
        AsciiFormat::Fwd(w, d) | AsciiFormat::Ewd(w, d) | AsciiFormat::Dwd(w, d) => {
            text::decimal_round_trip(d as int);
            let body = text::decimal(w as int) + "."@ + text::decimal(d as int);
            assert(body.last() == text::decimal(d as int).last());
            lemma_width_decimals(w, d);
            lemma_trim_format(c, body);
            assert(f.tform() =~= seq![c] + body);
        },
    }
}

/// Column descriptor for an ASCII table. A scale or zero point is there where it is
/// not the default (scale one, zero point zero).
#[derive(Debug)]
pub struct AsciiColumn {
    pub name: String,
    pub format: AsciiFormat,
    pub tbcol: usize,  // 1-based start column
    pub tscal: Option<Real>,
    pub tzero: Option<Real>,
    pub tunit: Option<String>,
}

/// What a column stands for.
pub struct AsciiColumnView {
    pub name: Seq<char>,
    pub format: AsciiFormat,
    pub tbcol: usize,
    pub tscal: Option<Seq<char>>,
    pub tzero: Option<Seq<char>>,
    pub tunit: Option<Seq<char>>,
}

impl View for AsciiColumn {
    type V = AsciiColumnView;

    open spec fn view(&self) -> AsciiColumnView {
        AsciiColumnView {
            name: self.name@,
            format: self.format,
            tbcol: self.tbcol,
            tscal: bintable::real_of(self.tscal),
            tzero: bintable::real_of(self.tzero),
            tunit: keyword::text_of(self.tunit),
        }
    }
}

impl Clone for AsciiColumn {
    fn clone(&self) -> (r: Self)
        ensures
            r@ == self@,
    {
        AsciiColumn {
            name: self.name.clone(),
            format: self.format,
            tbcol: self.tbcol,
            tscal: bintable::real_clone(&self.tscal),
            tzero: bintable::real_clone(&self.tzero),
            tunit: bintable::text_clone(&self.tunit),
        }
    }
}

/// What columns stand for.
pub open spec fn column_views(columns: Seq<AsciiColumn>) -> Seq<AsciiColumnView> {
    Seq::new(columns.len(), |i: int| columns[i]@)
}

/// An ASCII table extension.
#[derive(Debug)]
pub struct AsciiTable {
    pub columns: Vec<AsciiColumn>,
    pub nrows: usize,
    pub row_len: usize,  // NAXIS1
    pub raw_data: Vec<u8>,
}

/// What an ASCII table stands for.
pub struct AsciiTableView {
    pub columns: Seq<AsciiColumnView>,
    pub nrows: usize,
    pub row_len: usize,
    pub raw_data: Seq<u8>,
}

impl View for AsciiTable {
    type V = AsciiTableView;

    open spec fn view(&self) -> AsciiTableView {
        AsciiTableView {
            columns: column_views(self.columns@),
            nrows: self.nrows,
            row_len: self.row_len,
            raw_data: self.raw_data@,
        }
    }
}

fn clone_columns(columns: &[AsciiColumn]) -> (r: Vec<AsciiColumn>)
    ensures
        column_views(r@) == column_views(columns@),
{
    let mut out: Vec<AsciiColumn> = Vec::new();
    let mut i: usize = 0;
    while i < columns.len()
        invariant
            i <= columns@.len(),
            out@.len() == i,
            forall|j: int| 0 <= j < i ==> (#[trigger] out@[j])@ == columns@[j]@,
        decreases columns@.len() - i,
    {
        out.push(columns[i].clone());
        i += 1;
    }
    assert(column_views(out@) =~= column_views(columns@));
    out
}

impl Clone for AsciiTable {
    fn clone(&self) -> (r: Self)
        ensures
            r@ == self@,
    {
        let r = AsciiTable {
            columns: clone_columns(self.columns.as_slice()),
            nrows: self.nrows,
            row_len: self.row_len,
            raw_data: self.raw_data.clone(),
        };
        assert(r.raw_data@ =~= self.raw_data@);
        r
    }
}

/// Column `i` (from one) as a header describes it.
pub open spec fn column_of(h: Seq<KeywordView>, i: nat) -> std::result::Result<
    AsciiColumnView,
    ErrorView,
> {
    let n = text::decimal(i as int);
    match header::string_of(h, "TFORM"@ + n) {
        None => Err(ErrorView::MissingKeyword("TFORM"@ + n)),
        Some(form) => match ascii_format_of(form) {
            None => Err(ascii_format_fault(form)),
            Some(format) => match header::required_int(h, "TBCOL"@ + n) {
                Err(e) => Err(e),
                Ok(tbcol) => Ok(
                    AsciiColumnView {
                        name: match header::string_of(h, "TTYPE"@ + n) {
                            Some(name) => name,
                            None => Seq::empty(),
                        },
                        format,
                        tbcol: casts::size_of(tbcol),
                        tscal: number::unless_one(header::float_of(h, "TSCAL"@ + n)),
                        tzero: number::unless_zero(header::float_of(h, "TZERO"@ + n)),
                        tunit: header::string_of(h, "TUNIT"@ + n),
                    },
                ),
            },
        },
    }
}

/// The columns from `i` on.
pub open spec fn columns_from(h: Seq<KeywordView>, i: nat, tfields: nat) -> std::result::Result<
    Seq<AsciiColumnView>,
    ErrorView,
>
    decreases tfields + 1 - i,
{
    if i > tfields {
        Ok(Seq::empty())
    } else {
        match column_of(h, i) {
            Err(e) => Err(e),
            Ok(c) => match columns_from(h, i + 1, tfields) {
                Err(e) => Err(e),
                Ok(t) => Ok(seq![c] + t),
            },
        }
    }
}

/// The ASCII table that a header and raw data describe.
pub open spec fn table_of(h: Seq<KeywordView>, data: Seq<u8>) -> std::result::Result<
    AsciiTableView,
    ErrorView,
> {
    match (
        header::required_int(h, "NAXIS2"@),
        header::required_int(h, "NAXIS1"@),
        header::required_int(h, "TFIELDS"@),
    ) {
        (Err(e), _, _) => Err(e),
        (_, Err(e), _) => Err(e),
        (_, _, Err(e)) => Err(e),
        (Ok(naxis2), Ok(naxis1), Ok(tfields)) => match columns_from(
            h,
            1,
            casts::size_of(tfields) as nat,
        ) {
            Err(e) => Err(e),
            Ok(columns) => Ok(
                AsciiTableView {
                    columns,
                    nrows: casts::size_of(naxis2),
                    row_len: casts::size_of(naxis1),
                    raw_data: data,
                },
            ),
        },
    }
}

/// The text of a cell. Columns are counted from one.
pub open spec fn cell_text(t: AsciiTableView, row: usize, col: usize) -> std::result::Result<
    Seq<char>,
    ErrorView,
> {
    if row >= t.nrows || col >= t.columns.len() {
        Err(ErrorView::InvalidFormat("cell index out of bounds"@))
    } else if t.columns[col as int].tbcol == 0 {
        Err(ErrorView::InvalidFormat("columns are counted from one"@))
    } else {
        let c = t.columns[col as int];
        let start = row * t.row_len + c.tbcol - 1;
        let end = start + c.format.columns();
        if end > t.raw_data.len() {
            Err(
                ErrorView::DataSizeMismatch {
                    expected: image_data::capped(end),
                    actual: t.raw_data.len() as int,
                },
            )
        } else if vstd::utf8::valid_utf8(t.raw_data.subrange(start, end)) {
            Ok(vstd::utf8::decode_utf8(t.raw_data.subrange(start, end)))
        } else {
            Err(ErrorView::InvalidFormat("non-UTF8 table data"@))
        }
    }
}

/// The integer that the text of a cell spells, between blanks.
pub open spec fn cell_integer(s: Seq<char>) -> Option<int> {
    keyword::int64_of(text::trim(s))
}

/// The floating-point number that the text of a cell spells, between blanks. A Fortran D
/// exponent is taken as E.
pub open spec fn cell_number(s: Seq<char>) -> Option<Seq<char>> {
    let t = number::exponent_e(text::trim(s));
    if number::is_float(t) {
        Some(t)
    } else {
        None
    }
}

/// The text of a cell without the blanks behind it.
pub open spec fn cell_string(s: Seq<char>) -> Seq<char> {
    text::trim_end(s)
}

/// The list of keywords with those of column `i` (from one) set.
pub open spec fn with_column(h: Seq<KeywordView>, c: AsciiColumnView, i: int) -> Seq<KeywordView> {
    let n = text::decimal(i);
    let named = bintable::with_text(h, "TTYPE"@ + n, Some(c.name));
    let placed = bintable::with_int(named, "TBCOL"@ + n, (c.tbcol as i64) as int);
    let formed = bintable::with_text(placed, "TFORM"@ + n, Some(c.format.tform()));
    bintable::with_text(
        bintable::with_real(
            bintable::with_real(formed, "TSCAL"@ + n, number::unless_one(c.tscal)),
            "TZERO"@ + n,
            number::unless_zero(c.tzero),
        ),
        "TUNIT"@ + n,
        c.tunit,
    )
}

/// The list of keywords with those of all columns set.
pub open spec fn with_columns(h: Seq<KeywordView>, columns: Seq<AsciiColumnView>) -> Seq<
    KeywordView,
>
    decreases columns.len(),
{
    if columns.len() == 0 {
        h
    } else {
        with_column(
            with_columns(h, columns.drop_last()),
            columns.last(),
            columns.len() as int,
        )
    }
}

/// The list of keywords with those of an ASCII table set.
pub open spec fn with_table(h: Seq<KeywordView>, t: AsciiTableView) -> Seq<KeywordView> {
    with_columns(
        bintable::with_layout(
            h,
            "TABLE"@,
            "ASCII table extension"@,
            t.row_len,
            t.nrows,
            0,
            ((t.columns.len() as usize) as i64) as int,
        ),
        t.columns,
    )
}

fn read_column(header: &Header, i: usize) -> (r: Result<AsciiColumn>)
    ensures
        match (r, column_of(header@, i as nat)) {
            (Ok(v), Ok(w)) => v@ == w,
            (Err(e), Err(f)) => e@ == f,
            _ => false,
        },
{
    let key: String = text::numbered("TFORM", i);
    let form: &str = match header.get_string(key.as_str()) {
        Some(s) => s,
        None => return Err(Error::MissingKeyword(key)),
    };
    let format: AsciiFormat = match AsciiFormat::parse(form) {
        Ok(f) => f,
        Err(e) => return Err(e),
    };
    let tbcol: usize = match header.require_int(text::numbered("TBCOL", i).as_str()) {
        Ok(n) => casts::usize_of_i64(n),
        Err(e) => return Err(e),
    };
    Ok(
        AsciiColumn {
            name: bintable::name_in(header, text::numbered("TTYPE", i).as_str()),
            format,
            tbcol,
            tscal: bintable::scale_in(header, text::numbered("TSCAL", i).as_str()),
            tzero: bintable::zero_in(header, text::numbered("TZERO", i).as_str()),
            tunit: bintable::text_in(header, text::numbered("TUNIT", i).as_str()),
        },
    )
}

fn read_columns(header: &Header, tfields: usize) -> (r: Result<Vec<AsciiColumn>>)
    ensures
        match (r, columns_from(header@, 1, tfields as nat)) {
            (Ok(v), Ok(w)) => column_views(v@) == w,
            (Err(e), Err(f)) => e@ == f,
            _ => false,
        },
{
    let mut columns: Vec<AsciiColumn> = Vec::new();
    let mut i: usize = 0;
    let ghost whole = columns_from(header@, 1, tfields as nat);
    proof {
        match whole {
            Ok(t) => {
                assert(column_views(columns@) + t =~= t);
            },
            Err(_) => {},
        }
    }
    while i < tfields
        invariant
            i <= tfields,
            whole == columns_from(header@, 1, tfields as nat),
            whole == (match columns_from(header@, (i + 1) as nat, tfields as nat) {
                Err(e) => Err(e),
                Ok(t) => Ok::<Seq<AsciiColumnView>, ErrorView>(column_views(columns@) + t),
            }),
        decreases tfields - i,
    {
        let c: AsciiColumn = match read_column(header, i + 1) {
            Ok(c) => c,
            Err(e) => return Err(e),
        };
        let ghost before = columns@;
        let ghost v = c@;
        columns.push(c);
        proof {
            match columns_from(header@, (i + 2) as nat, tfields as nat) {
                Ok(t) => {
                    assert(column_views(before) + (seq![v] + t) =~= column_views(columns@) + t);
                },
                Err(_) => {},
            }
        }
        i += 1;
    }
    assert(column_views(columns@) + Seq::<AsciiColumnView>::empty() =~= column_views(columns@));
    Ok(columns)
}

impl AsciiTable {
    /// Read column definitions from header and raw data.
    pub fn from_header_and_data(header: &Header, data: &[u8]) -> (r: Result<Self>)
        ensures
            match (r, table_of(header@, data@)) {
                (Ok(v), Ok(w)) => v@ == w,
                (Err(e), Err(f)) => e@ == f,
                _ => false,
            },
    {
        let nrows: usize = match header.require_int("NAXIS2") {
            Ok(n) => casts::usize_of_i64(n),
            Err(e) => return Err(e),
        };
        let row_len: usize = match header.require_int("NAXIS1") {
            Ok(n) => casts::usize_of_i64(n),
            Err(e) => return Err(e),
        };
        let tfields: usize = match header.require_int("TFIELDS") {
            Ok(n) => casts::usize_of_i64(n),
            Err(e) => return Err(e),
        };
        match read_columns(header, tfields) {
            Ok(columns) => Ok(
                AsciiTable { columns, nrows, row_len, raw_data: vstd::slice::slice_to_vec(data) },
            ),
            Err(e) => Err(e),
        }
    }

    /// Where a cell's text starts and ends, where these are sizes.
    fn cell_span(&self, row: usize, col: usize) -> (r: Option<(usize, usize)>)
        requires
            col < self@.columns.len(),
            self@.columns[col as int].tbcol > 0,
        ensures
            ({
                let c = self@.columns[col as int];
                let start = row * self@.row_len + c.tbcol - 1;
                match r {
                    Some((a, b)) => a == start && b == start + c.format.columns(),
                    None => start + c.format.columns() > usize::MAX,
                }
            }),
    {
        let column: &AsciiColumn = &self.columns[col];
        assert(column@ == self@.columns[col as int]);
        let start: Option<usize> = match row.checked_mul(self.row_len) {
            Some(n) => n.checked_add(column.tbcol - 1),
            None => None,
        };
        match start {
            Some(a) => match a.checked_add(column.format.width()) {
                Some(b) => Some((a, b)),
                None => None,
            },
            None => None,
        }
    }

    /// Get a string cell value (raw, before scaling).
    pub fn get_cell_raw(&self, row: usize, col: usize) -> (r: Result<&str>)
        ensures
            match (r, cell_text(self@, row, col)) {
                (Ok(v), Ok(w)) => v@ == w,
                (Err(e), Err(f)) => e@ == f,
                _ => false,
            },
    {
        if row >= self.nrows || col >= self.columns.len() {
            return Err(Error::InvalidFormat("cell index out of bounds".to_owned()));
        }
        assert(self.columns@[col as int]@ == self@.columns[col as int]);
        if self.columns[col].tbcol == 0 {
            return Err(Error::InvalidFormat("columns are counted from one".to_owned()));
        }
        let len: usize = self.raw_data.len();
        match self.cell_span(row, col) {
            Some((start, end)) => if end > len {
                Err(Error::DataSizeMismatch { expected: end, actual: len })
            } else {
                match std::str::from_utf8(
                    vstd::slice::slice_subrange(self.raw_data.as_slice(), start, end),
                ) {
                    Ok(s) => Ok(s),
                    Err(_) => Err(Error::InvalidFormat("non-UTF8 table data".to_owned())),
                }
            },
            None => Err(Error::DataSizeMismatch { expected: usize::MAX, actual: len }),
        }
    }

    /// The floating-point number in a cell, before TSCAL/TZERO are applied. A
    /// Fortran D exponent is taken as E.
    pub fn number_at(&self, row: usize, col: usize) -> (r: Result<Real>)
        ensures
            match cell_text(self@, row, col) {
                Ok(s) => match r {
                    Ok(x) => cell_number(s) == Some(x@) && number::is_float(x@),
                    Err(e) => e@ == ErrorView::InvalidTableFormat(
                        "cannot parse float: '"@ + text::trim(s) + "'"@,
                    ) && cell_number(s) is None,
                },
                Err(f) => r matches Err(e) && e@ == f,
            },
    {
        let raw: &str = match self.get_cell_raw(row, col) {
            Ok(s) => s,
            Err(e) => return Err(e),
        };
        let chars: Vec<char> = text::char_vec(raw);
        let t: Vec<char> = number::with_exponent_e(text::trimmed(chars.as_slice()));
        if number::spells_float(t.as_slice()) {
            Ok(Real { text: text::string_from(t.as_slice()) })
        } else {
            Err(unparsed("cannot parse float: '", text::trimmed(chars.as_slice())))
        }
    }

    /// The integer in a cell, before TSCAL/TZERO are applied.
    pub fn integer_at(&self, row: usize, col: usize) -> (r: Result<i64>)
        ensures
            match cell_text(self@, row, col) {
                Ok(s) => match r {
                    Ok(i) => cell_integer(s) == Some(i as int),
                    Err(e) => e@ == ErrorView::InvalidTableFormat(
                        "cannot parse integer: '"@ + text::trim(s) + "'"@,
                    ) && cell_integer(s) is None,
                },
                Err(f) => r matches Err(e) && e@ == f,
            },
    {
        let raw: &str = match self.get_cell_raw(row, col) {
            Ok(s) => s,
            Err(e) => return Err(e),
        };
        let chars: Vec<char> = text::char_vec(raw);
        match text::parse_i64(text::trimmed(chars.as_slice())) {
            Some(i) => Ok(i),
            None => Err(unparsed("cannot parse integer: '", text::trimmed(chars.as_slice()))),
        }
    }

    /// Get a string value (no scaling).
    pub fn get_string(&self, row: usize, col: usize) -> (r: Result<String>)
        ensures
            match (r, cell_text(self@, row, col)) {
                (Ok(v), Ok(w)) => v@ == cell_string(w),
                (Err(e), Err(f)) => e@ == f,
                _ => false,
            },
    {
        match self.get_cell_raw(row, col) {
            Ok(raw) => {
                let chars: Vec<char> = text::char_vec(raw);
                Ok(text::string_from(text::trimmed_end(chars.as_slice())))
            },
            Err(e) => Err(e),
        }
    }

    /// Populate header keywords for this table.
    pub fn fill_header(&self, header: &mut Header)
        ensures
            final(header)@ == with_table(old(header)@, self@),
    {
        let tfields: usize = self.columns.len();
        bintable::set_layout(
            header,
            "TABLE",
            "ASCII table extension",
            self.row_len,
            self.nrows,
            0,
            tfields,
        );
        let ghost start = header@;
        let ghost all = self@.columns;
        let mut i: usize = 0;
        assert(all.take(0) =~= Seq::empty());
        while i < tfields
            invariant
                i <= tfields,
                tfields == self.columns@.len(),
                all == column_views(self.columns@),
                header@ == with_columns(start, all.take(i as int)),
            decreases tfields - i,
        {
            let col: &AsciiColumn = &self.columns[i];
            i += 1;
            header.set(
                text::numbered("TTYPE", i).as_str(),
                HeaderValue::String(col.name.clone()),
                None,
            );
            header.set(
                text::numbered("TBCOL", i).as_str(),
                HeaderValue::Integer(col.tbcol as i64),
                None,
            );
            header.set(
                text::numbered("TFORM", i).as_str(),
                HeaderValue::String(col.format.to_tform_string()),
                None,
            );
            bintable::set_scale(header, text::numbered("TSCAL", i).as_str(), &col.tscal);
            bintable::set_zero(header, text::numbered("TZERO", i).as_str(), &col.tzero);
            bintable::set_text(header, text::numbered("TUNIT", i).as_str(), &col.tunit);
            assert(all.take(i as int).drop_last() =~= all.take(i - 1));
            assert(all.take(i as int).last() == col@);
        }
        assert(all.take(i as int) =~= all);
    }

    /// Build an AsciiTable from column definitions and row data.
    pub fn build(columns: Vec<AsciiColumn>, nrows: usize, row_data: Vec<u8>) -> (r: Self)
        requires
            columns@.len() > 0 ==> 1 <= columns@.last().tbcol && columns@.last().tbcol - 1
                + columns@.last().format.columns() <= usize::MAX,
        ensures
            r@ == (AsciiTableView {
                columns: column_views(columns@),
                nrows,
                row_len: (if columns@.len() == 0 {
                    0
                } else {
                    columns@.last().tbcol - 1 + columns@.last().format.columns()
                }) as usize,
                raw_data: row_data@,
            }),
    {
        let n: usize = columns.len();
        let row_len: usize = if n == 0 {
            0
        } else {
            columns[n - 1].tbcol - 1 + columns[n - 1].format.width()
        };
        AsciiTable { columns, nrows, row_len, raw_data: row_data }
    }
}

} // verus!
