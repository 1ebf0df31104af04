//! Binary tables: column formats, cells, and the heap of variable-length arrays.
use crate::bigendian;
use crate::casts;
use crate::error::{Error, ErrorView, Result};
use crate::header;
use crate::header::Header;
use crate::image_data;
use crate::keyword;
use crate::keyword::{HeaderValue, KeywordView, ValueView};
use crate::number;
use crate::number::Real;
use crate::text;
use crate::words;
use vstd::prelude::*;

verus! {

/// Binary table column type codes per FITS standard.
#[derive(Debug, Clone, Copy, PartialEq, Eq)]
pub enum BinColumnType {
    /// L: Logical (1 byte)
    Logical(usize),
    /// X: Bit array (ceil(n/8) bytes)
    Bit(usize),
    /// B: Unsigned byte
    Byte(usize),
    /// I: 16-bit integer
    I16(usize),
    /// J: 32-bit integer
    J32(usize),
    /// K: 64-bit integer
    K64(usize),
    /// A: Character
    Char(usize),
    /// E: 32-bit float
    E32(usize),
    /// D: 64-bit float
    D64(usize),
    /// C: 32-bit complex float (pair of E)
    C64(usize),
    /// M: 64-bit complex float (pair of D)
    M128(usize),
    /// P: 32-bit variable-length array descriptor (2×i32)
    VarP(char),
    /// Q: 64-bit variable-length array descriptor (2×i64)
    VarQ(char),
}

/// The number of digits that a text starts with.
pub open spec fn digit_count(s: Seq<char>) -> nat
    decreases s.len(),
{
    if s.len() > 0 && text::is_digit(s[0]) {
        1 + digit_count(s.skip(1))
    } else {
        0
    }
}

/// The column format of a type letter and a repeat count.
pub open spec fn format_of_code(code: char, n: usize) -> Option<BinColumnType> {
    if code == 'L' {
        Some(BinColumnType::Logical(n))
    } else if code == 'X' {
        Some(BinColumnType::Bit(n))
    } else if code == 'B' {
        Some(BinColumnType::Byte(n))
    } else if code == 'I' {
        Some(BinColumnType::I16(n))
    } else if code == 'J' {
        Some(BinColumnType::J32(n))
    } else if code == 'K' {
        Some(BinColumnType::K64(n))
    } else if code == 'A' {
        Some(BinColumnType::Char(n))
    } else if code == 'E' {
        Some(BinColumnType::E32(n))
    } else if code == 'D' {
        Some(BinColumnType::D64(n))
    } else if code == 'C' {
        Some(BinColumnType::C64(n))
    } else if code == 'M' {
        Some(BinColumnType::M128(n))
    } else {
        None
    }
}

/// The first byte of a text, as a character.
pub open spec fn first_byte(s: Seq<char>) -> char {
    text::bytes_of(s)[0] as char
}

/// The column format that a TFORM value spells: a repeat count (one where there is
/// none) and a type letter; behind P or Q stands the type of the elements.
pub open spec fn format_of(s: Seq<char>) -> Option<BinColumnType> {
    let t = text::trim(s);
    let p = digit_count(t) as int;
    if p >= t.len() {
        None
    } else {
        let repeat = if p == 0 {
            Some(1usize)
        } else {
            text::size_value(t.take(p))
        };
        match repeat {
            None => None,
            Some(n) => if t[p] == 'P' || t[p] == 'Q' {
                if p + 1 >= t.len() {
                    None
                } else if t[p] == 'P' {
                    Some(BinColumnType::VarP(first_byte(t.skip(p + 1))))
                } else {
                    Some(BinColumnType::VarQ(first_byte(t.skip(p + 1))))
                }
            } else {
                format_of_code(t[p], n)
            },
        }
    }
}

/// Why a TFORM value spells no column format.
pub open spec fn format_fault(s: Seq<char>) -> ErrorView {
    let t = text::trim(s);
    let p = digit_count(t) as int;
    ErrorView::InvalidTableFormat(
        if t.len() == 0 {
            "empty TFORM"@
        } else if p >= t.len() {
            "no type code in TFORM: "@ + t
        } else if p > 0 && text::size_value(t.take(p)) is None {
            "invalid repeat count: "@ + t
        } else if t[p] == 'P' || t[p] == 'Q' {
            "P/Q format needs element type: "@ + t
        } else {
            "unknown BINTABLE type code: "@.push(first_byte(t.skip(p)))
        },
    )
}

impl BinColumnType {
    /// Number of bytes this column occupies per row in the main table.
    pub open spec fn size(self) -> nat {
        match self {
            BinColumnType::Logical(n) => n as nat,
            BinColumnType::Bit(n) => ((n + 7) / 8) as nat,
            BinColumnType::Byte(n) => n as nat,
            BinColumnType::I16(n) => (n * 2) as nat,
            BinColumnType::J32(n) => (n * 4) as nat,
            BinColumnType::K64(n) => (n * 8) as nat,
            BinColumnType::Char(n) => n as nat,
            BinColumnType::E32(n) => (n * 4) as nat,
            BinColumnType::D64(n) => (n * 8) as nat,
            BinColumnType::C64(n) => (n * 8) as nat,
            BinColumnType::M128(n) => (n * 16) as nat,
            BinColumnType::VarP(_) => 8,
            BinColumnType::VarQ(_) => 16,
        }
    }

    /// The TFORM value of a column format.
    pub open spec fn tform(self) -> Seq<char> {
        match self {
            BinColumnType::Logical(n) => text::decimal(n as int).push('L'),
            BinColumnType::Bit(n) => text::decimal(n as int).push('X'),
            BinColumnType::Byte(n) => text::decimal(n as int).push('B'),
            BinColumnType::I16(n) => text::decimal(n as int).push('I'),
            BinColumnType::J32(n) => text::decimal(n as int).push('J'),
            BinColumnType::K64(n) => text::decimal(n as int).push('K'),
            BinColumnType::Char(n) => text::decimal(n as int).push('A'),
            BinColumnType::E32(n) => text::decimal(n as int).push('E'),
            BinColumnType::D64(n) => text::decimal(n as int).push('D'),
            BinColumnType::C64(n) => text::decimal(n as int).push('C'),
            BinColumnType::M128(n) => text::decimal(n as int).push('M'),
            BinColumnType::VarP(t) => seq!['1', 'P', t],
            BinColumnType::VarQ(t) => seq!['1', 'Q', t],
        }
    }

    /// Parse a TFORMn value like "1J", "10E", "8A", "1PJ(1000)", "1QD(2000)" etc.
    pub fn parse(s: &str) -> (r: Result<Self>)
        ensures
            match r {
                Ok(t) => format_of(s@) == Some(t),
                Err(e) => e@ == format_fault(s@) && format_of(s@) is None,
            },
    {
        let chars: Vec<char> = text::char_vec(s);
        let t = text::trimmed(chars.as_slice());
        let p: usize = count_digits(t);
        if p >= t.len() {
            return Err(
                if t.len() == 0 {
                    Error::InvalidTableFormat("empty TFORM".to_owned())
                } else {
                    fault_with("no type code in TFORM: ", t)
                },
            );
        }
        let repeat: usize = if p == 0 {
            1
        } else {
            match text::parse_usize(text::head(t, p)) {
                Some(n) => n,
                None => {
                    return Err(fault_with("invalid repeat count: ", t))
                },
            }
        };
        let code: char = t[p];
        if code == 'P' || code == 'Q' {
            if p + 1 >= t.len() {
                return Err(fault_with("P/Q format needs element type: ", t));
            }
            let element: char = leading_byte(text::tail(t, p + 1));
            return if code == 'P' {
                Ok(BinColumnType::VarP(element))
            } else {
                Ok(BinColumnType::VarQ(element))
            };
        }
        match code {
            'L' => Ok(BinColumnType::Logical(repeat)),
            'X' => Ok(BinColumnType::Bit(repeat)),
            'B' => Ok(BinColumnType::Byte(repeat)),
            'I' => Ok(BinColumnType::I16(repeat)),
            'J' => Ok(BinColumnType::J32(repeat)),
            'K' => Ok(BinColumnType::K64(repeat)),
            'A' => Ok(BinColumnType::Char(repeat)),
            'E' => Ok(BinColumnType::E32(repeat)),
            'D' => Ok(BinColumnType::D64(repeat)),
            'C' => Ok(BinColumnType::C64(repeat)),
            'M' => Ok(BinColumnType::M128(repeat)),
            _ => {
                let mut message = "unknown BINTABLE type code: ".to_owned();
                message.push(leading_byte(text::tail(t, p)));
                Err(Error::InvalidTableFormat(message))
            },
        }
    }

    /// The bytes per row, where they are a size.
    fn checked_size(&self) -> (r: Option<usize>)
        ensures
            match r {
                Some(n) => n == self.size(),
                None => self.size() > usize::MAX,
            },
    {
        match self {
            BinColumnType::Logical(n) => Some(*n),
            BinColumnType::Bit(n) => Some(
                if *n % 8 == 0 {
                    *n / 8
                } else {
                    *n / 8 + 1
                },
            ),
            BinColumnType::Byte(n) => Some(*n),
            BinColumnType::I16(n) => n.checked_mul(2),
            BinColumnType::J32(n) => n.checked_mul(4),
            BinColumnType::K64(n) => n.checked_mul(8),
            BinColumnType::Char(n) => Some(*n),
            BinColumnType::E32(n) => n.checked_mul(4),
            BinColumnType::D64(n) => n.checked_mul(8),
            BinColumnType::C64(n) => n.checked_mul(8),
            BinColumnType::M128(n) => n.checked_mul(16),
            BinColumnType::VarP(_) => Some(8),
            BinColumnType::VarQ(_) => Some(16),
        }
    }

    /// Number of bytes this column occupies per row in the main table.
    pub fn byte_size(&self) -> (r: usize)
        requires
            self.size() <= usize::MAX,
        ensures
            r == self.size(),
    {
        match self.checked_size() {
            Some(n) => n,
            None => 0,
        }
    }

    /// Format string for writing TFORM.
    pub fn to_tform_string(&self) -> (r: String)
        ensures
            r@ == self.tform(),
    {
        match self {
            BinColumnType::Logical(n) => repeated(*n, 'L'),
            BinColumnType::Bit(n) => repeated(*n, 'X'),
            BinColumnType::Byte(n) => repeated(*n, 'B'),
            BinColumnType::I16(n) => repeated(*n, 'I'),
            BinColumnType::J32(n) => repeated(*n, 'J'),
            BinColumnType::K64(n) => repeated(*n, 'K'),
            BinColumnType::Char(n) => repeated(*n, 'A'),
            BinColumnType::E32(n) => repeated(*n, 'E'),
            BinColumnType::D64(n) => repeated(*n, 'D'),
            BinColumnType::C64(n) => repeated(*n, 'C'),
            BinColumnType::M128(n) => repeated(*n, 'M'),
            BinColumnType::VarP(t) => text::string_from(&['1', 'P', *t]),
            BinColumnType::VarQ(t) => text::string_from(&['1', 'Q', *t]),
        }
    }
}

/// The error for a table format, with the text that it is in.
pub(crate) fn fault_with(message: &str, t: &[char]) -> (r: Error)
    ensures
        r@ == ErrorView::InvalidTableFormat(message@ + t@),
{
    Error::InvalidTableFormat(message.to_owned().concat(text::string_from(t).as_str()))
}

fn repeated(n: usize, code: char) -> (r: String)
    ensures
        r@ == text::decimal(n as int).push(code),
{
    let mut s: String = text::decimal_u64(n as u64);
    s.push(code);
    s
}

fn count_digits(s: &[char]) -> (r: usize)
    ensures
        r == digit_count(s@),
        r <= s@.len(),
{
    let mut i: usize = 0;
    assert(s@.skip(0) =~= s@);
    while i < s.len() && '0' <= s[i] && s[i] <= '9'
        invariant
            i <= s@.len(),
            digit_count(s@) == i + digit_count(s@.skip(i as int)),
        decreases s@.len() - i,
    {
        assert(s@.skip(i as int).skip(1) =~= s@.skip(i + 1));
        i += 1;
    }
    i
}

/// The first byte of a text, as a character.
fn leading_byte(s: &[char]) -> (r: char)
    requires
        s@.len() > 0,
    ensures
        r == first_byte(s@),
{
    let whole: String = text::string_from(s);
    let bytes = whole.as_str().as_bytes();
    proof {
        text::lemma_nonempty_bytes(s@);
    }
    bytes[0] as char
}

/// A column format whose TFORM value can be read back: the element type of a
/// variable-length array is an ASCII character that is not a blank.
pub open spec fn plain_format(t: BinColumnType) -> bool {
    match t {
        BinColumnType::VarP(c) => c <= '\u{7f}' && !text::is_space(c),
        BinColumnType::VarQ(c) => c <= '\u{7f}' && !text::is_space(c),
        _ => true,
    }
}

proof fn lemma_digit_count(d: Seq<char>, rest: Seq<char>)
    requires
        forall|i: int| 0 <= i < d.len() ==> text::is_digit(#[trigger] d[i]),
        rest.len() > 0,
        !text::is_digit(rest[0]),
    ensures
        digit_count(d + rest) == d.len(),
    decreases d.len(),
{
    if d.len() == 0 {
        assert(d + rest =~= rest);
    } else {
        assert((d + rest)[0] == d[0]);
        assert((d + rest).skip(1) =~= d.skip(1) + rest);
        lemma_digit_count(d.skip(1), rest);
    }
}

proof fn lemma_repeated_format(n: usize, code: char)
    requires
        'A' <= code <= 'Z',
        code != 'P',
        code != 'Q',
    ensures
        format_of(text::decimal(n as int).push(code)) == format_of_code(code, n),
{
    let d = text::decimal(n as int);
    let t = d.push(code);
    text::decimal_round_trip(n as int);
    text::lemma_decimal_nat(n as nat);
    assert(!text::is_space(d[0]));
    assert(t =~= d + seq![code]);
    lemma_digit_count(d, seq![code]);
    text::lemma_trim_same(t);
    assert(t.take(d.len() as int) =~= d);
}

proof fn lemma_variable_format(code: char, c: char)
    requires
        code == 'P' || code == 'Q',
        c <= '\u{7f}',
        !text::is_space(c),
    ensures
        format_of(seq!['1', code, c]) == Some(
            if code == 'P' {
                BinColumnType::VarP(c)
            } else {
                BinColumnType::VarQ(c)
            },
        ),
{
    let t = seq!['1', code, c];
    text::lemma_trim_same(t);
    assert(t =~= seq!['1'] + seq![code, c]);
    lemma_digit_count(seq!['1'], seq![code, c]);
    assert(t.take(1) =~= text::decimal(1));
    text::decimal_round_trip(1);
    assert(t.skip(2) =~= seq![c]);
    text::lemma_bytes_chars(seq![c]);
}

/// Parsing the TFORM value of a column format gives that format.
pub proof fn tform_round_trip(t: BinColumnType)
    requires
        plain_format(t),
    ensures
        format_of(t.tform()) == Some(t),
{
    match t {
        BinColumnType::Logical(n) => lemma_repeated_format(n, 'L'),
        BinColumnType::Bit(n) => lemma_repeated_format(n, 'X'),
        BinColumnType::Byte(n) => lemma_repeated_format(n, 'B'),
        BinColumnType::I16(n) => lemma_repeated_format(n, 'I'),
        BinColumnType::J32(n) => lemma_repeated_format(n, 'J'),
        BinColumnType::K64(n) => lemma_repeated_format(n, 'K'),
        BinColumnType::Char(n) => lemma_repeated_format(n, 'A'),
        BinColumnType::E32(n) => lemma_repeated_format(n, 'E'),
        BinColumnType::D64(n) => lemma_repeated_format(n, 'D'),
        BinColumnType::C64(n) => lemma_repeated_format(n, 'C'),
        BinColumnType::M128(n) => lemma_repeated_format(n, 'M'),
        BinColumnType::VarP(c) => lemma_variable_format('P', c),
        BinColumnType::VarQ(c) => lemma_variable_format('Q', c),
    }
}

proof fn lemma_format_parts(d: Seq<char>, code: char, rest: Seq<char>)
    requires
        d.len() == 0 || text::all_digits(d),
        'A' <= code <= 'Z',
        rest.len() > 0 ==> !text::is_space(rest.last()),
    ensures
        ({
            let t = d + (seq![code] + rest);
            let p = d.len() as int;
            &&& text::trim(t) == t
            &&& digit_count(t) == p
            &&& p < t.len()
            &&& t[p] == code
            &&& t.take(p) == d
            &&& t.skip(p + 1) == rest
        }),
{
    let t = d + (seq![code] + rest);
    let p = d.len() as int;
    lemma_digit_count(d, seq![code] + rest);
    assert(t.len() == p + 1 + rest.len());
    assert(t[0] == if p > 0 {
        d[0]
    } else {
        code
    });
    assert(t.last() == if rest.len() > 0 {
        rest.last()
    } else {
        code
    });
    if p > 0 {
        assert(text::is_digit(d[0]));
    }
    text::lemma_trim_same(t);
    assert(t.take(p) =~= d);
    assert(t.skip(p + 1) =~= rest);
}

/// Each type letter stands for its type, `n` times where the count `d` in front of it says
/// so, and once where there is no count. Text behind the letter says nothing, but behind P and
/// Q stands the letter of the elements of an array, whatever the count.
pub proof fn format_of_letters(n: usize, d: Seq<char>, rest: Seq<char>, element: char)
    requires
        d == text::decimal(n as int) || d.len() == 0 && n == 1,
        rest.len() > 0 ==> !text::is_space(rest.last()),
        vstd::utf8::is_ascii_chars(rest),
        element <= '\u{7f}',
        !text::is_space(element),
    ensures
        format_of(d + (seq!['L'] + rest)) == Some(BinColumnType::Logical(n)),
        format_of(d + (seq!['X'] + rest)) == Some(BinColumnType::Bit(n)),
        format_of(d + (seq!['B'] + rest)) == Some(BinColumnType::Byte(n)),
        format_of(d + (seq!['I'] + rest)) == Some(BinColumnType::I16(n)),
        format_of(d + (seq!['J'] + rest)) == Some(BinColumnType::J32(n)),
        format_of(d + (seq!['K'] + rest)) == Some(BinColumnType::K64(n)),
        format_of(d + (seq!['A'] + rest)) == Some(BinColumnType::Char(n)),
        format_of(d + (seq!['E'] + rest)) == Some(BinColumnType::E32(n)),
        format_of(d + (seq!['D'] + rest)) == Some(BinColumnType::D64(n)),
        format_of(d + (seq!['C'] + rest)) == Some(BinColumnType::C64(n)),
        format_of(d + (seq!['M'] + rest)) == Some(BinColumnType::M128(n)),
        format_of(d + (seq!['P'] + (seq![element] + rest))) == Some(BinColumnType::VarP(element)),
        format_of(d + (seq!['Q'] + (seq![element] + rest))) == Some(BinColumnType::VarQ(element)),
{
    text::decimal_round_trip(n as int);
    text::lemma_decimal_nat(n as nat);
    assert(d.len() > 0 ==> text::size_value(d) == Some(n)) by {
        if d.len() > 0 {
            assert(text::is_digit(d[0]));
        }
    }
    lemma_format_parts(d, 'L', rest);
    lemma_format_parts(d, 'X', rest);
    lemma_format_parts(d, 'B', rest);
    lemma_format_parts(d, 'I', rest);
    lemma_format_parts(d, 'J', rest);
    lemma_format_parts(d, 'K', rest);
    lemma_format_parts(d, 'A', rest);
    lemma_format_parts(d, 'E', rest);
    lemma_format_parts(d, 'D', rest);
    lemma_format_parts(d, 'C', rest);
    lemma_format_parts(d, 'M', rest);
    let behind = seq![element] + rest;
    assert(behind.last() == if rest.len() > 0 {
        rest.last()
    } else {
        element
    });
    lemma_format_parts(d, 'P', behind);
    lemma_format_parts(d, 'Q', behind);
    assert(vstd::utf8::is_ascii_chars(behind)) by {
        assert forall|i: int| 0 <= i < behind.len() implies '\0' <= #[trigger] behind[i]
            <= '\u{7f}' by {
            if i > 0 {
                assert(behind[i] == rest[i - 1]);
            }
        }
    }
    text::lemma_bytes_chars(behind);
}

/// The bytes of a cell: eight bits fill a byte, and the last need not be full; a
/// character, a truth value and a byte take one, other values as many as their bits
/// fill, and an array the two numbers that describe it.
pub proof fn sizes_of_formats(n: usize, element: char)
    ensures
        8 * BinColumnType::Bit(n).size() - 8 < n <= 8 * BinColumnType::Bit(n).size(),
        BinColumnType::Logical(n).size() == n,
        BinColumnType::Byte(n).size() == n,
        BinColumnType::Char(n).size() == n,
        8 * BinColumnType::I16(n).size() == 16 * n,
        8 * BinColumnType::J32(n).size() == 32 * n,
        8 * BinColumnType::K64(n).size() == 64 * n,
        8 * BinColumnType::E32(n).size() == 32 * n,
        8 * BinColumnType::D64(n).size() == 64 * n,
        8 * BinColumnType::C64(n).size() == 64 * n,
        8 * BinColumnType::M128(n).size() == 128 * n,
        8 * BinColumnType::VarP(element).size() == 2 * 32,
        8 * BinColumnType::VarQ(element).size() == 2 * 64,
{
}

/// A column in a binary table. A scale or zero point is there where it is not the
/// default (scale one, zero point zero).
#[derive(Debug)]
pub struct BinColumn {
    pub name: String,
    pub format: BinColumnType,
    pub tscal: Option<Real>,
    pub tzero: Option<Real>,
    pub tunit: Option<String>,
}

/// What a column stands for.
pub struct BinColumnView {
    pub name: Seq<char>,
    pub format: BinColumnType,
    pub tscal: Option<Seq<char>>,
    pub tzero: Option<Seq<char>>,
    pub tunit: Option<Seq<char>>,
}

/// The text of an optional number.
pub open spec fn real_of(r: Option<Real>) -> Option<Seq<char>> {
    match r {
        Some(x) => Some(x@),
        None => None,
    }
}

impl View for BinColumn {
    type V = BinColumnView;

    open spec fn view(&self) -> BinColumnView {
        BinColumnView {
            name: self.name@,
            format: self.format,
            tscal: real_of(self.tscal),
            tzero: real_of(self.tzero),
            tunit: keyword::text_of(self.tunit),
        }
    }
}

pub(crate) fn real_clone(r: &Option<Real>) -> (c: Option<Real>)
    ensures
        real_of(c) == real_of(*r),
{
    match r {
        Some(x) => Some(x.clone()),
        None => None,
    }
}

pub(crate) fn text_clone(r: &Option<String>) -> (c: Option<String>)
    ensures
        keyword::text_of(c) == keyword::text_of(*r),
{
    match r {
        Some(x) => Some(x.clone()),
        None => None,
    }
}

impl Clone for BinColumn {
    fn clone(&self) -> (r: Self)
        ensures
            r@ == self@,
    {
        BinColumn {
            name: self.name.clone(),
            format: self.format,
            tscal: real_clone(&self.tscal),
            tzero: real_clone(&self.tzero),
            tunit: text_clone(&self.tunit),
        }
    }
}

/// What columns stand for.
pub open spec fn column_views(columns: Seq<BinColumn>) -> Seq<BinColumnView> {
    Seq::new(columns.len(), |i: int| columns[i]@)
}

/// Cell value from a binary table. Floating-point values are held as their IEEE
/// 754 bit patterns.
#[derive(Debug, Clone, PartialEq, Eq)]
pub enum BinCellValue {
    Logical(Vec<bool>),
    Bytes(Vec<u8>),
    I16(Vec<i16>),
    I32(Vec<i32>),
    I64(Vec<i64>),
    F32(Vec<u32>),
    F64(Vec<u64>),
    String(String),
    ComplexF32(Vec<(u32, u32)>),
    ComplexF64(Vec<(u64, u64)>),
    Bits(Vec<u8>, usize),  // bytes + bit count
}

/// What a cell value stands for.
#[verifier::ext_equal]
pub enum CellView {
    Logical(Seq<bool>),
    Bytes(Seq<u8>),
    I16(Seq<int>),
    I32(Seq<int>),
    I64(Seq<int>),
    F32(Seq<int>),
    F64(Seq<int>),
    Text(Seq<char>),
    ComplexF32(Seq<(int, int)>),
    ComplexF64(Seq<(int, int)>),
    Bits(Seq<u8>, nat),
}

impl View for BinCellValue {
    type V = CellView;

    open spec fn view(&self) -> CellView {
        match self {
            BinCellValue::Logical(v) => CellView::Logical(v@),
            BinCellValue::Bytes(v) => CellView::Bytes(v@),
            BinCellValue::I16(v) => CellView::I16(words::numbers(v@)),
            BinCellValue::I32(v) => CellView::I32(words::numbers(v@)),
            BinCellValue::I64(v) => CellView::I64(words::numbers(v@)),
            BinCellValue::F32(v) => CellView::F32(words::numbers(v@)),
            BinCellValue::F64(v) => CellView::F64(words::numbers(v@)),
            BinCellValue::String(s) => CellView::Text(s@),
            BinCellValue::ComplexF32(v) => CellView::ComplexF32(
                Seq::new(v@.len(), |i: int| (v@[i].0 as int, v@[i].1 as int)),
            ),
            BinCellValue::ComplexF64(v) => CellView::ComplexF64(
                Seq::new(v@.len(), |i: int| (v@[i].0 as int, v@[i].1 as int)),
            ),
            BinCellValue::Bits(v, n) => CellView::Bits(v@, *n as nat),
        }
    }
}

/// Truth values: `T` is true, any other byte is not.
pub open spec fn truths(bytes: Seq<u8>) -> Seq<bool> {
    Seq::new(bytes.len(), |i: int| bytes[i] == 0x54)
}

/// Numbers two by two.
pub open spec fn pairs(v: Seq<int>) -> Seq<(int, int)> {
    Seq::new(v.len() / 2, |i: int| (v[2 * i], v[2 * i + 1]))
}

/// The text of a character cell: trailing blanks do not count. What is not UTF-8 is an
/// error that says where it is.
pub open spec fn cell_text(bytes: Seq<u8>, place: Seq<char>) -> std::result::Result<
    CellView,
    ErrorView,
> {
    if vstd::utf8::valid_utf8(bytes) {
        Ok(CellView::Text(text::trim_end(vstd::utf8::decode_utf8(bytes))))
    } else {
        Err(ErrorView::InvalidFormat("non-UTF8 in "@ + place))
    }
}

/// The error for an array of elements that are not supported.
pub open spec fn element_fault(element: char) -> ErrorView {
    ErrorView::InvalidTableFormat("unsupported VLA element type: "@.push(element))
}

/// The bytes of one element of a variable-length array.
pub open spec fn element_size(element: char) -> Option<int> {
    if element == 'L' || element == 'B' || element == 'A' {
        Some(1)
    } else if element == 'I' {
        Some(2)
    } else if element == 'J' || element == 'E' {
        Some(4)
    } else if element == 'K' || element == 'D' || element == 'C' {
        Some(8)
    } else if element == 'M' {
        Some(16)
    } else {
        None
    }
}

/// The value of an array of elements.
pub open spec fn array_value(element: char, data: Seq<u8>) -> std::result::Result<
    CellView,
    ErrorView,
> {
    if element == 'L' {
        Ok(CellView::Logical(truths(data)))
    } else if element == 'B' {
        Ok(CellView::Bytes(data))
    } else if element == 'A' {
        cell_text(data, "VLA char"@)
    } else if element == 'I' {
        Ok(CellView::I16(words::words_decoded(true, 2, data)))
    } else if element == 'J' {
        Ok(CellView::I32(words::words_decoded(true, 4, data)))
    } else if element == 'K' {
        Ok(CellView::I64(words::words_decoded(true, 8, data)))
    } else if element == 'E' {
        Ok(CellView::F32(words::words_decoded(false, 4, data)))
    } else if element == 'D' {
        Ok(CellView::F64(words::words_decoded(false, 8, data)))
    } else {
        Err(ErrorView::InvalidTableFormat("unsupported VLA type: "@.push(element)))
    }
}

/// The array of `count` elements at an offset in the heap. An empty array lies
/// nowhere.
pub open spec fn heap_array(
    heap: Seq<u8>,
    element: char,
    count: usize,
    offset: usize,
) -> std::result::Result<CellView, ErrorView> {
    if count == 0 {
        match array_value(element, Seq::empty()) {
            Ok(v) => Ok(v),
            Err(_) => Err(element_fault(element)),
        }
    } else {
        match element_size(element) {
            None => Err(element_fault(element)),
            Some(size) => {
                let end = offset + count * size;
                if end > heap.len() {
                    Err(
                        ErrorView::DataSizeMismatch {
                            expected: image_data::capped(end),
                            actual: heap.len() as int,
                        },
                    )
                } else {
                    array_value(element, heap.subrange(offset as int, end))
                }
            },
        }
    }
}

/// The value of a cell.
pub open spec fn cell_value(
    heap: Seq<u8>,
    format: BinColumnType,
    bytes: Seq<u8>,
) -> std::result::Result<CellView, ErrorView> {
    match format {
        BinColumnType::Logical(_) => Ok(CellView::Logical(truths(bytes))),
        BinColumnType::Bit(n) => Ok(CellView::Bits(bytes, n as nat)),
        BinColumnType::Byte(_) => Ok(CellView::Bytes(bytes)),
        BinColumnType::I16(_) => Ok(CellView::I16(words::words_decoded(true, 2, bytes))),
        BinColumnType::J32(_) => Ok(CellView::I32(words::words_decoded(true, 4, bytes))),
        BinColumnType::K64(_) => Ok(CellView::I64(words::words_decoded(true, 8, bytes))),
        BinColumnType::Char(_) => cell_text(bytes, "char column"@),
        BinColumnType::E32(_) => Ok(CellView::F32(words::words_decoded(false, 4, bytes))),
        BinColumnType::D64(_) => Ok(CellView::F64(words::words_decoded(false, 8, bytes))),
        BinColumnType::C64(_) => Ok(
            CellView::ComplexF32(pairs(words::words_decoded(false, 4, bytes))),
        ),
        BinColumnType::M128(_) => Ok(
            CellView::ComplexF64(pairs(words::words_decoded(false, 8, bytes))),
        ),
        BinColumnType::VarP(element) => heap_array(
            heap,
            element,
            casts::size_of(bigendian::be_signed(bytes.subrange(0, 4))),
            casts::size_of(bigendian::be_signed(bytes.subrange(4, 8))),
        ),
        BinColumnType::VarQ(element) => heap_array(
            heap,
            element,
            casts::size_of(bigendian::be_signed(bytes.subrange(0, 8))),
            casts::size_of(bigendian::be_signed(bytes.subrange(8, 16))),
        ),
    }
}

/// A binary table extension.
#[derive(Debug)]
pub struct BinTable {
    pub columns: Vec<BinColumn>,
    pub nrows: usize,
    pub row_len: usize,  // NAXIS1
    /// Main data area (nrows × row_len bytes).
    pub main_data: Vec<u8>,
    /// Heap area (variable-length array storage).
    pub heap: Vec<u8>,
}

/// What a binary table stands for.
pub struct BinTableView {
    pub columns: Seq<BinColumnView>,
    pub nrows: usize,
    pub row_len: usize,
    pub main_data: Seq<u8>,
    pub heap: Seq<u8>,
}

impl View for BinTable {
    type V = BinTableView;

    open spec fn view(&self) -> BinTableView {
        BinTableView {
            columns: column_views(self.columns@),
            nrows: self.nrows,
            row_len: self.row_len,
            main_data: self.main_data@,
            heap: self.heap@,
        }
    }
}

fn clone_columns(columns: &[BinColumn]) -> (r: Vec<BinColumn>)
    ensures
        column_views(r@) == column_views(columns@),
{
    let mut out: Vec<BinColumn> = Vec::new();
    let mut i: usize = 0;
    while i < columns.len()
        invariant
            i <= columns@.len(),
            out@.len() == i,
            forall|j: int| 0 <= j < i ==> (#[trigger] out@[j])@ == columns@[j]@,
        decreases columns@.len() - i,
    {
        out.push(columns[i].clone());
        i += 1;
    }
    assert(column_views(out@) =~= column_views(columns@));
    out
}

impl Clone for BinTable {
    fn clone(&self) -> (r: Self)
        ensures
            r@ == self@,
    {
        let r = BinTable {
            columns: clone_columns(self.columns.as_slice()),
            nrows: self.nrows,
            row_len: self.row_len,
            main_data: self.main_data.clone(),
            heap: self.heap.clone(),
        };
        assert(r.main_data@ =~= self.main_data@);
        assert(r.heap@ =~= self.heap@);
        r
    }
}

/// The bytes of all columns before `col`.
pub open spec fn column_offset(columns: Seq<BinColumnView>, col: int) -> nat
    decreases col,
{
    if col <= 0 {
        0
    } else {
        column_offset(columns, col - 1) + columns[col - 1].format.size()
    }
}

/// Where a cell's bytes start in the main data area.
pub open spec fn cell_start(t: BinTableView, row: usize, col: usize) -> int {
    row * t.row_len + column_offset(t.columns, col as int)
}

/// The bytes of a cell.
pub open spec fn cell_data(t: BinTableView, row: usize, col: usize) -> std::result::Result<
    Seq<u8>,
    ErrorView,
> {
    if row >= t.nrows || col >= t.columns.len() {
        Err(ErrorView::InvalidFormat("cell index out of bounds"@))
    } else {
        let start = cell_start(t, row, col);
        let end = start + t.columns[col as int].format.size();
        if end > t.main_data.len() {
            Err(
                ErrorView::DataSizeMismatch {
                    expected: image_data::capped(end),
                    actual: t.main_data.len() as int,
                },
            )
        } else {
            Ok(t.main_data.subrange(start, end))
        }
    }
}

/// The value in a cell of a table.
pub open spec fn table_cell(t: BinTableView, row: usize, col: usize) -> std::result::Result<
    CellView,
    ErrorView,
> {
    match cell_data(t, row, col) {
        Err(e) => Err(e),
        Ok(bytes) => cell_value(t.heap, t.columns[col as int].format, bytes),
    }
}

fn decode_truths(bytes: &[u8]) -> (r: Vec<bool>)
    ensures
        r@ == truths(bytes@),
{
    let mut out: Vec<bool> = Vec::new();
    let mut i: usize = 0;
    while i < bytes.len()
        invariant
            i <= bytes@.len(),
            out@.len() == i,
            forall|k: int| 0 <= k < i ==> out@[k] == (bytes@[k] == 0x54),
        decreases bytes@.len() - i,
    {
        out.push(bytes[i] == 0x54);
        i += 1;
    }
    assert(out@ =~= truths(bytes@));
    out
}

fn paired<T: words::BigEndian>(v: &[T]) -> (r: Vec<(T, T)>)
    ensures
        r@.len() == v@.len() / 2,
        forall|i: int|
            0 <= i < r@.len() ==> (#[trigger] r@[i]).0 == v@[2 * i] && r@[i].1 == v@[2 * i + 1],
{
    let n: usize = v.len() / 2;
    let len: usize = v.len();
    let mut out: Vec<(T, T)> = Vec::new();
    let mut i: usize = 0;
    while i < n
        invariant
            i <= n,
            n == len / 2,
            len == v@.len(),
            out@.len() == i,
            forall|k: int|
                0 <= k < i ==> (#[trigger] out@[k]).0 == v@[2 * k] && out@[k].1 == v@[2 * k + 1],
        decreases n - i,
    {
        out.push((v[2 * i], v[2 * i + 1]));
        i += 1;
    }
    out
}

fn decode_text(bytes: &[u8], place: &str) -> (r: Result<BinCellValue>)
    ensures
        match (r, cell_text(bytes@, place@)) {
            (Ok(v), Ok(w)) => v@ == w,
            (Err(e), Err(f)) => e@ == f,
            _ => false,
        },
{
    match std::str::from_utf8(bytes) {
        Ok(s) => {
            let chars: Vec<char> = text::char_vec(s);
            Ok(BinCellValue::String(text::string_from(text::trimmed_end(chars.as_slice()))))
        },
        Err(_) => Err(Error::InvalidFormat("non-UTF8 in ".to_owned().concat(place))),
    }
}

fn unsupported_element(element: char) -> (r: Error)
    ensures
        r@ == element_fault(element),
{
    let mut message = "unsupported VLA element type: ".to_owned();
    message.push(element);
    Error::InvalidTableFormat(message)
}

fn decode_array(element: char, data: &[u8]) -> (r: Result<BinCellValue>)
    ensures
        match (r, array_value(element, data@)) {
            (Ok(v), Ok(w)) => v@ == w,
            (Err(e), Err(f)) => e@ == f,
            _ => false,
        },
{
    match element {
        'L' => Ok(BinCellValue::Logical(decode_truths(data))),
        'B' => Ok(BinCellValue::Bytes(vstd::slice::slice_to_vec(data))),
        'A' => decode_text(data, "VLA char"),
        'I' => Ok(BinCellValue::I16(words::decode_vec(data))),
        'J' => Ok(BinCellValue::I32(words::decode_vec(data))),
        'K' => Ok(BinCellValue::I64(words::decode_vec(data))),
        'E' => Ok(BinCellValue::F32(words::decode_vec(data))),
        'D' => Ok(BinCellValue::F64(words::decode_vec(data))),
        _ => {
            let mut message = "unsupported VLA type: ".to_owned();
            message.push(element);
            Err(Error::InvalidTableFormat(message))
        },
    }
}

/// The end of an array, where it is a size.
fn array_end(offset: usize, count: usize, size: usize) -> (r: Option<usize>)
    ensures
        match r {
            Some(n) => n == offset + count * size,
            None => offset + count * size > usize::MAX,
        },
{
    match count.checked_mul(size) {
        Some(n) => offset.checked_add(n),
        None => None,
    }
}

/// Read variable-length array data from the heap.
fn read_heap_array(heap: &[u8], element: char, count: usize, offset: usize) -> (r: Result<
    BinCellValue,
>)
    ensures
        match (r, heap_array(heap@, element, count, offset)) {
            (Ok(v), Ok(w)) => v@ == w,
            (Err(e), Err(f)) => e@ == f,
            _ => false,
        },
{
    if count == 0 {
        assert(heap@.subrange(0, 0) =~= Seq::empty());
        return match decode_array(element, vstd::slice::slice_subrange(heap, 0, 0)) {
            Ok(v) => Ok(v),
            Err(_) => Err(unsupported_element(element)),
        };
    }
    let size: usize = match element {
        'L' | 'B' | 'A' => 1,
        'I' => 2,
        'J' | 'E' => 4,
        'K' | 'D' | 'C' => 8,
        'M' => 16,
        _ => return Err(unsupported_element(element)),
    };
    let len: usize = heap.len();
    match array_end(offset, count, size) {
        Some(end) => if end > len {
            Err(Error::DataSizeMismatch { expected: end, actual: len })
        } else {
            assert(count * size >= 0) by (nonlinear_arith)
                requires
                    count >= 0,
                    size >= 0,
            ;
            decode_array(element, vstd::slice::slice_subrange(heap, offset, end))
        },
        None => Err(Error::DataSizeMismatch { expected: usize::MAX, actual: len }),
    }
}

impl BinTable {
    /// Get the byte offset of a column within a row, where it is a size.
    fn column_offset(&self, col: usize) -> (r: Option<usize>)
        requires
            col <= self@.columns.len(),
        ensures
            match r {
                Some(n) => n == column_offset(self@.columns, col as int),
                None => column_offset(self@.columns, col as int) > usize::MAX,
            },
    {
        let mut sum: usize = 0;
        let mut i: usize = 0;
        let len: usize = self.columns.len();
        while i < col
            invariant
                i <= col <= len,
                len == self@.columns.len(),
                len == self.columns@.len(),
                sum == column_offset(self@.columns, i as int),
            decreases col - i,
        {
            let size: Option<usize> = self.columns[i].format.checked_size();
            let next: Option<usize> = match size {
                Some(n) => sum.checked_add(n),
                None => None,
            };
            match next {
                Some(n) => {
                    sum = n;
                },
                None => {
                    proof {
                        lemma_offset_grows(self@.columns, i + 1, col as int);
                    }
                    return None;
                },
            }
            i += 1;
        }
        Some(sum)
    }

    /// Where a cell's bytes start and end, where these are sizes.
    fn cell_span(&self, row: usize, col: usize) -> (r: Option<(usize, usize)>)
        requires
            col < self@.columns.len(),
        ensures
            match r {
                Some((start, end)) => start == cell_start(self@, row, col) && end == start
                    + self@.columns[col as int].format.size(),
                None => cell_start(self@, row, col) + self@.columns[col as int].format.size()
                    > usize::MAX,
            },
    {
        let start: Option<usize> = match (row.checked_mul(self.row_len), self.column_offset(col)) {
            (Some(a), Some(b)) => a.checked_add(b),
            _ => None,
        };
        assert(row * self.row_len >= 0) by (nonlinear_arith)
            requires
                row >= 0,
                self.row_len >= 0,
        ;
        match (start, self.columns[col].format.checked_size()) {
            (Some(a), Some(n)) => match a.checked_add(n) {
                Some(end) => Some((a, end)),
                None => None,
            },
            _ => None,
        }
    }

    /// Get the raw bytes for a cell.
    pub fn cell_bytes(&self, row: usize, col: usize) -> (r: Result<&[u8]>)
        ensures
            match (r, cell_data(self@, row, col)) {
                (Ok(v), Ok(w)) => v@ == w,
                (Err(e), Err(f)) => e@ == f,
                _ => false,
            },
    {
        if row >= self.nrows || col >= self.columns.len() {
            return Err(Error::InvalidFormat("cell index out of bounds".to_owned()));
        }
        let len: usize = self.main_data.len();
        match self.cell_span(row, col) {
            Some((start, end)) => if end > len {
                Err(Error::DataSizeMismatch { expected: end, actual: len })
            } else {
                Ok(vstd::slice::slice_subrange(self.main_data.as_slice(), start, end))
            },
            None => Err(Error::DataSizeMismatch { expected: usize::MAX, actual: len }),
        }
    }

    /// Read a cell and decode it into a typed value.
    pub fn get_cell(&self, row: usize, col: usize) -> (r: Result<BinCellValue>)
        ensures
            match (r, table_cell(self@, row, col)) {
                (Ok(v), Ok(w)) => v@ == w,
                (Err(e), Err(f)) => e@ == f,
                _ => false,
            },
    {
        let bytes = match self.cell_bytes(row, col) {
            Ok(b) => b,
            Err(e) => return Err(e),
        };
        match self.columns[col].format {
            BinColumnType::Logical(_) => Ok(BinCellValue::Logical(decode_truths(bytes))),
            BinColumnType::Bit(n) => Ok(BinCellValue::Bits(vstd::slice::slice_to_vec(bytes), n)),
            BinColumnType::Byte(_) => Ok(BinCellValue::Bytes(vstd::slice::slice_to_vec(bytes))),
            BinColumnType::I16(_) => Ok(BinCellValue::I16(words::decode_vec(bytes))),
            BinColumnType::J32(_) => Ok(BinCellValue::I32(words::decode_vec(bytes))),
            BinColumnType::K64(_) => Ok(BinCellValue::I64(words::decode_vec(bytes))),
            BinColumnType::Char(_) => decode_text(bytes, "char column"),
            BinColumnType::E32(_) => Ok(BinCellValue::F32(words::decode_vec(bytes))),
            BinColumnType::D64(_) => Ok(BinCellValue::F64(words::decode_vec(bytes))),
            BinColumnType::C64(_) => {
                let flat: Vec<u32> = words::decode_vec(bytes);
                let v: Vec<(u32, u32)> = paired(flat.as_slice());
                let cell = BinCellValue::ComplexF32(v);
                assert(cell@ =~= CellView::ComplexF32(
                    pairs(words::words_decoded(false, 4, bytes@)),
                ));
                Ok(cell)
            },
            BinColumnType::M128(_) => {
                let flat: Vec<u64> = words::decode_vec(bytes);
                let v: Vec<(u64, u64)> = paired(flat.as_slice());
                let cell = BinCellValue::ComplexF64(v);
                assert(cell@ =~= CellView::ComplexF64(
                    pairs(words::words_decoded(false, 8, bytes@)),
                ));
                Ok(cell)
            },
            BinColumnType::VarP(element) => {
                // P descriptor: 2 × i32 (count, offset)
                let count: usize = casts::usize_of_i64(bigendian::read_be_signed(bytes, 0, 4));
                let offset: usize = casts::usize_of_i64(bigendian::read_be_signed(bytes, 4, 4));
                read_heap_array(self.heap.as_slice(), element, count, offset)
            },
            BinColumnType::VarQ(element) => {
                // Q descriptor: 2 × i64 (count, offset)
                let count: usize = casts::usize_of_i64(bigendian::read_be_signed(bytes, 0, 8));
                let offset: usize = casts::usize_of_i64(bigendian::read_be_signed(bytes, 8, 8));
                read_heap_array(self.heap.as_slice(), element, count, offset)
            },
        }
    }

    /// Get the serialized data bytes (main table + heap).
    pub fn to_bytes(&self) -> (r: Vec<u8>)
        ensures
            r@ == self@.main_data + self@.heap,
    {
        let mut out: Vec<u8> = Vec::new();
        out.extend_from_slice(self.main_data.as_slice());
        out.extend_from_slice(self.heap.as_slice());
        assert(out@ =~= self@.main_data + self@.heap);
        out
    }
}

proof fn lemma_offset_grows(columns: Seq<BinColumnView>, a: int, b: int)
    requires
        0 <= a <= b,
    ensures
        column_offset(columns, a) <= column_offset(columns, b),
    decreases b,
{
    if a < b {
        lemma_offset_grows(columns, a, b - 1);
    }
}

/// Column `i` (from one) as a header describes it.
pub open spec fn column_of(h: Seq<KeywordView>, i: nat) -> std::result::Result<
    BinColumnView,
    ErrorView,
> {
    let n = text::decimal(i as int);
    match header::string_of(h, "TFORM"@ + n) {
        None => Err(ErrorView::MissingKeyword("TFORM"@ + n)),
        Some(form) => match format_of(form) {
            None => Err(format_fault(form)),
            Some(format) => Ok(
                BinColumnView {
                    name: match header::string_of(h, "TTYPE"@ + n) {
                        Some(name) => name,
                        None => Seq::empty(),
                    },
                    format,
                    tscal: number::unless_one(header::float_of(h, "TSCAL"@ + n)),
                    tzero: number::unless_zero(header::float_of(h, "TZERO"@ + n)),
                    tunit: header::string_of(h, "TUNIT"@ + n),
                },
            ),
        },
    }
}

/// The columns from `i` on.
pub open spec fn columns_from(h: Seq<KeywordView>, i: nat, tfields: nat) -> std::result::Result<
    Seq<BinColumnView>,
    ErrorView,
>
    decreases tfields + 1 - i,
{
    if i > tfields {
        Ok(Seq::empty())
    } else {
        match column_of(h, i) {
            Err(e) => Err(e),
            Ok(c) => match columns_from(h, i + 1, tfields) {
                Err(e) => Err(e),
                Ok(t) => Ok(seq![c] + t),
            },
        }
    }
}

/// The heap behind the main data area: PCOUNT bytes, where they are all there.
pub open spec fn heap_of(data: Seq<u8>, main_size: int, pcount: int) -> Seq<u8> {
    if pcount > 0 && data.len() >= main_size + pcount {
        data.subrange(main_size, main_size + pcount)
    } else {
        Seq::empty()
    }
}

/// The binary table that a header and raw data (with the heap) describe.
pub open spec fn table_of(h: Seq<KeywordView>, data: Seq<u8>) -> std::result::Result<
    BinTableView,
    ErrorView,
> {
    match (
        header::required_int(h, "NAXIS2"@),
        header::required_int(h, "NAXIS1"@),
        header::required_int(h, "TFIELDS"@),
    ) {
        (Err(e), _, _) => Err(e),
        (_, Err(e), _) => Err(e),
        (_, _, Err(e)) => Err(e),
        (Ok(naxis2), Ok(naxis1), Ok(tfields)) => {
            let nrows = casts::size_of(naxis2);
            let row_len = casts::size_of(naxis1);
            let pcount = casts::size_of(header::int_or(h, "PCOUNT"@, 0)) as int;
            let main_size = nrows * row_len;
            if data.len() < main_size {
                Err(
                    ErrorView::DataSizeMismatch {
                        expected: image_data::capped(main_size),
                        actual: data.len() as int,
                    },
                )
            } else {
                match columns_from(h, 1, casts::size_of(tfields) as nat) {
                    Err(e) => Err(e),
                    Ok(columns) => Ok(
                        BinTableView {
                            columns,
                            nrows,
                            row_len,
                            main_data: data.take(main_size),
                            heap: heap_of(data, main_size, pcount),
                        },
                    ),
                }
            }
        },
    }
}

/// A keyword with a text value set, where there is a text.
pub open spec fn with_text(h: Seq<KeywordView>, name: Seq<char>, value: Option<Seq<char>>) -> Seq<
    KeywordView,
> {
    match value {
        Some(s) => header::with_set(h, name, ValueView::Text(s), None),
        None => h,
    }
}

/// A keyword with a floating-point value set, where there is a number.
pub open spec fn with_real(h: Seq<KeywordView>, name: Seq<char>, value: Option<Seq<char>>) -> Seq<
    KeywordView,
> {
    match value {
        Some(s) => header::with_set(h, name, ValueView::Float(s), None),
        None => h,
    }
}

/// The list of keywords with those of column `i` (from one) set.
pub open spec fn with_column(h: Seq<KeywordView>, c: BinColumnView, i: int) -> Seq<KeywordView> {
    let n = text::decimal(i);
    let named = with_text(h, "TTYPE"@ + n, Some(c.name));
    let formed = with_text(named, "TFORM"@ + n, Some(c.format.tform()));
    with_text(
        with_real(
            with_real(formed, "TSCAL"@ + n, number::unless_one(c.tscal)),
            "TZERO"@ + n,
            number::unless_zero(c.tzero),
        ),
        "TUNIT"@ + n,
        c.tunit,
    )
}

/// The list of keywords with those of all columns set.
pub open spec fn with_columns(h: Seq<KeywordView>, columns: Seq<BinColumnView>) -> Seq<KeywordView>
    decreases columns.len(),
{
    if columns.len() == 0 {
        h
    } else {
        with_column(
            with_columns(h, columns.drop_last()),
            columns.last(),
            columns.len() as int,
        )
    }
}

/// A keyword with an integer value set.
pub open spec fn with_int(h: Seq<KeywordView>, name: Seq<char>, value: int) -> Seq<KeywordView> {
    header::with_set(h, name, ValueView::Integer(value), None)
}

/// The list of keywords with those of a table set, apart from its columns.
pub open spec fn with_layout(
    h: Seq<KeywordView>,
    extension: Seq<char>,
    comment: Seq<char>,
    row_len: usize,
    nrows: usize,
    pcount: int,
    tfields: int,
) -> Seq<KeywordView> {
    let h0 = header::with_set(h, "XTENSION"@, ValueView::Text(extension), Some(comment));
    let h1 = with_int(with_int(h0, "BITPIX"@, 8), "NAXIS"@, 2);
    let h2 = with_int(h1, "NAXIS1"@, (row_len as i64) as int);
    let h3 = with_int(h2, "NAXIS2"@, (nrows as i64) as int);
    with_int(with_int(with_int(h3, "PCOUNT"@, pcount), "GCOUNT"@, 1), "TFIELDS"@, tfields)
}

/// The list of keywords with those of a binary table set.
pub open spec fn with_table(h: Seq<KeywordView>, t: BinTableView) -> Seq<KeywordView> {
    with_columns(
        with_layout(
            h,
            "BINTABLE"@,
            "binary table extension"@,
            t.row_len,
            t.nrows,
            ((t.heap.len() as usize) as i64) as int,
            ((t.columns.len() as usize) as i64) as int,
        ),
        t.columns,
    )
}

/// Set the keywords of a table, apart from its columns.
pub(crate) fn set_layout(
    header: &mut Header,
    extension: &str,
    comment: &str,
    row_len: usize,
    nrows: usize,
    pcount: usize,
    tfields: usize,
)
    ensures
        final(header)@ == with_layout(
            old(header)@,
            extension@,
            comment@,
            row_len,
            nrows,
            (pcount as i64) as int,
            (tfields as i64) as int,
        ),
{
    header.set("XTENSION", HeaderValue::String(extension.to_owned()), Some(comment));
    header.set("BITPIX", HeaderValue::Integer(8), None);
    header.set("NAXIS", HeaderValue::Integer(2), None);
    header.set("NAXIS1", HeaderValue::Integer(row_len as i64), None);
    header.set("NAXIS2", HeaderValue::Integer(nrows as i64), None);
    header.set("PCOUNT", HeaderValue::Integer(pcount as i64), None);
    header.set("GCOUNT", HeaderValue::Integer(1), None);
    header.set("TFIELDS", HeaderValue::Integer(tfields as i64), None);
}

/// Set a keyword's text, where there is one.
pub(crate) fn set_text(header: &mut Header, name: &str, value: &Option<String>)
    ensures
        final(header)@ == with_text(old(header)@, name@, keyword::text_of(*value)),
{
    match value {
        Some(s) => header.set(name, HeaderValue::String(s.clone()), None),
        None => {},
    }
}

/// Set a keyword's number, where there is one other than one.
pub(crate) fn set_scale(header: &mut Header, name: &str, value: &Option<Real>)
    ensures
        final(header)@ == with_real(old(header)@, name@, number::unless_one(real_of(*value))),
{
    match value {
        Some(x) => if !x.is_one() {
            header.set(name, HeaderValue::Float(x.clone()), None)
        },
        None => {},
    }
}

/// Set a keyword's number, where there is one other than zero.
pub(crate) fn set_zero(header: &mut Header, name: &str, value: &Option<Real>)
    ensures
        final(header)@ == with_real(old(header)@, name@, number::unless_zero(real_of(*value))),
{
    match value {
        Some(x) => if !x.is_zero() {
            header.set(name, HeaderValue::Float(x.clone()), None)
        },
        None => {},
    }
}

/// A keyword's number, where there is one other than one.
pub(crate) fn scale_in(header: &Header, name: &str) -> (r: Option<Real>)
    ensures
        real_of(r) == number::unless_one(header::float_of(header@, name@)),
{
    match header.get_float(name) {
        Some(x) => if x.is_one() {
            None
        } else {
            Some(x)
        },
        None => None,
    }
}

/// A keyword's number, where there is one other than zero.
pub(crate) fn zero_in(header: &Header, name: &str) -> (r: Option<Real>)
    ensures
        real_of(r) == number::unless_zero(header::float_of(header@, name@)),
{
    match header.get_float(name) {
        Some(x) => if x.is_zero() {
            None
        } else {
            Some(x)
        },
        None => None,
    }
}

/// A copy of a keyword's text, where there is one.
pub(crate) fn text_in(header: &Header, name: &str) -> (r: Option<String>)
    ensures
        keyword::text_of(r) == header::string_of(header@, name@),
{
    match header.get_string(name) {
        Some(s) => Some(s.to_owned()),
        None => None,
    }
}

/// A copy of a keyword's text, or no text.
pub(crate) fn name_in(header: &Header, name: &str) -> (r: String)
    ensures
        r@ == match header::string_of(header@, name@) {
            Some(s) => s,
            None => Seq::empty(),
        },
{
    match header.get_string(name) {
        Some(s) => s.to_owned(),
        None => String::new(),
    }
}

fn read_column(header: &Header, i: usize) -> (r: Result<BinColumn>)
    ensures
        match (r, column_of(header@, i as nat)) {
            (Ok(v), Ok(w)) => v@ == w,
            (Err(e), Err(f)) => e@ == f,
            _ => false,
        },
{
    let key: String = text::numbered("TFORM", i);
    let form: &str = match header.get_string(key.as_str()) {
        Some(s) => s,
        None => return Err(Error::MissingKeyword(key)),
    };
    let format: BinColumnType = match BinColumnType::parse(form) {
        Ok(f) => f,
        Err(e) => return Err(e),
    };
    Ok(
        BinColumn {
            name: name_in(header, text::numbered("TTYPE", i).as_str()),
            format,
            tscal: scale_in(header, text::numbered("TSCAL", i).as_str()),
            tzero: zero_in(header, text::numbered("TZERO", i).as_str()),
            tunit: text_in(header, text::numbered("TUNIT", i).as_str()),
        },
    )
}

fn read_columns(header: &Header, tfields: usize) -> (r: Result<Vec<BinColumn>>)
    ensures
        match (r, columns_from(header@, 1, tfields as nat)) {
            (Ok(v), Ok(w)) => column_views(v@) == w,
            (Err(e), Err(f)) => e@ == f,
            _ => false,
        },
{
    let mut columns: Vec<BinColumn> = Vec::new();
    let mut i: usize = 0;
    let ghost whole = columns_from(header@, 1, tfields as nat);
    proof {
        match whole {
            Ok(t) => {
                assert(column_views(columns@) + t =~= t);
            },
            Err(_) => {},
        }
    }
    while i < tfields
        invariant
            i <= tfields,
            whole == columns_from(header@, 1, tfields as nat),
            whole == (match columns_from(header@, (i + 1) as nat, tfields as nat) {
                Err(e) => Err(e),
                Ok(t) => Ok::<Seq<BinColumnView>, ErrorView>(column_views(columns@) + t),
            }),
        decreases tfields - i,
    {
        let c: BinColumn = match read_column(header, i + 1) {
            Ok(c) => c,
            Err(e) => return Err(e),
        };
        let ghost before = columns@;
        let ghost v = c@;
        columns.push(c);
        proof {
            match columns_from(header@, (i + 2) as nat, tfields as nat) {
                Ok(t) => {
                    assert(column_views(before) + (seq![v] + t) =~= column_views(columns@) + t);
                },
                Err(_) => {},
            }
        }
        i += 1;
    }
    assert(column_views(columns@) + Seq::<BinColumnView>::empty() =~= column_views(columns@));
    Ok(columns)
}

impl BinTable {
    /// Read from header and raw data (including heap).
    pub fn from_header_and_data(header: &Header, data: &[u8]) -> (r: Result<Self>)
        ensures
            match (r, table_of(header@, data@)) {
                (Ok(v), Ok(w)) => v@ == w,
                (Err(e), Err(f)) => e@ == f,
                _ => false,
            },
    {
        let nrows: usize = match header.require_int("NAXIS2") {
            Ok(n) => casts::usize_of_i64(n),
            Err(e) => return Err(e),
        };
        let row_len: usize = match header.require_int("NAXIS1") {
            Ok(n) => casts::usize_of_i64(n),
            Err(e) => return Err(e),
        };
        let tfields: usize = match header.require_int("TFIELDS") {
            Ok(n) => casts::usize_of_i64(n),
            Err(e) => return Err(e),
        };
        let pcount: usize = casts::usize_of_i64(header.int_or("PCOUNT", 0));
        let len: usize = data.len();
        let main_size: usize = match nrows.checked_mul(row_len) {
            Some(n) => n,
            None => {
                return Err(Error::DataSizeMismatch { expected: usize::MAX, actual: len });
            },
        };
        if len < main_size {
            return Err(Error::DataSizeMismatch { expected: main_size, actual: len });
        }
        let columns: Vec<BinColumn> = match read_columns(header, tfields) {
            Ok(c) => c,
            Err(e) => return Err(e),
        };
        let main_data: Vec<u8> = vstd::slice::slice_to_vec(
            vstd::slice::slice_subrange(data, 0, main_size),
        );
        assert(main_data@ =~= data@.take(main_size as int));
        let heap: Vec<u8> = if pcount > 0 && len - main_size >= pcount {
            vstd::slice::slice_to_vec(
                vstd::slice::slice_subrange(data, main_size, main_size + pcount),
            )
        } else {
            Vec::new()
        };
        assert(heap@ =~= heap_of(data@, main_size as int, pcount as int));
        Ok(BinTable { columns, nrows, row_len, main_data, heap })
    }

    /// Populate header keywords for this binary table.
    pub fn fill_header(&self, header: &mut Header)
        ensures
            final(header)@ == with_table(old(header)@, self@),
    {
        let heap_len: usize = self.heap.len();
        let tfields: usize = self.columns.len();
        set_layout(
            header,
            "BINTABLE",
            "binary table extension",
            self.row_len,
            self.nrows,
            heap_len,
            tfields,
        );
        let ghost start = header@;
        let ghost all = self@.columns;
        let mut i: usize = 0;
        assert(all.take(0) =~= Seq::empty());
        while i < tfields
            invariant
                i <= tfields,
                tfields == self.columns@.len(),
                all == column_views(self.columns@),
                header@ == with_columns(start, all.take(i as int)),
            decreases tfields - i,
        {
            let col: &BinColumn = &self.columns[i];
            i += 1;
            header.set(
                text::numbered("TTYPE", i).as_str(),
                HeaderValue::String(col.name.clone()),
                None,
            );
            header.set(
                text::numbered("TFORM", i).as_str(),
                HeaderValue::String(col.format.to_tform_string()),
                None,
            );
            set_scale(header, text::numbered("TSCAL", i).as_str(), &col.tscal);
            set_zero(header, text::numbered("TZERO", i).as_str(), &col.tzero);
            set_text(header, text::numbered("TUNIT", i).as_str(), &col.tunit);
            assert(all.take(i as int).drop_last() =~= all.take(i - 1));
            assert(all.take(i as int).last() == col@);
        }
        assert(all.take(i as int) =~= all);
    }
}

/// A row's bytes cut or filled up with zeros to the row length.
pub open spec fn row_bytes(data: Seq<u8>, row_len: nat) -> Seq<u8> {
    Seq::new(
        row_len,
        |i: int|
            if i < data.len() {
                data[i]
            } else {
                0
            },
    )
}

/// The table that a row pushed onto a table gives.
pub open spec fn with_row(t: BinTableView, data: Seq<u8>, heap: Seq<u8>) -> BinTableView {
    BinTableView {
        nrows: (t.nrows + 1) as usize,
        main_data: t.main_data + row_bytes(data, t.row_len as nat),
        heap,
        ..t
    }
}

/// Writes cell values into a single binary table row.
pub struct RowWriter {
    data: Vec<u8>,
    heap: Vec<u8>,
}

impl RowWriter {
    /// The bytes written to the row so far.
    pub closed spec fn row(self) -> Seq<u8> {
        self.data@
    }

    /// The heap so far.
    pub closed spec fn heap(self) -> Seq<u8> {
        self.heap@
    }

    pub fn write_bool(&mut self, val: bool)
        ensures
            final(self).row() == old(self).row().push(
                if val {
                    0x54u8
                } else {
                    0x46u8
                },
            ),
            final(self).heap() == old(self).heap(),
    {
        self.data.push(
            if val {
                0x54
            } else {
                0x46
            },
        );
    }

    pub fn write_u8(&mut self, val: u8)
        ensures
            final(self).row() == old(self).row().push(val),
            final(self).heap() == old(self).heap(),
    {
        self.data.push(val);
    }

    pub fn write_i16(&mut self, val: i16)
        ensures
            final(self).row() == old(self).row() + bigendian::be_signed_digits(val as int, 2),
            final(self).heap() == old(self).heap(),
    {
        bigendian::push_be_signed(&mut self.data, val as i64, 2);
    }

    pub fn write_i32(&mut self, val: i32)
        ensures
            final(self).row() == old(self).row() + bigendian::be_signed_digits(val as int, 4),
            final(self).heap() == old(self).heap(),
    {
        bigendian::push_be_signed(&mut self.data, val as i64, 4);
    }

    pub fn write_i64(&mut self, val: i64)
        ensures
            final(self).row() == old(self).row() + bigendian::be_signed_digits(val as int, 8),
            final(self).heap() == old(self).heap(),
    {
        bigendian::push_be_signed(&mut self.data, val, 8);
    }

    /// Write a 32-bit floating-point value by its bit pattern.
    pub fn write_f32(&mut self, bits: u32)
        ensures
            final(self).row() == old(self).row() + bigendian::be_digits(bits as nat, 4),
            final(self).heap() == old(self).heap(),
    {
        bigendian::push_be(&mut self.data, bits as u64, 4);
    }

    /// Write a 64-bit floating-point value by its bit pattern.
    pub fn write_f64(&mut self, bits: u64)
        ensures
            final(self).row() == old(self).row() + bigendian::be_digits(bits as nat, 8),
            final(self).heap() == old(self).heap(),
    {
        bigendian::push_be(&mut self.data, bits, 8);
    }

    /// Write a fixed-length ASCII string, padded with spaces to `len` bytes.
    pub fn write_string(&mut self, val: &str, len: usize)
        ensures
            final(self).row() == old(self).row() + keyword::fixed(
                text::bytes_of(val@),
                len as nat,
            ),
            final(self).heap() == old(self).heap(),
    {
        let bytes = val.as_bytes();
        let ghost before = self.data@;
        let mut i: usize = 0;
        while i < len
            invariant
                i <= len,
                bytes@ == text::bytes_of(val@),
                self.heap@ == old(self).heap@,
                self.data@ == before + keyword::fixed(bytes@, i as nat),
            decreases len - i,
        {
            if i < bytes.len() {
                self.data.push(bytes[i]);
            } else {
                self.data.push(0x20);
            }
            i += 1;
            assert(self.data@ =~= before + keyword::fixed(bytes@, i as nat));
        }
        assert(self.data@ =~= before + keyword::fixed(bytes@, len as nat));
    }

    /// Write a variable-length array using a P descriptor (2×i32: count, heap offset).
    /// The data is appended to the heap. `data_fn` writes the element bytes.
    pub fn write_var_p<F: FnOnce(&mut Vec<u8>)>(&mut self, count: i32, data_fn: F)
        requires
            forall|heap: &mut Vec<u8>|
                heap@ == old(self).heap() ==> #[trigger] call_requires(data_fn, (heap,)),
        ensures
            final(self).row() == old(self).row() + bigendian::be_signed_digits(count as int, 4)
                + bigendian::be_digits(old(self).heap().len(), 4),
            exists|heap: &mut Vec<u8>|
                #[trigger] call_ensures(data_fn, (heap,), ()) && heap@ == old(self).heap()
                    && final(heap)@ == final(self).heap(),
    {
        bigendian::push_be_signed(&mut self.data, count as i64, 4);
        let offset: usize = self.heap.len();
        bigendian::push_be(&mut self.data, offset as u64, 4);
        let heap = &mut self.heap;
        data_fn(heap);
    }

    /// Write raw bytes directly.
    pub fn write_bytes(&mut self, bytes: &[u8])
        ensures
            final(self).row() == old(self).row() + bytes@,
            final(self).heap() == old(self).heap(),
    {
        self.data.extend_from_slice(bytes);
        assert(self.data@ =~= old(self).data@ + bytes@);
    }
}

/// Builder for constructing a `BinTable` row by row.
pub struct BinTableBuilder {
    table: BinTable,
}

impl View for BinTableBuilder {
    type V = BinTableView;

    closed spec fn view(&self) -> BinTableView {
        self.table@
    }
}

impl BinTableBuilder {
    pub fn new() -> (r: Self)
        ensures
            r@ == (BinTableView {
                columns: Seq::empty(),
                nrows: 0,
                row_len: 0,
                main_data: Seq::empty(),
                heap: Seq::empty(),
            }),
    {
        let table = BinTable {
            columns: Vec::new(),
            nrows: 0,
            row_len: 0,
            main_data: Vec::new(),
            heap: Vec::new(),
        };
        assert(table@.columns =~= Seq::empty());
        BinTableBuilder { table }
    }

    /// Add a column with default TSCAL=1, TZERO=0, no unit.
    pub fn add_column(self, name: &str, format: BinColumnType) -> (r: Self)
        requires
            self@.row_len + format.size() <= usize::MAX,
        ensures
            r@ == (BinTableView {
                columns: self@.columns.push(
                    BinColumnView { name: name@, format, tscal: None, tzero: None, tunit: None },
                ),
                row_len: (self@.row_len + format.size()) as usize,
                ..self@
            }),
    {
        self.add_column_full(name, format, None, None, None)
    }

    /// Add a column with full metadata.
    pub fn add_column_full(
        self,
        name: &str,
        format: BinColumnType,
        tscal: Option<Real>,
        tzero: Option<Real>,
        tunit: Option<&str>,
    ) -> (r: Self)
        requires
            self@.row_len + format.size() <= usize::MAX,
        ensures
            r@ == (BinTableView {
                columns: self@.columns.push(
                    BinColumnView {
                        name: name@,
                        format,
                        tscal: real_of(tscal),
                        tzero: real_of(tzero),
                        tunit: keyword::str_of(tunit),
                    },
                ),
                row_len: (self@.row_len + format.size()) as usize,
                ..self@
            }),
    {
        let mut table = self.table;
        let ghost before = table@.columns;
        table.row_len = table.row_len + format.byte_size();
        let column = BinColumn {
            name: name.to_owned(),
            format,
            tscal,
            tzero,
            tunit: match tunit {
                Some(s) => Some(s.to_owned()),
                None => None,
            },
        };
        let ghost c = column@;
        table.columns.push(column);
        assert(table@.columns =~= before.push(c));
        BinTableBuilder { table }
    }

    /// Append a row using a closure that writes cell values via a [`RowWriter`].
    pub fn push_row<F: FnOnce(&mut RowWriter)>(self, f: F) -> (r: Self)
        requires
            self@.nrows < usize::MAX,
            forall|w: &mut RowWriter|
                w.row() == Seq::<u8>::empty() && w.heap() == self@.heap ==> #[trigger] call_requires(
                    f,
                    (w,),
                ),
        ensures
            exists|w: &mut RowWriter|
                #[trigger] call_ensures(f, (w,), ()) && w.row() == Seq::<u8>::empty() && w.heap()
                    == self@.heap && r@ == with_row(self@, final(w).row(), final(w).heap()),
    {
        let mut table = self.table;
        let ghost before = table.main_data@;
        let mut writer = RowWriter { data: Vec::new(), heap: table.heap };
        let w = &mut writer;
        assert(w.row() =~= Seq::empty());
        f(w);
        // Pad row to row_len if the closure wrote fewer bytes
        let ghost written = writer.data@;
        writer.data.resize(table.row_len, 0);
        assert(writer.data@ =~= row_bytes(written, table.row_len as nat));
        table.main_data.extend_from_slice(writer.data.as_slice());
        assert(table.main_data@ =~= before + row_bytes(written, table.row_len as nat));
        table.heap = writer.heap;
        table.nrows = table.nrows + 1;
        BinTableBuilder { table }
    }

    /// Consume the builder and produce a `BinTable`.
    pub fn build(self) -> (r: BinTable)
        ensures
            r@ == self@,
    {
        self.table
    }
}

impl Default for BinTableBuilder {
    fn default() -> (r: Self)
        ensures
            r@ == (BinTableView {
                columns: Seq::empty(),
                nrows: 0,
                row_len: 0,
                main_data: Seq::empty(),
                heap: Seq::empty(),
            }),
    {
        BinTableBuilder::new()
    }
}

/// The bytes of a pushed row's cells are those written to the row, and the cells of
/// earlier rows keep their bytes.
pub proof fn pushed_row_cells(t: BinTableView, data: Seq<u8>, heap: Seq<u8>, col: usize)
    requires
        t.nrows < usize::MAX,
        t.main_data.len() == t.nrows * t.row_len,
        col < t.columns.len(),
        column_offset(t.columns, col as int) + t.columns[col as int].format.size() <= t.row_len,
    ensures
        cell_data(with_row(t, data, heap), t.nrows, col) == Ok::<Seq<u8>, ErrorView>(
            row_bytes(data, t.row_len as nat).subrange(
                column_offset(t.columns, col as int) as int,
                (column_offset(t.columns, col as int) + t.columns[col as int].format.size()) as int,
            ),
        ),
        forall|row: usize|
            row < t.nrows ==> #[trigger] cell_data(with_row(t, data, heap), row, col) == cell_data(
                t,
                row,
                col,
            ),
{
    let u = with_row(t, data, heap);
    let a = column_offset(t.columns, col as int);
    let b = a + t.columns[col as int].format.size();
    let whole = row_bytes(data, t.row_len as nat);
    let base = t.nrows * t.row_len;
    assert(u.main_data.subrange(base + a, base + b) =~= whole.subrange(a as int, b as int));
    assert forall|row: usize| row < t.nrows implies #[trigger] cell_data(u, row, col) == cell_data(
        t,
        row,
        col,
    ) by {
        let start = row * t.row_len;
        assert(0 <= start && start + t.row_len <= base) by (nonlinear_arith)
            requires
                row < t.nrows,
                t.row_len >= 0,
                start == row * t.row_len,
                base == t.nrows * t.row_len,
        ;
        assert(u.main_data.subrange(start + a, start + b) =~= t.main_data.subrange(
            start + a,
            start + b,
        ));
    }
}

/// A cell of numbers is read back from the bytes of the numbers.
pub proof fn number_cells_round_trip(heap: Seq<u8>, values: Seq<int>, n: usize)
    ensures
        (forall|i: int| 0 <= i < values.len() ==> words::word_holds(true, 2, #[trigger] values[i]))
            ==> cell_value(heap, BinColumnType::I16(n), words::words_encoded(true, 2, values))
            == Ok::<CellView, ErrorView>(CellView::I16(values)),
        (forall|i: int| 0 <= i < values.len() ==> words::word_holds(true, 4, #[trigger] values[i]))
            ==> cell_value(heap, BinColumnType::J32(n), words::words_encoded(true, 4, values))
            == Ok::<CellView, ErrorView>(CellView::I32(values)),
        (forall|i: int| 0 <= i < values.len() ==> words::word_holds(true, 8, #[trigger] values[i]))
            ==> cell_value(heap, BinColumnType::K64(n), words::words_encoded(true, 8, values))
            == Ok::<CellView, ErrorView>(CellView::I64(values)),
        (forall|i: int| 0 <= i < values.len() ==> words::word_holds(false, 4, #[trigger] values[i]))
            ==> cell_value(heap, BinColumnType::E32(n), words::words_encoded(false, 4, values))
            == Ok::<CellView, ErrorView>(CellView::F32(values)),
        (forall|i: int| 0 <= i < values.len() ==> words::word_holds(false, 8, #[trigger] values[i]))
            ==> cell_value(heap, BinColumnType::D64(n), words::words_encoded(false, 8, values))
            == Ok::<CellView, ErrorView>(CellView::F64(values)),
{
    if forall|i: int| 0 <= i < values.len() ==> words::word_holds(true, 2, #[trigger] values[i]) {
        words::words_round_trip(true, 2, values);
    }
    if forall|i: int| 0 <= i < values.len() ==> words::word_holds(true, 4, #[trigger] values[i]) {
        words::words_round_trip(true, 4, values);
    }
    if forall|i: int| 0 <= i < values.len() ==> words::word_holds(true, 8, #[trigger] values[i]) {
        words::words_round_trip(true, 8, values);
    }
    if forall|i: int| 0 <= i < values.len() ==> words::word_holds(false, 4, #[trigger] values[i]) {
        words::words_round_trip(false, 4, values);
    }
    if forall|i: int| 0 <= i < values.len() ==> words::word_holds(false, 8, #[trigger] values[i]) {
        words::words_round_trip(false, 8, values);
    }
}

/// A variable-length array that was appended to the heap, with its descriptor
/// written to the row, is read back.
pub proof fn variable_array_round_trip(before: Seq<u8>, data: Seq<u8>, element: char, count: i32)
    requires
        count > 0,
        before.len() <= i32::MAX,
        element_size(element) is Some,
        data.len() == count * element_size(element)->0,
    ensures
        cell_value(
            before + data,
            BinColumnType::VarP(element),
            bigendian::be_signed_digits(count as int, 4) + bigendian::be_digits(before.len(), 4),
        ) == array_value(element, data),
{
    let a = bigendian::be_signed_digits(count as int, 4);
    let b = bigendian::be_digits(before.len(), 4);
    let offset = before.len() as int;
    bigendian::lemma_byte_powers();
    bigendian::lemma_be_digits_len((count as int % 0x1_0000_0000) as nat, 4);
    bigendian::lemma_be_digits_len(before.len(), 4);
    bigendian::be_signed_round_trip(count as int, 4);
    bigendian::be_signed_round_trip(offset, 4);
    vstd::arithmetic::div_mod::lemma_small_mod(before.len(), 0x1_0000_0000);
    assert((a + b).subrange(0, 4) =~= a);
    assert((a + b).subrange(4, 8) =~= b);
    assert((before + data).subrange(offset, offset + data.len()) =~= data);
}

/// The heap is what stands behind the rows, as many bytes as PCOUNT says; there is none where
/// they are not all there.
pub proof fn heap_behind_rows(rows: Seq<u8>, heap: Seq<u8>, after: Seq<u8>, missing: nat)
    ensures
        heap_of(rows + heap + after, rows.len() as int, heap.len() as int) == heap,
        missing > 0 ==> heap_of(rows + heap, rows.len() as int, (heap.len() + missing) as int).len()
            == 0,
{
    let all = rows + heap + after;
    assert(all.subrange(rows.len() as int, (rows.len() + heap.len()) as int) =~= heap);
    assert(heap.len() == 0 ==> heap =~= Seq::empty());
}

} // verus!
