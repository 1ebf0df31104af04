//! Header keywords and their 80-byte card images.
use crate::error::{Error, ErrorView, Result};
use crate::number;
use crate::number::Real;
use crate::text;
use vstd::prelude::*;
use vstd::utf8::*;

verus! {

/// A value stored in a FITS header keyword.
#[derive(Debug, PartialEq)]
pub enum HeaderValue {
    Logical(bool),
    Integer(i64),
    Float(Real),
    String(String),
    ComplexInteger(i64, i64),
    ComplexFloat(Real, Real),
    Undefined,
}

/// What a header value stands for.
pub enum ValueView {
    Logical(bool),
    Integer(int),
    Float(Seq<char>),
    Text(Seq<char>),
    ComplexInteger(int, int),
    ComplexFloat(Seq<char>, Seq<char>),
    Undefined,
}

impl View for HeaderValue {
    type V = ValueView;

    open spec fn view(&self) -> ValueView {
        match self {
            HeaderValue::Logical(b) => ValueView::Logical(*b),
            HeaderValue::Integer(i) => ValueView::Integer(*i as int),
            HeaderValue::Float(f) => ValueView::Float(f@),
            HeaderValue::String(s) => ValueView::Text(s@),
            HeaderValue::ComplexInteger(a, b) => ValueView::ComplexInteger(*a as int, *b as int),
            HeaderValue::ComplexFloat(a, b) => ValueView::ComplexFloat(a@, b@),
            HeaderValue::Undefined => ValueView::Undefined,
        }
    }
}

impl Clone for HeaderValue {
    fn clone(&self) -> (r: Self)
        ensures
            r@ == self@,
    {
        match self {
            HeaderValue::Logical(b) => HeaderValue::Logical(*b),
            HeaderValue::Integer(i) => HeaderValue::Integer(*i),
            HeaderValue::Float(f) => HeaderValue::Float(f.clone()),
            HeaderValue::String(s) => HeaderValue::String(s.clone()),
            HeaderValue::ComplexInteger(a, b) => HeaderValue::ComplexInteger(*a, *b),
            HeaderValue::ComplexFloat(a, b) => HeaderValue::ComplexFloat(a.clone(), b.clone()),
            HeaderValue::Undefined => HeaderValue::Undefined,
        }
    }
}

/// The text of an optional string.
pub open spec fn text_of(s: Option<String>) -> Option<Seq<char>> {
    match s {
        Some(t) => Some(t@),
        None => None,
    }
}

/// The text of an optional string slice.
pub open spec fn str_of(s: Option<&str>) -> Option<Seq<char>> {
    match s {
        Some(t) => Some(t@),
        None => None,
    }
}

/// The value of an optional header value.
pub open spec fn value_of(v: Option<HeaderValue>) -> Option<ValueView> {
    match v {
        Some(x) => Some(x@),
        None => None,
    }
}

impl ValueView {
    /// The floating-point number that a value stands for.
    pub open spec fn float(self) -> Option<Seq<char>> {
        match self {
            ValueView::Float(f) => Some(f),
            ValueView::Integer(i) => Some(text::decimal(i)),
            _ => None,
        }
    }

    /// The text of a value that is not a string, as a card holds it.
    pub open spec fn plain_text(self) -> Seq<char> {
        match self {
            ValueView::Logical(b) => if b {
                "T"@
            } else {
                "F"@
            },
            ValueView::Integer(i) => text::decimal(i),
            ValueView::Float(f) => f,
            ValueView::Text(s) => "'"@ + s + "'"@,
            ValueView::ComplexInteger(a, b) => "("@ + text::decimal(a) + ", "@ + text::decimal(b)
                + ")"@,
            ValueView::ComplexFloat(a, b) => "("@ + a + ", "@ + b + ")"@,
            ValueView::Undefined => Seq::empty(),
        }
    }
}

impl HeaderValue {
    pub fn as_bool(&self) -> (r: Option<bool>)
        ensures
            r == match self@ {
                ValueView::Logical(b) => Some(b),
                _ => None,
            },
    {
        match self {
            HeaderValue::Logical(b) => Some(*b),
            _ => None,
        }
    }

    pub fn as_int(&self) -> (r: Option<i64>)
        ensures
            match self@ {
                ValueView::Integer(i) => r == Some(i as i64),
                _ => r is None,
            },
    {
        match self {
            HeaderValue::Integer(i) => Some(*i),
            _ => None,
        }
    }

    pub fn as_float(&self) -> (r: Option<Real>)
        ensures
            match r {
                Some(f) => self@.float() == Some(f@),
                None => self@.float() is None,
            },
    {
        match self {
            HeaderValue::Float(f) => Some(f.clone()),
            HeaderValue::Integer(i) => Some(Real::from_int(*i)),
            _ => None,
        }
    }

    pub fn as_str(&self) -> (r: Option<&str>)
        ensures
            str_of(r) == match self@ {
                ValueView::Text(s) => Some(s),
                _ => None,
            },
    {
        match self {
            HeaderValue::String(s) => Some(s.as_str()),
            _ => None,
        }
    }

    /// The text of the value: strings in quotes, complex numbers in brackets.
    pub fn display(&self) -> (r: String)
        ensures
            r@ == self@.plain_text(),
    {
        match self {
            HeaderValue::Logical(b) => if *b {
                "T".to_owned()
            } else {
                "F".to_owned()
            },
            HeaderValue::Integer(i) => text::decimal_i64(*i),
            HeaderValue::Float(f) => f.text.clone(),
            HeaderValue::String(s) => "'".to_owned().concat(s.as_str()).concat("'"),
            HeaderValue::ComplexInteger(a, b) => {
                let x: String = text::decimal_i64(*a);
                let y: String = text::decimal_i64(*b);
                "(".to_owned().concat(x.as_str()).concat(", ").concat(y.as_str()).concat(")")
            },
            HeaderValue::ComplexFloat(a, b) => "(".to_owned().concat(a.text.as_str()).concat(
                ", ",
            ).concat(b.text.as_str()).concat(")"),
            HeaderValue::Undefined => String::new(),
        }
    }
}

/// A single FITS header keyword (card image).
#[derive(Debug)]
pub struct Keyword {
    pub name: String,
    pub value: Option<HeaderValue>,
    pub comment: Option<String>,
}

/// What a keyword stands for.
pub struct KeywordView {
    pub name: Seq<char>,
    pub value: Option<ValueView>,
    pub comment: Option<Seq<char>>,
}

impl View for Keyword {
    type V = KeywordView;

    open spec fn view(&self) -> KeywordView {
        KeywordView {
            name: self.name@,
            value: value_of(self.value),
            comment: text_of(self.comment),
        }
    }
}

impl Clone for Keyword {
    fn clone(&self) -> (r: Self)
        ensures
            r@ == self@,
    {
        Keyword {
            name: self.name.clone(),
            value: match &self.value {
                Some(v) => Some(v.clone()),
                None => None,
            },
            comment: match &self.comment {
                Some(c) => Some(c.clone()),
                None => None,
            },
        }
    }
}

fn owned(s: Option<&str>) -> (r: Option<String>)
    ensures
        text_of(r) == str_of(s),
{
    match s {
        Some(t) => Some(t.to_owned()),
        None => None,
    }
}

impl Keyword {
    pub fn new(name: &str, value: Option<HeaderValue>, comment: Option<&str>) -> (r: Self)
        ensures
            r@ == (KeywordView {
                name: text::upper(name@),
                value: value_of(value),
                comment: str_of(comment),
            }),
    {
        Keyword { name: text::to_upper(name), value, comment: owned(comment) }
    }

    /// Create a valued keyword (has `= ` indicator).
    pub fn with_value(name: &str, value: HeaderValue, comment: Option<&str>) -> (r: Self)
        ensures
            r@ == (KeywordView {
                name: text::upper(name@),
                value: Some(value@),
                comment: str_of(comment),
            }),
    {
        Keyword::new(name, Some(value), comment)
    }

    /// Create a commentary keyword (COMMENT, HISTORY, or blank).
    pub fn commentary(name: &str, txt: &str) -> (r: Self)
        ensures
            r@ == (KeywordView {
                name: text::upper(name@),
                value: None,
                comment: Some(txt@),
            }),
    {
        Keyword { name: text::to_upper(name), value: None, comment: Some(txt.to_owned()) }
    }
}

/// A comment that is not empty.
pub open spec fn nonempty(s: Seq<char>) -> Option<Seq<char>> {
    if s.len() == 0 {
        None
    } else {
        Some(s)
    }
}

/// The comment behind a value: what follows a slash.
pub open spec fn trailing_comment(s: Seq<char>) -> Option<Seq<char>> {
    let t = text::trim_start(s);
    if t.len() > 0 && t[0] == '/' {
        nonempty(text::trim(t.skip(1)))
    } else {
        None
    }
}

/// The content of a quoted string behind its opening quote, doubled quotes
/// single, and what follows its closing quote; `None` where it does not close.
pub open spec fn quoted(s: Seq<char>) -> Option<(Seq<char>, Seq<char>)>
    decreases s.len(),
{
    if s.len() == 0 {
        None
    } else if s[0] == '\'' {
        if s.len() > 1 && s[1] == '\'' {
            match quoted(s.skip(2)) {
                None => None,
                Some((content, rest)) => Some((seq!['\''] + content, rest)),
            }
        } else {
            Some((Seq::empty(), s.skip(1)))
        }
    } else {
        match quoted(s.skip(1)) {
            None => None,
            Some((content, rest)) => Some((seq![s[0]] + content, rest)),
        }
    }
}

/// The string that the content of quotes stands for: trailing blanks do not
/// count, nor does a continuation mark behind them.
pub open spec fn string_content(content: Seq<char>) -> Seq<char> {
    let t = text::trim_end(content);
    if t.len() > 0 && t.last() == '&' {
        t.drop_last()
    } else {
        t
    }
}

/// Text with a character for each of its bytes, as strings in quotes are read.
pub open spec fn byte_chars(s: Seq<char>) -> Seq<char> {
    text::chars_of(text::bytes_of(s))
}

/// A string value at the start of a text, and its comment.
pub open spec fn string_value(s: Seq<char>) -> Option<(Seq<char>, Option<Seq<char>>)> {
    if s.len() == 0 || s[0] != '\'' {
        None
    } else {
        match quoted(s.skip(1)) {
            None => None,
            Some((content, rest)) => Some(
                (string_content(byte_chars(content)), trailing_comment(rest)),
            ),
        }
    }
}

/// An integer that 64 bits hold.
pub open spec fn int64_of(s: Seq<char>) -> Option<int> {
    match text::integer_of(s) {
        None => None,
        Some(v) => if i64::MIN <= v <= i64::MAX {
            Some(v)
        } else {
            None
        },
    }
}

/// A complex value at the start of a text, and its comment; `None` where it is
/// not closed or does not hold two numbers.
pub open spec fn complex_value(s: Seq<char>) -> Option<(ValueView, Option<Seq<char>>)> {
    let close = number::first_of(s, ')', ')');
    if close == s.len() || close < 1 {
        None
    } else {
        let inner = s.subrange(1, close);
        let comma = number::first_of(inner, ',', ',');
        if comma == inner.len() {
            None
        } else {
            let a = number::exponent_e(text::trim(inner.take(comma)));
            let second = inner.skip(comma + 1);
            let b = number::exponent_e(text::trim(second));
            let comment = trailing_comment(s.skip(close + 1));
            if number::first_of(second, ',', ',') != second.len() {
                None
            } else if int64_of(a) is Some && int64_of(b) is Some {
                Some((ValueView::ComplexInteger(int64_of(a)->0, int64_of(b)->0), comment))
            } else if number::is_float(a) && number::is_float(b) {
                Some((ValueView::ComplexFloat(a, b), comment))
            } else {
                None
            }
        }
    }
}

/// The value that a bare word stands for.
pub open spec fn word_value(word: Seq<char>) -> ValueView {
    if word == "T"@ {
        ValueView::Logical(true)
    } else if word == "F"@ {
        ValueView::Logical(false)
    } else if int64_of(word) is Some {
        ValueView::Integer(int64_of(word)->0)
    } else if number::is_float(number::exponent_e(word)) {
        ValueView::Float(number::exponent_e(word))
    } else {
        ValueView::Undefined
    }
}

/// The value and comment of a valued keyword (columns 11-80); `None` where a
/// string or complex value is malformed.
pub open spec fn value_comment(s: Seq<char>) -> Option<(ValueView, Option<Seq<char>>)> {
    let t = text::trim_start(s);
    if t.len() == 0 {
        Some((ValueView::Undefined, None))
    } else if t[0] == '\'' {
        match string_value(t) {
            None => None,
            Some((v, c)) => Some((ValueView::Text(v), c)),
        }
    } else if t[0] == '(' {
        complex_value(t)
    } else {
        let slash = number::first_of(t, '/', '/');
        let comment = if slash == t.len() {
            None
        } else {
            nonempty(text::trim(t.skip(slash + 1)))
        };
        Some((word_value(text::trim(t.take(slash))), comment))
    }
}

/// The keyword of a card; `None` where its name field (columns 1-8) or the rest of it is
/// not UTF-8 text, or its value is malformed. A CONTINUE card with a string has it as its
/// value.
pub open spec fn card_keyword(record: Seq<u8>) -> Option<KeywordView> {
    if !valid_utf8(record.take(8)) || !valid_utf8(record.skip(8)) {
        None
    } else {
        let name = text::trim_end(decode_utf8(record.take(8)));
        let rest = decode_utf8(record.skip(8));
        let continued = string_value(text::trim_start(rest));
        if rest.len() >= 2 && rest[0] == '=' && rest[1] == ' ' {
            match value_comment(rest.skip(2)) {
                None => None,
                Some((v, c)) => Some(KeywordView { name, value: Some(v), comment: c }),
            }
        } else if name == "CONTINUE"@ && continued is Some {
            let (v, c) = continued->0;
            Some(KeywordView { name, value: Some(ValueView::Text(v)), comment: c })
        } else {
            Some(KeywordView { name, value: None, comment: nonempty(text::trim_end(rest)) })
        }
    }
}

/// Why the value of a valued keyword is malformed.
pub open spec fn value_fault(s: Seq<char>) -> Seq<char> {
    let t = text::trim_start(s);
    let close = number::first_of(t, ')', ')');
    let inner = t.subrange(1, close);
    let comma = number::first_of(inner, ',', ',');
    if t[0] == '\'' {
        "unterminated string value"@
    } else if close == t.len() {
        "unterminated complex value"@
    } else if comma == inner.len() || number::first_of(inner.skip(comma + 1), ',', ',')
        != inner.len() - comma - 1 {
        "complex value must have two components"@
    } else {
        "invalid complex component"@
    }
}

/// Why a card has no keyword.
pub open spec fn card_fault(record: Seq<u8>) -> ErrorView {
    ErrorView::InvalidKeyword(
        if !valid_utf8(record.take(8)) || !valid_utf8(record.skip(8)) {
            "non-ASCII card image"@
        } else {
            value_fault(decode_utf8(record.skip(8)).skip(2))
        },
    )
}

/// Why the value of a valued keyword is malformed.
fn value_error(s: &[char]) -> (r: Error)
    requires
        value_comment(s@) is None,
    ensures
        r@ == ErrorView::InvalidKeyword(value_fault(s@)),
{
    let t = text::trimmed_start(s);
    if t[0] == '\'' {
        return Error::InvalidKeyword("unterminated string value".to_owned());
    }
    let close: usize = number::find_first(t, ')', ')');
    if close == t.len() {
        return Error::InvalidKeyword("unterminated complex value".to_owned());
    }
    proof {
        number::lemma_first_of(t@, ')', ')');
        assert(t@[0] != ')');
    }
    let inner = vstd::slice::slice_subrange(t, 1, close);
    let comma: usize = number::find_first(inner, ',', ',');
    if comma == inner.len() {
        return Error::InvalidKeyword("complex value must have two components".to_owned());
    }
    let second = text::tail(inner, comma + 1);
    if number::find_first(second, ',', ',') != second.len() {
        return Error::InvalidKeyword("complex value must have two components".to_owned());
    }
    Error::InvalidKeyword("invalid complex component".to_owned())
}

fn nonempty_string(s: &[char]) -> (r: Option<String>)
    ensures
        text_of(r) == nonempty(s@),
{
    if s.len() == 0 {
        None
    } else {
        Some(text::string_from(s))
    }
}

fn parse_trailing_comment(s: &[char]) -> (r: Option<String>)
    ensures
        text_of(r) == trailing_comment(s@),
{
    let t = text::trimmed_start(s);
    if t.len() > 0 && t[0] == '/' {
        nonempty_string(text::trimmed(text::tail(t, 1)))
    } else {
        None
    }
}

/// The content of a quoted string behind its opening quote, and where the text
/// behind its closing quote starts.
fn parse_quoted(s: &[char]) -> (r: Option<(Vec<char>, usize)>)
    ensures
        match r {
            Some((content, end)) => end <= s@.len() && quoted(s@) == Some(
                (content@, s@.skip(end as int)),
            ),
            None => quoted(s@) is None,
        },
{
    let n: usize = s.len();
    let mut out: Vec<char> = Vec::new();
    let mut i: usize = 0;
    let ghost whole = quoted(s@);
    proof {
        assert(s@.skip(0) =~= s@);
        if let Some((c, rest)) = whole {
            assert(out@ + c =~= c);
        }
    }
    while i < n
        invariant
            i <= n,
            n == s@.len(),
            whole == quoted(s@),
            whole == match quoted(s@.skip(i as int)) {
                None => None,
                Some((c, rest)) => Some((out@ + c, rest)),
            },
        decreases n - i,
    {
        let ghost rest = s@.skip(i as int);
        let ghost before = out@;
        let c: char = s[i];
        assert(rest[0] == c);
        if c == '\'' {
            if i + 1 < n && s[i + 1] == '\'' {
                out.push('\'');
                i += 2;
                proof {
                    assert(rest[1] == '\'');
                    assert(rest.skip(2) =~= s@.skip(i as int));
                    if let Some((t, e)) = quoted(rest.skip(2)) {
                        assert(before + (seq!['\''] + t) =~= out@ + t);
                    }
                }
            } else {
                proof {
                    assert(i + 1 < n ==> rest[1] == s@[i + 1]);
                    assert(rest.skip(1) =~= s@.skip(i + 1));
                    assert(out@ + Seq::<char>::empty() =~= out@);
                }
                return Some((out, i + 1));
            }
        } else {
            out.push(c);
            i += 1;
            proof {
                assert(rest.skip(1) =~= s@.skip(i as int));
                if let Some((t, e)) = quoted(rest.skip(1)) {
                    assert(before + (seq![c] + t) =~= out@ + t);
                }
            }
        }
    }
    None
}

fn parse_string_value(s: &[char]) -> (r: Option<(String, Option<String>)>)
    ensures
        match r {
            Some((v, c)) => string_value(s@) == Some((v@, text_of(c))),
            None => string_value(s@) is None,
        },
{
    if s.len() == 0 || s[0] != '\'' {
        return None;
    }
    let body = text::tail(s, 1);
    match parse_quoted(body) {
        None => None,
        Some((content, end)) => {
            let inner: String = text::string_from(content.as_slice());
            let chars: Vec<char> = text::char_vec(text::string_of(inner.as_str().as_bytes()).as_str());
            let t = text::trimmed_end(chars.as_slice());
            let v = if t.len() > 0 && t[t.len() - 1] == '&' {
                let h = text::head(t, t.len() - 1);
                assert(h@ =~= t@.drop_last());
                h
            } else {
                t
            };
            Some((text::string_from(v), parse_trailing_comment(text::tail(body, end))))
        },
    }
}

fn parse_complex_value(s: &[char]) -> (r: Option<(HeaderValue, Option<String>)>)
    requires
        s@.len() > 0,
        s@[0] == '(',
    ensures
        match r {
            Some((v, c)) => complex_value(s@) == Some((v@, text_of(c))),
            None => complex_value(s@) is None,
        },
{
    let close: usize = number::find_first(s, ')', ')');
    if close == s.len() {
        return None;
    }
    proof {
        number::lemma_first_of(s@.skip(1), ')', ')');
    }
    let inner = vstd::slice::slice_subrange(s, 1, close);
    let comma: usize = number::find_first(inner, ',', ',');
    if comma == inner.len() {
        return None;
    }
    let second = text::tail(inner, comma + 1);
    if number::find_first(second, ',', ',') != second.len() {
        return None;
    }
    let comment: Option<String> = parse_trailing_comment(text::tail(s, close + 1));
    let a: Vec<char> = number::with_exponent_e(text::trimmed(text::head(inner, comma)));
    let b: Vec<char> = number::with_exponent_e(text::trimmed(second));
    match (text::parse_i64(a.as_slice()), text::parse_i64(b.as_slice())) {
        (Some(x), Some(y)) => {
            return Some((HeaderValue::ComplexInteger(x, y), comment));
        },
        _ => {},
    }
    if number::spells_float(a.as_slice()) && number::spells_float(b.as_slice()) {
        Some(
            (
                HeaderValue::ComplexFloat(
                    Real { text: text::string_from(a.as_slice()) },
                    Real { text: text::string_from(b.as_slice()) },
                ),
                comment,
            ),
        )
    } else {
        None
    }
}

fn parse_word(word: &[char]) -> (r: HeaderValue)
    ensures
        r@ == word_value(word@),
{
    if text::is_text(word, "T") {
        return HeaderValue::Logical(true);
    }
    if text::is_text(word, "F") {
        return HeaderValue::Logical(false);
    }
    match text::parse_i64(word) {
        Some(i) => {
            return HeaderValue::Integer(i);
        },
        None => {},
    }
    let f: Vec<char> = number::with_exponent_e(word);
    if number::spells_float(f.as_slice()) {
        HeaderValue::Float(Real { text: text::string_from(f.as_slice()) })
    } else {
        HeaderValue::Undefined
    }
}

/// Parse the value+comment portion of a valued keyword (columns 11-80).
fn parse_value_comment(s: &[char]) -> (r: Option<(HeaderValue, Option<String>)>)
    ensures
        match r {
            Some((v, c)) => value_comment(s@) == Some((v@, text_of(c))),
            None => value_comment(s@) is None,
        },
{
    let t = text::trimmed_start(s);
    if t.len() == 0 {
        return Some((HeaderValue::Undefined, None));
    }
    if t[0] == '\'' {
        return match parse_string_value(t) {
            Some((v, c)) => Some((HeaderValue::String(v), c)),
            None => None,
        };
    }
    if t[0] == '(' {
        return parse_complex_value(t);
    }
    let slash: usize = number::find_first(t, '/', '/');
    let comment: Option<String> = if slash == t.len() {
        None
    } else {
        nonempty_string(text::trimmed(text::tail(t, slash + 1)))
    };
    Some((parse_word(text::trimmed(text::head(t, slash))), comment))
}

impl Keyword {
    /// Parse a single 80-byte card image into a Keyword.
    pub fn parse(record: &[u8; 80]) -> (r: Result<Self>)
        ensures
            match r {
                Ok(k) => card_keyword(record@) == Some(k@),
                Err(e) => e@ == card_fault(record@) && card_keyword(record@) is None,
            },
    {
        let bytes = vstd::array::array_as_slice(record);
        let field = vstd::slice::slice_subrange(bytes, 0, 8);
        let behind = vstd::slice::slice_subrange(bytes, 8, 80);
        assert(field@ =~= record@.take(8));
        assert(behind@ =~= record@.skip(8));
        let (first, second): (Vec<char>, Vec<char>) = match (
            std::str::from_utf8(field),
            std::str::from_utf8(behind),
        ) {
            (Ok(a), Ok(b)) => (text::char_vec(a), text::char_vec(b)),
            _ => return Err(Error::InvalidKeyword("non-ASCII card image".to_owned())),
        };
        let name = text::trimmed_end(first.as_slice());
        let rest = second.as_slice();
        if rest.len() >= 2 && rest[0] == '=' && rest[1] == ' ' {
            let field = text::tail(rest, 2);
            return match parse_value_comment(field) {
                Some((v, c)) => Ok(
                    Keyword { name: text::string_from(name), value: Some(v), comment: c },
                ),
                None => Err(value_error(field)),
            };
        }
        if text::is_text(name, "CONTINUE") {
            match parse_string_value(text::trimmed_start(rest)) {
                Some((v, c)) => {
                    return Ok(
                        Keyword {
                            name: text::string_from(name),
                            value: Some(HeaderValue::String(v)),
                            comment: c,
                        },
                    );
                },
                None => {},
            }
        }
        let comment: Option<String> = nonempty_string(text::trimmed_end(rest));
        Ok(Keyword { name: text::string_from(name), value: None, comment })
    }
}

/// `n` bytes that start with `s`, cut or filled up with blanks.
pub open spec fn fixed(s: Seq<u8>, n: nat) -> Seq<u8> {
    Seq::new(
        n,
        |i: int|
            if i < s.len() {
                s[i]
            } else {
                0x20
            },
    )
}

/// `n` blanks.
pub open spec fn blanks(n: int) -> Seq<u8> {
    Seq::new(
        if n > 0 {
            n as nat
        } else {
            0
        },
        |i: int| 0x20u8,
    )
}

/// A card image: 80 bytes that start with the given line.
pub open spec fn card_of(line: Seq<u8>) -> Seq<u8> {
    fixed(line, 80)
}

/// The name field of a card and its value indicator.
pub open spec fn valued_start(name: Seq<char>) -> Seq<u8> {
    fixed(text::bytes_of(name), 8) + seq![0x3du8, 0x20]
}

/// A line with a comment behind it, where there is one and room for it.
pub open spec fn commented(line: Seq<u8>, comment: Option<Seq<char>>) -> Seq<u8> {
    match comment {
        Some(c) => if line.len() + 3 < 80 {
            line + seq![0x20u8, 0x2f, 0x20] + text::bytes_of(c)
        } else {
            line
        },
        None => line,
    }
}

/// The number of characters of UTF-8 text: the bytes that start one.
pub open spec fn char_count(bytes: Seq<u8>) -> nat
    decreases bytes.len(),
{
    if bytes.len() == 0 {
        0
    } else {
        char_count(bytes.drop_last()) + (if 0x80 <= bytes.last() < 0xC0 {
            0nat
        } else {
            1nat
        })
    }
}

/// String content filled up to at least 8 characters.
pub open spec fn padded_content(content: Seq<u8>) -> Seq<u8> {
    if content.len() < 8 {
        content + blanks(8 - char_count(content))
    } else {
        content
    }
}

/// Text with each single quote doubled.
pub open spec fn doubled_quotes(s: Seq<u8>) -> Seq<u8>
    decreases s.len(),
{
    if s.len() == 0 {
        Seq::empty()
    } else if s.last() == 0x27 {
        doubled_quotes(s.drop_last()) + seq![0x27u8, 0x27]
    } else {
        doubled_quotes(s.drop_last()).push(s.last())
    }
}

/// A line that ends in a whole string in quotes.
pub open spec fn whole_string(start: Seq<u8>, content: Seq<u8>) -> Seq<u8> {
    start + seq![0x27u8] + padded_content(content) + seq![0x27u8]
}

/// A line that ends in a part of a string, with the continuation mark.
pub open spec fn part_string(start: Seq<u8>, content: Seq<u8>) -> Seq<u8> {
    start + seq![0x27u8] + content + seq![0x26u8, 0x27]
}

/// The start of a CONTINUE card.
pub open spec fn continue_start() -> Seq<u8> {
    text::bytes_of("CONTINUE"@) + seq![0x20u8, 0x20]
}

/// The CONTINUE cards for what is left of a long string, 67 bytes to a card; the
/// last has the comment.
pub open spec fn continue_cards(rest: Seq<u8>, comment: Option<Seq<char>>) -> Seq<Seq<u8>>
    decreases rest.len(),
{
    if rest.len() == 0 {
        Seq::empty()
    } else if rest.len() <= 67 {
        seq![card_of(commented(whole_string(continue_start(), rest), comment))]
    } else {
        seq![card_of(part_string(continue_start(), rest.take(67)))] + continue_cards(
            rest.skip(67),
            comment,
        )
    }
}

/// The cards of a string keyword: one where it fits, else with CONTINUE cards.
pub open spec fn string_cards(name: Seq<char>, value: Seq<char>, comment: Option<Seq<char>>) -> Seq<
    Seq<u8>,
> {
    let content = doubled_quotes(text::bytes_of(value));
    let room: int = if comment is Some {
        55
    } else {
        67
    };
    if content.len() <= room {
        seq![card_of(commented(whole_string(valued_start(name), content), comment))]
    } else {
        let cut: int = if content.len() < 67 {
            content.len() as int
        } else {
            67
        };
        seq![card_of(part_string(valued_start(name), content.take(cut)))] + continue_cards(
            content.skip(cut),
            comment,
        )
    }
}

/// A value's text, right-justified to column 30 where it is short enough.
pub open spec fn justified(value: Seq<u8>) -> Seq<u8> {
    blanks(20 - value.len()) + value
}

/// The cards of a keyword.
pub open spec fn cards_of(k: KeywordView) -> Seq<Seq<u8>> {
    if k.name == "END"@ {
        seq![card_of(text::bytes_of("END"@))]
    } else {
        match k.value {
            None => seq![
                card_of(
                    fixed(text::bytes_of(k.name), 8) + (match k.comment {
                        Some(c) => text::bytes_of(c),
                        None => Seq::empty(),
                    }),
                ),
            ],
            Some(ValueView::Text(s)) => string_cards(k.name, s, k.comment),
            Some(v) => seq![
                card_of(
                    commented(
                        valued_start(k.name) + justified(text::bytes_of(v.plain_text())),
                        k.comment,
                    ),
                ),
            ],
        }
    }
}

/// The bytes of cards.
pub open spec fn card_bytes(cards: Seq<[u8; 80]>) -> Seq<Seq<u8>> {
    Seq::new(cards.len(), |i: int| cards[i]@)
}

fn make_card(line: &[u8]) -> (r: [u8; 80])
    ensures
        r@ == card_of(line@),
{
    let mut card: [u8; 80] = [0x20u8; 80];
    let mut i: usize = 0;
    while i < 80 && i < line.len()
        invariant
            i <= 80,
            i <= line@.len(),
            forall|k: int| 0 <= k < i ==> card@[k] == line@[k],
            forall|k: int| i <= k < 80 ==> card@[k] == 0x20,
        decreases 80 - i,
    {
        card[i] = line[i];
        i += 1;
    }
    assert(card@ =~= card_of(line@));
    card
}

fn push_fixed(out: &mut Vec<u8>, s: &[u8], n: usize)
    ensures
        final(out)@ == old(out)@ + fixed(s@, n as nat),
{
    let mut i: usize = 0;
    while i < n
        invariant
            i <= n,
            out@ == old(out)@ + fixed(s@, n as nat).take(i as int),
        decreases n - i,
    {
        if i < s.len() {
            out.push(s[i]);
        } else {
            out.push(0x20);
        }
        i += 1;
        assert(out@ =~= old(out)@ + fixed(s@, n as nat).take(i as int));
    }
    assert(out@ =~= old(out)@ + fixed(s@, n as nat));
}

fn push_blanks(out: &mut Vec<u8>, n: usize)
    ensures
        final(out)@ == old(out)@ + blanks(n as int),
{
    let mut i: usize = 0;
    while i < n
        invariant
            i <= n,
            out@ == old(out)@ + blanks(i as int),
        decreases n - i,
    {
        out.push(0x20);
        i += 1;
        assert(out@ =~= old(out)@ + blanks(i as int));
    }
    assert(out@ =~= old(out)@ + blanks(n as int));
}

fn push_bytes(out: &mut Vec<u8>, s: &[u8])
    ensures
        final(out)@ == old(out)@ + s@,
{
    out.extend_from_slice(s);
    assert(out@ =~= old(out)@ + s@);
}

/// Start a line with the name field and the value indicator.
fn start_valued(name: &str) -> (r: Vec<u8>)
    ensures
        r@ == valued_start(name@),
{
    let mut line: Vec<u8> = Vec::new();
    push_fixed(&mut line, name.as_bytes(), 8);
    line.push(0x3d);
    line.push(0x20);
    assert(line@ =~= valued_start(name@));
    line
}

fn push_comment(line: &mut Vec<u8>, comment: Option<&str>)
    ensures
        final(line)@ == commented(old(line)@, str_of(comment)),
{
    match comment {
        Some(c) => {
            if line.len() < 77 {
                line.push(0x20);
                line.push(0x2f);
                line.push(0x20);
                push_bytes(line, c.as_bytes());
                assert(line@ =~= commented(old(line)@, str_of(comment)));
            }
        },
        None => {},
    }
}

fn count_chars(bytes: &[u8]) -> (r: usize)
    ensures
        r == char_count(bytes@),
        r <= bytes@.len(),
{
    let mut n: usize = 0;
    let mut i: usize = 0;
    assert(bytes@.take(0) =~= Seq::empty());
    while i < bytes.len()
        invariant
            i <= bytes@.len(),
            n == char_count(bytes@.take(i as int)),
            n <= i,
        decreases bytes@.len() - i,
    {
        if bytes[i] < 0x80 || bytes[i] >= 0xC0 {
            n += 1;
        }
        i += 1;
        assert(bytes@.take(i as int).drop_last() =~= bytes@.take(i - 1));
    }
    assert(bytes@.take(i as int) =~= bytes@);
    n
}

/// Append a whole string in quotes, filled up to at least 8 characters.
fn push_whole_string(line: &mut Vec<u8>, content: &[u8])
    ensures
        final(line)@ == whole_string(old(line)@, content@),
{
    line.push(0x27);
    push_bytes(line, content);
    if content.len() < 8 {
        let n: usize = count_chars(content);
        push_blanks(line, 8 - n);
    }
    line.push(0x27);
    assert(line@ =~= whole_string(old(line)@, content@));
}

/// Append a part of a string, with the continuation mark.
fn push_part_string(line: &mut Vec<u8>, content: &[u8])
    ensures
        final(line)@ == part_string(old(line)@, content@),
{
    line.push(0x27);
    push_bytes(line, content);
    line.push(0x26);
    line.push(0x27);
    assert(line@ =~= part_string(old(line)@, content@));
}

fn double_quotes(s: &[u8]) -> (r: Vec<u8>)
    ensures
        r@ == doubled_quotes(s@),
{
    let mut out: Vec<u8> = Vec::new();
    let mut i: usize = 0;
    assert(s@.take(0) =~= Seq::empty());
    assert(out@ =~= Seq::<u8>::empty());
    while i < s.len()
        invariant
            i <= s@.len(),
            out@ == doubled_quotes(s@.take(i as int)),
        decreases s@.len() - i,
    {
        let ghost before = out@;
        out.push(s[i]);
        if s[i] == 0x27 {
            out.push(0x27);
        }
        i += 1;
        proof {
            assert(s@.take(i as int).drop_last() =~= s@.take(i - 1));
            if s@[i - 1] == 0x27 {
                assert(out@ =~= before + seq![0x27u8, 0x27]);
            }
        }
    }
    assert(s@.take(i as int) =~= s@);
    out
}

fn start_continue() -> (r: Vec<u8>)
    ensures
        r@ == continue_start(),
{
    let mut line: Vec<u8> = Vec::new();
    push_bytes(&mut line, "CONTINUE".as_bytes());
    line.push(0x20);
    line.push(0x20);
    assert(line@ =~= continue_start());
    line
}

fn part<'a>(s: &'a [u8], from: usize, to: usize) -> (r: &'a [u8])
    requires
        from <= to <= s@.len(),
    ensures
        r@ == s@.subrange(from as int, to as int),
{
    vstd::slice::slice_subrange(s, from, to)
}

fn push_card(cards: &mut Vec<[u8; 80]>, line: &[u8])
    ensures
        card_bytes(final(cards)@) == card_bytes(old(cards)@).push(card_of(line@)),
{
    cards.push(make_card(line));
    assert(card_bytes(cards@) =~= card_bytes(old(cards)@).push(card_of(line@)));
}

/// The cards of a string keyword.
fn serialize_string_keyword(name: &str, value: &str, comment: Option<&str>) -> (r: Vec<[u8; 80]>)
    ensures
        card_bytes(r@) == string_cards(name@, value@, str_of(comment)),
{
    let mut cards: Vec<[u8; 80]> = Vec::new();
    let content: Vec<u8> = double_quotes(value.as_bytes());
    let n: usize = content.len();
    let room: usize = if comment.is_some() {
        55
    } else {
        67
    };
    let mut line: Vec<u8> = start_valued(name);
    if n <= room {
        push_whole_string(&mut line, content.as_slice());
        push_comment(&mut line, comment);
        push_card(&mut cards, line.as_slice());
        assert(card_bytes(cards@) =~= string_cards(name@, value@, str_of(comment)));
        return cards;
    }
    let cut: usize = if n < 67 {
        n
    } else {
        67
    };
    let first = part(content.as_slice(), 0, cut);
    push_part_string(&mut line, first);
    push_card(&mut cards, line.as_slice());
    let ghost target = string_cards(name@, value@, str_of(comment));
    let mut i: usize = cut;
    proof {
        assert(first@ =~= content@.take(cut as int));
        assert(card_bytes(cards@) + continue_cards(content@.skip(i as int), str_of(comment))
            =~= target);
    }
    while i < n
        invariant
            i <= n,
            n == content@.len(),
            card_bytes(cards@) + continue_cards(content@.skip(i as int), str_of(comment)) == target,
        decreases n - i,
    {
        let ghost rest = content@.skip(i as int);
        let ghost before = card_bytes(cards@);
        let left: usize = n - i;
        let mut line: Vec<u8> = start_continue();
        if left <= 67 {
            let chunk = part(content.as_slice(), i, n);
            assert(chunk@ =~= rest);
            push_whole_string(&mut line, chunk);
            push_comment(&mut line, comment);
            push_card(&mut cards, line.as_slice());
            i = n;
            assert(content@.skip(i as int) =~= Seq::empty());
        } else {
            let chunk = part(content.as_slice(), i, i + 67);
            assert(chunk@ =~= rest.take(67));
            push_part_string(&mut line, chunk);
            push_card(&mut cards, line.as_slice());
            i += 67;
            assert(content@.skip(i as int) =~= rest.skip(67));
        }
        assert(card_bytes(cards@) + continue_cards(content@.skip(i as int), str_of(comment))
            =~= before + continue_cards(rest, str_of(comment)));
    }
    assert(content@.skip(i as int) =~= Seq::empty());
    assert(card_bytes(cards@) =~= target);
    cards
}

fn as_str_option(s: &Option<String>) -> (r: Option<&str>)
    ensures
        str_of(r) == text_of(*s),
{
    match s {
        Some(t) => Some(t.as_str()),
        None => None,
    }
}

impl Keyword {
    /// Serialize this keyword into one or more 80-byte card images.
    /// Returns multiple cards if CONTINUE is needed for long strings.
    pub fn to_cards(&self) -> (r: Vec<[u8; 80]>)
        ensures
            card_bytes(r@) == cards_of(self@),
    {
        let mut cards: Vec<[u8; 80]> = Vec::new();
        let name: Vec<char> = text::char_vec(self.name.as_str());
        if text::is_text(name.as_slice(), "END") {
            push_card(&mut cards, "END".as_bytes());
            assert(card_bytes(cards@) =~= cards_of(self@));
            return cards;
        }
        let comment: Option<&str> = as_str_option(&self.comment);
        match &self.value {
            None => {
                let mut line: Vec<u8> = Vec::new();
                push_fixed(&mut line, self.name.as_str().as_bytes(), 8);
                assert(line@ =~= fixed(text::bytes_of(self@.name), 8));
                match comment {
                    Some(c) => push_bytes(&mut line, c.as_bytes()),
                    None => {
                        assert(line@ =~= line@ + Seq::<u8>::empty());
                    },
                }
                push_card(&mut cards, line.as_slice());
                assert(card_bytes(cards@) =~= cards_of(self@));
            },
            Some(HeaderValue::String(s)) => {
                return serialize_string_keyword(self.name.as_str(), s.as_str(), comment);
            },
            Some(v) => {
                let mut line: Vec<u8> = start_valued(self.name.as_str());
                let shown: String = v.display();
                let bytes = shown.as_str().as_bytes();
                let ghost start = line@;
                if bytes.len() < 20 {
                    push_blanks(&mut line, 20 - bytes.len());
                }
                push_bytes(&mut line, bytes);
                assert(line@ =~= start + justified(bytes@));
                push_comment(&mut line, comment);
                push_card(&mut cards, line.as_slice());
                assert(card_bytes(cards@) =~= cards_of(self@));
            },
        }
        cards
    }
}

} // verus!
