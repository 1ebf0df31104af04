//! What reading gives back of keywords that were written: which keywords survive the
//! way through their cards, and that they do.
use crate::header;
use crate::io_utils;
use crate::keyword;
use crate::keyword::{KeywordView, ValueView};
use crate::number;
use crate::text;
use vstd::prelude::*;
use vstd::utf8::*;

verus! {

/// Text that neither starts nor ends with white space.
pub open spec fn unpadded(s: Seq<char>) -> bool {
    s.len() > 0 ==> !text::is_space(s[0]) && !text::is_space(s.last())
}

/// Whether a card that is used up to a column has room for a comment, and the comment is
/// read as it was written.
pub open spec fn keeps_comment(comment: Option<Seq<char>>, used: int) -> bool {
    match comment {
        None => used <= 80,
        Some(c) => c.len() > 0 && unpadded(c) && used + 3 + text::bytes_of(c).len() <= 80,
    }
}

/// The text of a number that is read as it was written: not an integer, and its exponent
/// letter is `E`.
pub open spec fn keeps_float(f: Seq<char>) -> bool {
    number::is_float(f) && number::exponent_e(f) == f
}

/// A 64-bit integer.
pub open spec fn is_int64(i: int) -> bool {
    i64::MIN <= i <= i64::MAX
}

/// A value other than a string that is read as it was written.
pub open spec fn keeps_value(v: ValueView) -> bool {
    match v {
        ValueView::Logical(_) => true,
        ValueView::Integer(i) => is_int64(i),
        ValueView::Float(f) => keeps_float(f) && keyword::int64_of(f) is None,
        ValueView::Text(_) => false,
        ValueView::ComplexInteger(a, b) => is_int64(a) && is_int64(b),
        ValueView::ComplexFloat(a, b) => keeps_float(a) && keeps_float(b) && (keyword::int64_of(
            a,
        ) is None || keyword::int64_of(b) is None),
        ValueView::Undefined => true,
    }
}

/// Whether a string with its quotes doubled can be cut into pieces of 67 bytes without
/// parting a doubled quote.
pub open spec fn splits(s: Seq<u8>) -> bool
    decreases s.len(),
{
    keyword::doubled_quotes(s).len() <= 67 || exists|j: int|
        0 < j <= s.len() && keyword::doubled_quotes(#[trigger] s.take(j)).len() == 67 && splits(
            s.skip(j),
        )
}

/// The larger of a length and a minimum.
pub open spec fn at_least(n: int, least: int) -> int {
    if n < least {
        least
    } else {
        n
    }
}

/// A string that is read as it was written, with its comment. White space and a `&` at
/// the end of a string are lost; so is a comment behind a string that fills its card. A
/// character that is not ASCII is read as one for each of its bytes.
pub open spec fn keeps_string(s: Seq<char>, comment: Option<Seq<char>>) -> bool {
    let n = keyword::doubled_quotes(text::bytes_of(s)).len() as int;
    let room: int = if comment is Some {
        55
    } else {
        67
    };
    &&& is_ascii_chars(s)
    &&& s.len() > 0 ==> !text::is_space(s.last()) && s.last() != '&'
    &&& if n <= room {
        keeps_comment(comment, 12 + at_least(n, 8))
    } else {
        n > 67 && splits(text::bytes_of(s)) && keeps_comment(
            comment,
            12 + at_least((n - 1) % 67 + 1, 8),
        )
    }
}

/// A name that is read from a card as it was written.
pub open spec fn keeps_field(name: Seq<char>) -> bool {
    &&& text::bytes_of(name).len() <= 8
    &&& name.len() > 0 ==> !text::is_space(name.last())
    &&& name != "END"@
}

/// A name that is read from a header as it was written.
pub open spec fn keeps_name(name: Seq<char>) -> bool {
    keeps_field(name) && name != "CONTINUE"@
}

/// The text of a keyword without a value that is read as it was written: it does not end
/// in white space, and does not look like a value.
pub open spec fn keeps_commentary(comment: Option<Seq<char>>) -> bool {
    match comment {
        None => true,
        Some(c) => {
            &&& c.len() > 0
            &&& text::bytes_of(c).len() <= 72
            &&& !text::is_space(c.last())
            &&& !(c[0] == '=' && (c.len() == 1 || c[1] == ' '))
        },
    }
}

/// A keyword that is read as it was written.
pub open spec fn keeps(k: KeywordView) -> bool {
    &&& keeps_name(k.name)
    &&& match k.value {
        None => keeps_commentary(k.comment),
        Some(ValueView::Text(s)) => keeps_string(s, k.comment),
        Some(v) => keeps_value(v) && keeps_comment(
            k.comment,
            10 + at_least(v.plain_text().len() as int, 20),
        ),
    }
}

/// `n` blanks.
pub open spec fn spaces(n: nat) -> Seq<char> {
    Seq::new(n, |i: int| ' ')
}

pub proof fn lemma_trim_end_spaces(s: Seq<char>, n: nat)
    ensures
        text::trim_end(s + spaces(n)) == text::trim_end(s),
    decreases n,
{
    if n == 0 {
        assert(s + spaces(0) =~= s);
    } else {
        let t = s + spaces(n);
        assert(t.drop_last() =~= s + spaces((n - 1) as nat));
        lemma_trim_end_spaces(s, (n - 1) as nat);
    }
}

pub proof fn lemma_trim_start_spaces(n: nat, s: Seq<char>)
    ensures
        text::trim_start(spaces(n) + s) == text::trim_start(s),
    decreases n,
{
    if n == 0 {
        assert(spaces(0) + s =~= s);
    } else {
        let t = spaces(n) + s;
        assert(t.skip(1) =~= spaces((n - 1) as nat) + s);
        lemma_trim_start_spaces((n - 1) as nat, s);
    }
}

/// Text between blanks, trimmed.
pub proof fn lemma_trim_between(m: nat, s: Seq<char>, n: nat)
    requires
        unpadded(s),
    ensures
        text::trim(spaces(m) + s + spaces(n)) == s,
        text::trim_start(spaces(m) + s + spaces(n)) == (if s.len() == 0 {
            s
        } else {
            s + spaces(n)
        }),
{
    assert(spaces(m) + s + spaces(n) =~= spaces(m) + (s + spaces(n)));
    lemma_trim_start_spaces(m, s + spaces(n));
    if s.len() == 0 {
        assert(s + spaces(n) =~= spaces(n) + s);
        lemma_trim_start_spaces(n, s);
        assert(text::trim_start(s) == s);
        assert(text::trim_end(s) == s);
    } else {
        assert((s + spaces(n))[0] == s[0]);
        lemma_trim_end_spaces(s, n);
    }
}

pub proof fn lemma_first_of_is(s: Seq<char>, c: char, k: int)
    requires
        0 <= k <= s.len(),
        forall|i: int| 0 <= i < k ==> #[trigger] s[i] != c,
        k < s.len() ==> s[k] == c,
    ensures
        number::first_of(s, c, c) == k,
{
    number::lemma_first_of(s, c, c);
    let p = number::first_of(s, c, c);
    if p < k {
        assert(s[p] != c);
    } else if k < p {
        assert(s[k] != c);
    }
}

/// The text behind a value: a comment behind a slash, where there is one, and blanks.
pub open spec fn comment_text(comment: Option<Seq<char>>, n: nat) -> Seq<char> {
    match comment {
        None => spaces(n),
        Some(c) => seq![' ', '/', ' '] + c + spaces(n),
    }
}

proof fn lemma_trailing_comment(comment: Option<Seq<char>>, n: nat)
    requires
        comment matches Some(c) ==> c.len() > 0 && unpadded(c),
    ensures
        keyword::trailing_comment(comment_text(comment, n)) == comment,
{
    match comment {
        None => {
            lemma_trim_between(0, Seq::empty(), n);
            assert(spaces(0) + Seq::<char>::empty() + spaces(n) =~= spaces(n));
        },
        Some(c) => {
            let t = comment_text(comment, n);
            let u = seq!['/', ' '] + c + spaces(n);
            assert(t =~= spaces(1) + u);
            lemma_trim_start_spaces(1, u);
            assert(text::trim_start(u) == u);
            assert(u.skip(1) =~= spaces(1) + c + spaces(n));
            lemma_trim_between(1, c, n);
        },
    }
}

/// A word, its comment and blanks are read as the word's value and the comment.
proof fn lemma_word(m: nat, word: Seq<char>, comment: Option<Seq<char>>, n: nat)
    requires
        unpadded(word),
        word.len() > 0 ==> word[0] != '\'' && word[0] != '(',
        forall|i: int| 0 <= i < word.len() ==> #[trigger] word[i] != '/',
        comment matches Some(c) ==> c.len() > 0 && unpadded(c),
        word.len() == 0 ==> keyword::word_value(word) == ValueView::Undefined,
    ensures
        keyword::value_comment(spaces(m) + word + comment_text(comment, n)) == Some(
            (keyword::word_value(word), comment),
        ),
{
    let tail = comment_text(comment, n);
    let s = spaces(m) + word + tail;
    let t = text::trim_start(s);
    assert(s =~= spaces(m) + (word + tail));
    lemma_trim_start_spaces(m, word + tail);
    match comment {
        None => {
            lemma_trim_between(0, word, n);
            assert(spaces(0) + word + spaces(n) =~= word + spaces(n));
            if word.len() > 0 {
                assert(t == word + spaces(n));
                assert(t[0] == word[0]);
                assert forall|i: int| 0 <= i < t.len() implies #[trigger] t[i] != '/' by {
                    if i < word.len() {
                        assert(t[i] == word[i]);
                    }
                }
                lemma_first_of_is(t, '/', t.len() as int);
                assert(t.take(t.len() as int) =~= t);
            }
        },
        Some(c) => {
            let u = seq!['/', ' '] + c + spaces(n);
            if word.len() == 0 {
                assert(word + tail =~= spaces(1) + u);
                lemma_trim_start_spaces(1, u);
                assert(text::trim_start(u) == u);
                lemma_first_of_is(t, '/', 0);
                assert(t.take(0) =~= word);
                text::lemma_trim_same(word);
                assert(t.skip(1) =~= spaces(1) + c + spaces(n));
                lemma_trim_between(1, c, n);
            } else {
                assert((word + tail)[0] == word[0]);
                assert(t == word + tail);
                let k: int = word.len() as int + 1;
                assert forall|i: int| 0 <= i < k implies #[trigger] t[i] != '/' by {
                    if i < word.len() {
                        assert(t[i] == word[i]);
                    }
                }
                lemma_first_of_is(t, '/', k);
                assert(t.take(k) =~= spaces(0) + word + spaces(1));
                lemma_trim_between(0, word, 1);
                assert(t.skip(k + 1) =~= spaces(1) + c + spaces(n));
                lemma_trim_between(1, c, n);
            }
        },
    }
}

/// A character that a number may be written with.
pub open spec fn number_char(c: char) -> bool {
    text::is_digit(c) || c == '+' || c == '-' || c == '.' || 'a' <= c <= 'z' || 'A' <= c <= 'Z'
}

proof fn lemma_mantissa_chars(s: Seq<char>)
    requires
        number::is_mantissa(s),
    ensures
        s.len() > 0,
        forall|i: int| 0 <= i < s.len() ==> text::is_digit(#[trigger] s[i]) || s[i] == '.',
{
    number::lemma_first_of(s, '.', '.');
    let k = number::first_of(s, '.', '.');
    assert forall|i: int| 0 <= i < s.len() implies text::is_digit(#[trigger] s[i]) || s[i]
        == '.' by {
        if k < s.len() {
            if i < k {
                assert(s.take(k)[i] == s[i]);
            } else if i > k {
                assert(s.skip(k + 1)[i - k - 1] == s[i]);
            }
        }
    }
}

proof fn lemma_number_chars(s: Seq<char>)
    requires
        number::is_number(s),
    ensures
        s.len() > 0,
        forall|i: int| 0 <= i < s.len() ==> number_char(#[trigger] s[i]),
        text::is_digit(s[0]) || s[0] == '.',
{
    number::lemma_first_of(s, 'e', 'E');
    let k = number::first_of(s, 'e', 'E');
    if k == s.len() {
        lemma_mantissa_chars(s);
    } else {
        lemma_mantissa_chars(s.take(k));
        assert(s.take(k)[0] == s[0]);
        let x = s.skip(k + 1);
        let u = number::unsigned_part(x);
        assert forall|i: int| 0 <= i < s.len() implies number_char(#[trigger] s[i]) by {
            if i < k {
                assert(s.take(k)[i] == s[i]);
            } else if i > k {
                assert(x[i - k - 1] == s[i]);
                if u.len() < x.len() {
                    if i > k + 1 {
                        assert(u[i - k - 2] == s[i]);
                    }
                } else {
                    assert(u[i - k - 1] == s[i]);
                }
            }
        }
    }
}

/// Text that is a given word but for the case of its letters is made of letters.
proof fn lemma_name_chars(u: Seq<char>, name: Seq<char>)
    requires
        text::ascii_upper(u) == name,
        forall|i: int| 0 <= i < name.len() ==> 'A' <= #[trigger] name[i] <= 'Z',
    ensures
        forall|i: int| 0 <= i < u.len() ==> number_char(#[trigger] u[i]),
        u.len() == name.len(),
{
    assert forall|i: int| 0 <= i < u.len() implies number_char(#[trigger] u[i]) by {
        assert(name[i] == text::upper_char(u[i]));
        assert('A' <= name[i] <= 'Z');
    }
}

/// The text of a floating-point number is made of digits, signs, points and letters, and
/// is not a truth value.
proof fn lemma_float_chars(s: Seq<char>)
    requires
        number::is_float(s),
    ensures
        s.len() > 0,
        forall|i: int| 0 <= i < s.len() ==> number_char(#[trigger] s[i]),
        s != "T"@,
        s != "F"@,
{
    let u = number::unsigned_part(s);
    let name = text::ascii_upper(u);
    reveal_strlit("INF");
    reveal_strlit("INFINITY");
    reveal_strlit("NAN");
    reveal_strlit("T");
    reveal_strlit("F");
    if number::is_number(u) {
        lemma_number_chars(u);
    } else {
        lemma_name_chars(u, name);
    }
    assert forall|i: int| 0 <= i < s.len() implies number_char(#[trigger] s[i]) by {
        if u.len() < s.len() {
            if i > 0 {
                assert(u[i - 1] == s[i]);
            }
        }
    }
}

/// The decimal notation of an integer is made of digits and a sign.
proof fn lemma_decimal_chars(n: int)
    ensures
        decimal_chars(text::decimal(n)),
{
    text::decimal_round_trip(n);
    if n < 0 {
        text::lemma_decimal_nat((-n) as nat);
        let d = text::decimal_nat((-n) as nat);
        assert forall|i: int| 0 <= i < text::decimal(n).len() implies number_char(
            #[trigger] text::decimal(n)[i],
        ) by {
            if i > 0 {
                assert(d[i - 1] == text::decimal(n)[i]);
            }
        }
    } else {
        text::lemma_decimal_nat(n as nat);
    }
}

/// Text made of the characters of numbers.
pub open spec fn decimal_chars(s: Seq<char>) -> bool {
    s.len() > 0 && forall|i: int| 0 <= i < s.len() ==> number_char(#[trigger] s[i])
}

/// Two numbers in brackets, their comment and blanks are read as they were written.
proof fn lemma_complex(
    m: nat,
    a: Seq<char>,
    b: Seq<char>,
    comment: Option<Seq<char>>,
    n: nat,
    v: ValueView,
)
    requires
        decimal_chars(a),
        decimal_chars(b),
        number::exponent_e(a) == a,
        number::exponent_e(b) == b,
        comment matches Some(c) ==> c.len() > 0 && unpadded(c),
        if keyword::int64_of(a) is Some && keyword::int64_of(b) is Some {
            v == ValueView::ComplexInteger(keyword::int64_of(a)->0, keyword::int64_of(b)->0)
        } else {
            number::is_float(a) && number::is_float(b) && v == ValueView::ComplexFloat(a, b)
        },
    ensures
        keyword::value_comment(
            spaces(m) + ("("@ + a + ", "@ + b + ")"@) + comment_text(comment, n),
        ) == Some((v, comment)),
{
    reveal_strlit("(");
    reveal_strlit(", ");
    reveal_strlit(")");
    let p = "("@ + a + ", "@ + b + ")"@;
    let tail = comment_text(comment, n);
    let s = spaces(m) + p + tail;
    let t = p + tail;
    assert(s =~= spaces(m) + t);
    lemma_trim_start_spaces(m, t);
    assert(t[0] == '(');
    assert(text::trim_start(t) == t);
    let close: int = a.len() as int + b.len() as int + 3;
    assert forall|i: int| 0 <= i < close implies #[trigger] t[i] != ')' by {
        if 1 <= i < 1 + a.len() {
            assert(t[i] == a[i - 1]);
        } else if a.len() + 3 <= i {
            assert(t[i] == b[i - a.len() - 3]);
        }
    }
    lemma_first_of_is(t, ')', close);
    let inner = t.subrange(1, close);
    assert(inner =~= a + seq![',', ' '] + b);
    let comma: int = a.len() as int;
    assert forall|i: int| 0 <= i < comma implies #[trigger] inner[i] != ',' by {
        assert(inner[i] == a[i]);
    }
    lemma_first_of_is(inner, ',', comma);
    assert(inner.take(comma) =~= a);
    let second = inner.skip(comma + 1);
    assert(second =~= spaces(1) + b + spaces(0));
    assert forall|i: int| 0 <= i < second.len() implies #[trigger] second[i] != ',' by {
        if i > 0 {
            assert(second[i] == b[i - 1]);
        }
    }
    lemma_first_of_is(second, ',', second.len() as int);
    assert(number_char(a[0]) && number_char(a.last()));
    assert(number_char(b[0]) && number_char(b.last()));
    text::lemma_trim_same(a);
    lemma_trim_between(1, b, 0);
    assert(t.skip(close + 1) =~= tail);
    lemma_trailing_comment(comment, n);
}

/// What is read of a value's text, its comment and blanks.
spec fn value_read(m: nat, v: ValueView, comment: Option<Seq<char>>, n: nat) -> Option<
    (ValueView, Option<Seq<char>>),
> {
    keyword::value_comment(spaces(m) + v.plain_text() + comment_text(comment, n))
}

proof fn lemma_logical(m: nat, b: bool, comment: Option<Seq<char>>, n: nat)
    requires
        comment matches Some(c) ==> c.len() > 0 && unpadded(c),
    ensures
        value_read(m, ValueView::Logical(b), comment, n) == Some((ValueView::Logical(b), comment)),
        is_ascii_chars(ValueView::Logical(b).plain_text()),
{
    reveal_strlit("T");
    reveal_strlit("F");
    lemma_word(m, ValueView::Logical(b).plain_text(), comment, n);
}

proof fn lemma_integer(m: nat, i: int, comment: Option<Seq<char>>, n: nat)
    requires
        is_int64(i),
        comment matches Some(c) ==> c.len() > 0 && unpadded(c),
    ensures
        value_read(m, ValueView::Integer(i), comment, n) == Some((ValueView::Integer(i), comment)),
        is_ascii_chars(text::decimal(i)),
{
    let p = text::decimal(i);
    text::decimal_round_trip(i);
    lemma_decimal_chars(i);
    assert(number_char(p[0]) && number_char(p.last()));
    assert(p[0] == '-' || text::is_digit(p[0])) by {
        if i >= 0 {
            text::lemma_decimal_nat(i as nat);
        }
    }
    assert(p != "T"@ && p != "F"@) by {
        reveal_strlit("T");
        reveal_strlit("F");
    }
    lemma_word(m, p, comment, n);
}

proof fn lemma_float(m: nat, f: Seq<char>, comment: Option<Seq<char>>, n: nat)
    requires
        keeps_float(f),
        keyword::int64_of(f) is None,
        comment matches Some(c) ==> c.len() > 0 && unpadded(c),
    ensures
        value_read(m, ValueView::Float(f), comment, n) == Some((ValueView::Float(f), comment)),
        is_ascii_chars(f),
{
    lemma_float_chars(f);
    lemma_number_ascii(f);
    assert(number_char(f[0]) && number_char(f.last()));
    lemma_word(m, f, comment, n);
}

proof fn lemma_number_ascii(f: Seq<char>)
    requires
        decimal_chars(f),
    ensures
        is_ascii_chars(f),
{
    assert forall|i: int| 0 <= i < f.len() implies '\0' <= #[trigger] f[i] <= '\u{7f}' by {
        assert(number_char(f[i]));
    }
}

proof fn lemma_brackets_ascii(a: Seq<char>, b: Seq<char>)
    requires
        decimal_chars(a),
        decimal_chars(b),
    ensures
        is_ascii_chars("("@ + a + ", "@ + b + ")"@),
{
    reveal_strlit("(");
    reveal_strlit(", ");
    reveal_strlit(")");
    lemma_number_ascii(a);
    lemma_number_ascii(b);
    let p = "("@ + a + ", "@ + b + ")"@;
    assert forall|i: int| 0 <= i < p.len() implies '\0' <= #[trigger] p[i] <= '\u{7f}' by {
        if 1 <= i < 1 + a.len() {
            assert(p[i] == a[i - 1]);
        } else if a.len() + 3 <= i < a.len() + 3 + b.len() {
            assert(p[i] == b[i - a.len() - 3]);
        }
    }
}

proof fn lemma_undefined(m: nat, comment: Option<Seq<char>>, n: nat)
    requires
        comment matches Some(c) ==> c.len() > 0 && unpadded(c),
    ensures
        value_read(m, ValueView::Undefined, comment, n) == Some((ValueView::Undefined, comment)),
{
    let p = Seq::<char>::empty();
    assert(!text::all_digits(p));
    assert(number::exponent_e(p) =~= p);
    assert(!number::is_float(p)) by {
        reveal_strlit("INF");
        reveal_strlit("INFINITY");
        reveal_strlit("NAN");
        assert(text::ascii_upper(p).len() == 0);
    }
    assert(keyword::word_value(p) == ValueView::Undefined) by {
        reveal_strlit("T");
        reveal_strlit("F");
    }
    lemma_word(m, p, comment, n);
}

/// A value other than a string, its comment and blanks are read as they were written.
proof fn lemma_value(m: nat, v: ValueView, comment: Option<Seq<char>>, n: nat)
    requires
        keeps_value(v),
        comment matches Some(c) ==> c.len() > 0 && unpadded(c),
    ensures
        value_read(m, v, comment, n) == Some((v, comment)),
        is_ascii_chars(v.plain_text()),
{
    match v {
        ValueView::Logical(b) => {
            lemma_logical(m, b, comment, n);
        },
        ValueView::Integer(i) => {
            lemma_integer(m, i, comment, n);
        },
        ValueView::Float(f) => {
            lemma_float(m, f, comment, n);
        },
        ValueView::Text(_) => {},
        ValueView::ComplexInteger(a, b) => {
            text::decimal_round_trip(a);
            text::decimal_round_trip(b);
            lemma_decimal_chars(a);
            lemma_decimal_chars(b);
            lemma_decimal_plain(a);
            lemma_decimal_plain(b);
            lemma_brackets_ascii(text::decimal(a), text::decimal(b));
            lemma_complex(m, text::decimal(a), text::decimal(b), comment, n, v);
        },
        ValueView::ComplexFloat(a, b) => {
            lemma_float_chars(a);
            lemma_float_chars(b);
            lemma_brackets_ascii(a, b);
            lemma_complex(m, a, b, comment, n, v);
        },
        ValueView::Undefined => {
            lemma_undefined(m, comment, n);
        },
    }
}

/// The decimal notation of an integer has no exponent.
proof fn lemma_decimal_plain(n: int)
    ensures
        number::exponent_e(text::decimal(n)) == text::decimal(n),
{
    let s = text::decimal(n);
    if n < 0 {
        let d = text::decimal_nat((-n) as nat);
        text::lemma_decimal_nat((-n) as nat);
        assert forall|i: int| 0 <= i < s.len() implies #[trigger] s[i] != 'D' && s[i] != 'd' by {
            if i > 0 {
                assert(text::is_digit(d[i - 1]));
            }
        }
    } else {
        text::lemma_decimal_nat(n as nat);
        assert forall|i: int| 0 <= i < s.len() implies #[trigger] s[i] != 'D' && s[i] != 'd' by {
            assert(text::is_digit(s[i]));
        }
    }
    assert(number::exponent_e(s) =~= s);
}

proof fn lemma_chars_add(a: Seq<u8>, b: Seq<u8>)
    ensures
        text::chars_of(a + b) == text::chars_of(a) + text::chars_of(b),
{
    assert(text::chars_of(a + b) =~= text::chars_of(a) + text::chars_of(b));
}

/// The quotes of text that is written twice.
proof fn lemma_doubled_add(a: Seq<u8>, b: Seq<u8>)
    ensures
        keyword::doubled_quotes(a + b) == keyword::doubled_quotes(a) + keyword::doubled_quotes(b),
    decreases b.len(),
{
    if b.len() == 0 {
        assert(a + b =~= a);
        assert(keyword::doubled_quotes(a) + keyword::doubled_quotes(b) =~= keyword::doubled_quotes(
            a,
        ));
    } else {
        lemma_doubled_add(a, b.drop_last());
        assert((a + b).drop_last() =~= a + b.drop_last());
        assert(keyword::doubled_quotes(a + b) =~= keyword::doubled_quotes(a)
            + keyword::doubled_quotes(b));
    }
}

proof fn lemma_doubled_ascii(b: Seq<u8>)
    requires
        text::all_ascii(b),
    ensures
        text::all_ascii(keyword::doubled_quotes(b)),
        keyword::doubled_quotes(b).len() >= b.len(),
    decreases b.len(),
{
    if b.len() > 0 {
        assert(text::all_ascii(b.drop_last()));
        lemma_doubled_ascii(b.drop_last());
    }
}

/// The content of a quoted string with text before it.
spec fn prefixed(s: Seq<char>, q: Option<(Seq<char>, Seq<char>)>) -> Option<
    (Seq<char>, Seq<char>),
> {
    match q {
        None => None,
        Some((content, rest)) => Some((s + content, rest)),
    }
}

proof fn lemma_prefixed(a: Seq<char>, b: Seq<char>, q: Option<(Seq<char>, Seq<char>)>)
    ensures
        prefixed(a, prefixed(b, q)) == prefixed(a + b, q),
        prefixed(Seq::empty(), q) == q,
{
    match q {
        None => {},
        Some((c, _)) => {
            assert(a + (b + c) =~= a + b + c);
            assert(Seq::<char>::empty() + c =~= c);
        },
    }
}

proof fn lemma_quoted_one(c: u8, r: Seq<char>)
    ensures
        keyword::quoted(text::chars_of(keyword::doubled_quotes(seq![c])) + r) == prefixed(
            seq![c as char],
            keyword::quoted(r),
        ),
{
    let one = seq![c];
    assert(one.drop_last() =~= Seq::<u8>::empty());
    assert(keyword::doubled_quotes(Seq::<u8>::empty()) =~= Seq::<u8>::empty());
    if c == 0x27 {
        assert(keyword::doubled_quotes(one) =~= seq![0x27u8, 0x27]);
        let t = text::chars_of(keyword::doubled_quotes(one)) + r;
        assert(t.skip(2) =~= r);
        assert(t[0] == '\'' && t[1] == '\'');
    } else {
        assert(keyword::doubled_quotes(one) =~= one);
        let t = text::chars_of(keyword::doubled_quotes(one)) + r;
        assert(t.skip(1) =~= r);
        assert(t[0] != '\'');
    }
}

/// Doubled quotes are read as single ones.
proof fn lemma_quoted_doubled(b: Seq<u8>, r: Seq<char>)
    ensures
        keyword::quoted(text::chars_of(keyword::doubled_quotes(b)) + r) == prefixed(
            text::chars_of(b),
            keyword::quoted(r),
        ),
    decreases b.len(),
{
    lemma_prefixed(Seq::empty(), Seq::empty(), keyword::quoted(r));
    if b.len() == 0 {
        assert(text::chars_of(keyword::doubled_quotes(b)) + r =~= r);
        assert(text::chars_of(b) =~= Seq::<char>::empty());
    } else {
        let a = b.drop_last();
        let c = b.last();
        let piece = text::chars_of(keyword::doubled_quotes(seq![c]));
        assert(a + seq![c] =~= b);
        lemma_doubled_add(a, seq![c]);
        lemma_chars_add(keyword::doubled_quotes(a), keyword::doubled_quotes(seq![c]));
        assert(text::chars_of(keyword::doubled_quotes(b)) + r =~= text::chars_of(
            keyword::doubled_quotes(a),
        ) + (piece + r));
        lemma_quoted_doubled(a, piece + r);
        lemma_quoted_one(c, r);
        lemma_prefixed(text::chars_of(a), seq![c as char], keyword::quoted(r));
        assert(text::chars_of(b) =~= text::chars_of(a) + seq![c as char]);
    }
}

proof fn lemma_quoted_spaces(n: nat, r: Seq<char>)
    requires
        r.len() == 0 || r[0] != '\'',
    ensures
        keyword::quoted(spaces(n) + seq!['\''] + r) == Some((spaces(n), r)),
    decreases n,
{
    let t = spaces(n) + seq!['\''] + r;
    if n == 0 {
        assert(t[0] == '\'');
        assert(t.skip(1) =~= r);
        assert(spaces(0) =~= Seq::<char>::empty());
    } else {
        assert(t[0] == ' ');
        assert(t.skip(1) =~= spaces((n - 1) as nat) + seq!['\''] + r);
        lemma_quoted_spaces((n - 1) as nat, r);
        assert(seq![' '] + spaces((n - 1) as nat) =~= spaces(n));
    }
}

/// ASCII text with blanks behind it has a byte for each character.
proof fn lemma_byte_chars(b: Seq<u8>, pad: nat)
    requires
        text::all_ascii(b),
    ensures
        keyword::byte_chars(text::chars_of(b) + spaces(pad)) == text::chars_of(b) + spaces(pad),
{
    let s = text::chars_of(b) + spaces(pad);
    assert forall|i: int| 0 <= i < s.len() implies '\0' <= #[trigger] s[i] <= '\u{7f}' by {
        if i < b.len() {
            assert(s[i] == b[i] as char);
        }
    }
    text::lemma_bytes_chars(s);
}

/// A string in quotes is read as it was written.
proof fn lemma_string_value(b: Seq<u8>, pad: nat, tail: Seq<char>)
    requires
        text::all_ascii(b),
        tail.len() == 0 || tail[0] != '\'',
    ensures
        ({
            let s = seq!['\''] + text::chars_of(keyword::doubled_quotes(b)) + spaces(pad)
                + seq!['\''] + tail;
            &&& keyword::string_value(s) == Some(
                (
                    keyword::string_content(text::chars_of(b) + spaces(pad)),
                    keyword::trailing_comment(tail),
                ),
            )
            &&& keyword::value_comment(s) == Some(
                (
                    ValueView::Text(keyword::string_content(text::chars_of(b) + spaces(pad))),
                    keyword::trailing_comment(tail),
                ),
            )
            &&& text::trim_start(s) == s
        }),
{
    let d = text::chars_of(keyword::doubled_quotes(b));
    let s = seq!['\''] + d + spaces(pad) + seq!['\''] + tail;
    let r = spaces(pad) + seq!['\''] + tail;
    assert(s.skip(1) =~= d + r);
    lemma_quoted_doubled(b, r);
    lemma_quoted_spaces(pad, tail);
    lemma_byte_chars(b, pad);
    assert(s[0] == '\'');
}

proof fn lemma_content_whole(b: Seq<u8>, pad: nat)
    requires
        b.len() > 0 ==> !text::is_space(b.last() as char) && b.last() != 0x26,
    ensures
        keyword::string_content(text::chars_of(b) + spaces(pad)) == text::chars_of(b),
{
    lemma_trim_end_spaces(text::chars_of(b), pad);
    if b.len() > 0 {
        assert(text::chars_of(b).last() == b.last() as char);
        assert(b.last() as char != '&');
    }
}

proof fn lemma_content_part(b: Seq<u8>)
    ensures
        keyword::string_content(text::chars_of(b.push(0x26)) + spaces(0)) == text::chars_of(b),
{
    let c = text::chars_of(b.push(0x26));
    assert(c + spaces(0) =~= c);
    assert(c.last() == '&');
    assert(c.drop_last() =~= text::chars_of(b));
}

pub proof fn lemma_spaces_bytes(n: nat)
    ensures
        text::bytes_of(spaces(n)) == keyword::blanks(n as int),
{
    let s = spaces(n);
    assert forall|i: int| 0 <= i < s.len() implies '\0' <= #[trigger] s[i] <= '\u{7f}' by {}
    text::lemma_bytes_chars(s);
    assert forall|i: int| 0 <= i < n implies #[trigger] text::bytes_of(s)[i] == 0x20 by {
        assert(text::bytes_of(s)[i] == s[i] as u8);
    }
    assert(text::bytes_of(s) =~= keyword::blanks(n as int));
}

/// A card holds its line and blanks behind it.
proof fn lemma_card_text(line: Seq<u8>, t: Seq<char>)
    requires
        line == text::bytes_of(t),
        line.len() <= 80,
    ensures
        keyword::card_of(line).len() == 80,
        keyword::card_of(line) == text::bytes_of(t + spaces((80 - line.len()) as nat)),
{
    let n = (80 - line.len()) as nat;
    text::lemma_bytes_add(t, spaces(n));
    lemma_spaces_bytes(n);
    assert(keyword::card_of(line) =~= line + keyword::blanks(n as int));
}

/// The first columns of a card with a name.
pub open spec fn name_text(name: Seq<char>) -> Seq<char> {
    name + spaces((8 - text::bytes_of(name).len()) as nat)
}

proof fn lemma_name_field(name: Seq<char>)
    requires
        text::bytes_of(name).len() <= 8,
    ensures
        keyword::fixed(text::bytes_of(name), 8) == text::bytes_of(name_text(name)),
        text::bytes_of(name_text(name)).len() == 8,
{
    let b = text::bytes_of(name);
    let n = (8 - b.len()) as nat;
    text::lemma_bytes_add(name, spaces(n));
    lemma_spaces_bytes(n);
    assert(keyword::fixed(b, 8) =~= b + keyword::blanks(n as int));
}

proof fn lemma_valued_start(name: Seq<char>)
    requires
        text::bytes_of(name).len() <= 8,
    ensures
        keyword::valued_start(name).len() == 10,
        keyword::valued_start(name) == text::bytes_of(name_text(name) + seq!['=', ' ']),
{
    lemma_name_field(name);
    text::lemma_bytes_add(name_text(name), seq!['=', ' ']);
    lemma_ascii_line(seq![0x3du8, 0x20], seq!['=', ' ']);
}

/// ASCII text and its bytes.
proof fn lemma_ascii_line(line: Seq<u8>, t: Seq<char>)
    requires
        text::all_ascii(line),
        text::chars_of(line) =~= t,
    ensures
        line == text::bytes_of(t),
{
    text::lemma_chars_bytes(line);
}

/// The text of a card with a comment.
proof fn lemma_commented(line: Seq<u8>, t: Seq<char>, comment: Option<Seq<char>>)
    requires
        line == text::bytes_of(t),
        keeps_comment(comment, line.len() as int),
    ensures
        ({
            let whole = keyword::commented(line, comment);
            let card = keyword::card_of(whole);
            &&& whole.len() <= 80
            &&& card.len() == 80
            &&& card == text::bytes_of(t + comment_text(comment, (80 - whole.len()) as nat))
        }),
{
    let whole = keyword::commented(line, comment);
    let n = (80 - whole.len()) as nat;
    match comment {
        None => {
            lemma_card_text(line, t);
        },
        Some(c) => {
            let mid = seq![0x20u8, 0x2f, 0x20];
            lemma_ascii_line(mid, seq![' ', '/', ' ']);
            text::lemma_nonempty_bytes(c);
            text::lemma_bytes_add(t, seq![' ', '/', ' ']);
            text::lemma_bytes_add(t + seq![' ', '/', ' '], c);
            lemma_card_text(whole, t + seq![' ', '/', ' '] + c);
            assert(t + seq![' ', '/', ' '] + c + spaces(n) =~= t + comment_text(comment, n));
        },
    }
}

/// The fields of a card whose text starts with eight bytes of name field.
proof fn lemma_card_fields(record: Seq<u8>, field: Seq<char>, rest: Seq<char>)
    requires
        record == text::bytes_of(field + rest),
        text::bytes_of(field).len() == 8,
    ensures
        record.take(8) == text::bytes_of(field),
        valid_utf8(record.take(8)),
        decode_utf8(record.take(8)) == field,
        valid_utf8(record.skip(8)),
        decode_utf8(record.skip(8)) == rest,
{
    text::lemma_bytes_add(field, rest);
    assert(record.take(8) =~= text::bytes_of(field));
    assert(record.skip(8) =~= text::bytes_of(rest));
    encode_utf8_valid_utf8(field);
    encode_utf8_decode_utf8(field);
    encode_utf8_valid_utf8(rest);
    encode_utf8_decode_utf8(rest);
}

/// A card that does not hold the name `END` does not end the header.
proof fn lemma_not_end(record: Seq<u8>, name: Seq<char>)
    requires
        record.len() == 80,
        name.len() > 0 ==> !text::is_space(name.last()),
        name != "END"@,
        record.take(8) == text::bytes_of(name_text(name)),
    ensures
        !header::is_end(record),
        text::trim_end(name_text(name)) == name,
{
    lemma_trim_end_spaces(name, (8 - text::bytes_of(name).len()) as nat);
    assert(text::trim_end(name) == name);
    if header::is_end(record) {
        reveal_strlit("END");
        let field = "END"@ + spaces(5);
        let bytes = record.take(8);
        assert forall|i: int| 0 <= i < 8 implies #[trigger] bytes[i] == record[i] by {}
        lemma_ascii_line(bytes, field);
        encode_utf8_decode_utf8(field);
        encode_utf8_decode_utf8(name_text(name));
        lemma_trim_end_spaces("END"@, 5);
        assert(text::trim_end("END"@) == "END"@);
    }
}

/// Whether a card is read as a keyword, and does not end the header.
#[verifier::opaque]
pub open spec fn reads(record: Seq<u8>, k: KeywordView) -> bool {
    keyword::card_keyword(record) == Some(k) && !header::is_end(record)
}

/// A card with a name and a value is read as they were written.
proof fn lemma_valued_card(
    record: Seq<u8>,
    name: Seq<char>,
    txt: Seq<char>,
    v: ValueView,
    c: Option<Seq<char>>,
)
    requires
        keeps_field(name),
        record.len() == 80,
        record == text::bytes_of(name_text(name) + seq!['=', ' '] + txt),
        keyword::value_comment(txt) == Some((v, c)),
    ensures
        reads(record, KeywordView { name, value: Some(v), comment: c }),
{
    reveal(reads);
    let rest = seq!['=', ' '] + txt;
    assert(name_text(name) + seq!['=', ' '] + txt =~= name_text(name) + rest);
    lemma_name_field(name);
    lemma_card_fields(record, name_text(name), rest);
    lemma_not_end(record, name);
    assert(rest.skip(2) =~= txt);
}

/// A CONTINUE card is read as it was written.
proof fn lemma_continue_card(
    record: Seq<u8>,
    txt: Seq<char>,
    v: Seq<char>,
    c: Option<Seq<char>>,
)
    requires
        record.len() == 80,
        record == text::bytes_of("CONTINUE"@ + spaces(2) + txt),
        text::trim_start(txt) == txt,
        keyword::string_value(txt) == Some((v, c)),
    ensures
        reads(record, text_keyword("CONTINUE"@, v, c)),
{
    reveal(reads);
    reveal_strlit("CONTINUE");
    reveal_strlit("END");
    let name = "CONTINUE"@;
    let rest = spaces(2) + txt;
    text::lemma_bytes_chars(name);
    assert(name_text(name) =~= name);
    assert(name + spaces(2) + txt =~= name + rest);
    lemma_card_fields(record, name, rest);
    assert(name.len() != "END"@.len());
    lemma_not_end(record, name);
    lemma_trim_start_spaces(2, txt);
    assert(rest[0] == ' ');
}

/// The keywords that cards add to a list; `None` where one of them ends the header or is
/// malformed.
pub open spec fn read_cards(cards: Seq<Seq<u8>>, h: Seq<KeywordView>) -> Option<Seq<KeywordView>>
    decreases cards.len(),
{
    if cards.len() == 0 {
        Some(h)
    } else if header::is_end(cards[0]) {
        None
    } else {
        match keyword::card_keyword(cards[0]) {
            None => None,
            Some(k) => read_cards(cards.skip(1), header::with_card(h, k)),
        }
    }
}

proof fn lemma_read_first(
    record: Seq<u8>,
    k: KeywordView,
    more: Seq<Seq<u8>>,
    h: Seq<KeywordView>,
)
    requires
        reads(record, k),
    ensures
        read_cards(seq![record] + more, h) == read_cards(more, header::with_card(h, k)),
{
    reveal(reads);
    let cards = seq![record] + more;
    assert(cards[0] == record);
    assert(cards.skip(1) =~= more);
}

proof fn lemma_read_one(record: Seq<u8>, k: KeywordView, h: Seq<KeywordView>)
    requires
        reads(record, k),
    ensures
        read_cards(seq![record], h) == Some(header::with_card(h, k)),
{
    let none = Seq::<Seq<u8>>::empty();
    lemma_read_first(record, k, none, h);
    assert(seq![record] + none =~= seq![record]);
    assert(read_cards(none, header::with_card(h, k)) == Some(header::with_card(h, k)));
}

proof fn lemma_char_count(b: Seq<u8>)
    requires
        text::all_ascii(b),
    ensures
        keyword::char_count(b) == b.len(),
    decreases b.len(),
{
    if b.len() > 0 {
        assert(text::all_ascii(b.drop_last()));
        lemma_char_count(b.drop_last());
    }
}

/// The text of a line that ends in a whole string in quotes.
proof fn lemma_whole_string(start: Seq<u8>, t: Seq<char>, b: Seq<u8>)
    requires
        start == text::bytes_of(t),
        text::all_ascii(b),
    ensures
        ({
            let d = keyword::doubled_quotes(b);
            let line = keyword::whole_string(start, d);
            let pad = (at_least(d.len() as int, 8) - d.len()) as nat;
            &&& line.len() == start.len() + 2 + at_least(d.len() as int, 8)
            &&& line == text::bytes_of(
                t + (seq!['\''] + text::chars_of(d) + spaces(pad) + seq!['\'']),
            )
        }),
{
    let d = keyword::doubled_quotes(b);
    let pad = (at_least(d.len() as int, 8) - d.len()) as nat;
    let quoted = seq!['\''] + text::chars_of(d) + spaces(pad) + seq!['\''];
    let bytes = seq![0x27u8] + d + keyword::blanks(pad as int) + seq![0x27u8];
    lemma_doubled_ascii(b);
    lemma_char_count(d);
    lemma_ascii_line(bytes, quoted);
    text::lemma_bytes_add(t, quoted);
    assert(keyword::padded_content(d) =~= d + keyword::blanks(pad as int));
    assert(keyword::whole_string(start, d) =~= start + bytes);
}

/// The text of a line that ends in a part of a string with the continuation mark.
proof fn lemma_part_string(start: Seq<u8>, t: Seq<char>, b: Seq<u8>)
    requires
        start == text::bytes_of(t),
        text::all_ascii(b),
    ensures
        ({
            let d = keyword::doubled_quotes(b);
            let line = keyword::part_string(start, d);
            &&& line.len() == start.len() + 3 + d.len()
            &&& line == text::bytes_of(
                t + (seq!['\''] + text::chars_of(keyword::doubled_quotes(b.push(0x26)))
                    + spaces(0) + seq!['\'']),
            )
        }),
{
    let d = keyword::doubled_quotes(b);
    let e = keyword::doubled_quotes(b.push(0x26));
    assert(b.push(0x26).drop_last() =~= b);
    assert(e =~= d.push(0x26));
    let quoted = seq!['\''] + text::chars_of(e) + spaces(0) + seq!['\''];
    let bytes = seq![0x27u8] + d + seq![0x26u8, 0x27];
    lemma_doubled_ascii(b);
    lemma_ascii_line(bytes, quoted);
    text::lemma_bytes_add(t, quoted);
    assert(keyword::part_string(start, d) =~= start + bytes);
}

proof fn lemma_continue_start()
    ensures
        keyword::continue_start().len() == 10,
        keyword::continue_start() == text::bytes_of("CONTINUE"@ + spaces(2)),
{
    reveal_strlit("CONTINUE");
    text::lemma_bytes_chars("CONTINUE"@);
    text::lemma_bytes_add("CONTINUE"@, spaces(2));
    lemma_spaces_bytes(2);
    assert(keyword::continue_start() =~= text::bytes_of("CONTINUE"@) + keyword::blanks(2));
}

/// The last part of a string, whole in its card, is read as it was written.
proof fn lemma_whole_card(
    start: Seq<u8>,
    t: Seq<char>,
    b: Seq<u8>,
    comment: Option<Seq<char>>,
) -> (r: (Seq<u8>, Seq<char>))
    requires
        start == text::bytes_of(t),
        text::all_ascii(b),
        start.len() == 10,
        b.len() > 0 ==> !text::is_space(b.last() as char) && b.last() != 0x26,
        keeps_comment(comment, 12 + at_least(keyword::doubled_quotes(b).len() as int, 8)),
    ensures
        r.0 == keyword::card_of(
            keyword::commented(
                keyword::whole_string(start, keyword::doubled_quotes(b)),
                comment,
            ),
        ),
        r.0.len() == 80,
        r.0 == text::bytes_of(t + r.1),
        keyword::string_value(r.1) == Some((text::chars_of(b), comment)),
        keyword::value_comment(r.1) == Some((ValueView::Text(text::chars_of(b)), comment)),
        text::trim_start(r.1) == r.1,
{
    let d = keyword::doubled_quotes(b);
    let pad = (at_least(d.len() as int, 8) - d.len()) as nat;
    let line = keyword::whole_string(start, d);
    let quoted = seq!['\''] + text::chars_of(d) + spaces(pad) + seq!['\''];
    lemma_whole_string(start, t, b);
    lemma_commented(line, t + quoted, comment);
    let whole = keyword::commented(line, comment);
    let n = (80 - whole.len()) as nat;
    let tail = comment_text(comment, n);
    let txt = quoted + tail;
    lemma_string_value(b, pad, tail);
    lemma_content_whole(b, pad);
    lemma_trailing_comment(comment, n);
    assert(t + quoted + tail =~= t + txt);
    (keyword::card_of(whole), txt)
}

/// A part of a string in its card is read as it was written.
proof fn lemma_part_card(start: Seq<u8>, t: Seq<char>, b: Seq<u8>) -> (r: (Seq<u8>, Seq<char>))
    requires
        start == text::bytes_of(t),
        text::all_ascii(b),
        start.len() == 10,
        keyword::doubled_quotes(b).len() == 67,
    ensures
        r.0 == keyword::card_of(keyword::part_string(start, keyword::doubled_quotes(b))),
        r.0.len() == 80,
        r.0 == text::bytes_of(t + r.1),
        keyword::string_value(r.1) == Some((text::chars_of(b), None::<Seq<char>>)),
        keyword::value_comment(r.1) == Some(
            (ValueView::Text(text::chars_of(b)), None::<Seq<char>>),
        ),
        text::trim_start(r.1) == r.1,
{
    let line = keyword::part_string(start, keyword::doubled_quotes(b));
    let quoted = seq!['\''] + text::chars_of(keyword::doubled_quotes(b.push(0x26))) + spaces(0)
        + seq!['\''];
    lemma_part_string(start, t, b);
    lemma_card_text(line, t + quoted);
    let none: Option<Seq<char>> = None;
    let tail = comment_text(none, 0);
    let txt = quoted + tail;
    lemma_string_value(b.push(0x26), 0, tail);
    lemma_content_part(b);
    lemma_trailing_comment(none, 0);
    assert(t + quoted + tail =~= t + txt);
    (keyword::card_of(line), txt)
}

proof fn lemma_splits_step(b: Seq<u8>) -> (j: int)
    requires
        splits(b),
        keyword::doubled_quotes(b).len() > 67,
    ensures
        0 < j <= b.len(),
        keyword::doubled_quotes(b).take(67) == keyword::doubled_quotes(b.take(j)),
        keyword::doubled_quotes(b).skip(67) == keyword::doubled_quotes(b.skip(j)),
        keyword::doubled_quotes(b.take(j)).len() == 67,
        splits(b.skip(j)),
        j < b.len(),
{
    let j = choose|j: int|
        0 < j <= b.len() && keyword::doubled_quotes(#[trigger] b.take(j)).len() == 67 && splits(
            b.skip(j),
        );
    lemma_doubled_add(b.take(j), b.skip(j));
    assert(b.take(j) + b.skip(j) =~= b);
    let d = keyword::doubled_quotes(b);
    assert(d.take(67) =~= keyword::doubled_quotes(b.take(j)));
    assert(d.skip(67) =~= keyword::doubled_quotes(b.skip(j)));
    if j == b.len() {
        assert(b.skip(j) =~= Seq::<u8>::empty());
    }
    j
}

/// A string keyword.
spec fn text_keyword(name: Seq<char>, s: Seq<char>, comment: Option<Seq<char>>) -> KeywordView {
    KeywordView { name, value: Some(ValueView::Text(s)), comment }
}

proof fn lemma_with_continue(
    h: Seq<KeywordView>,
    name: Seq<char>,
    s: Seq<char>,
    t: Seq<char>,
    c: Option<Seq<char>>,
)
    ensures
        header::with_card(h.push(text_keyword(name, s, None)), text_keyword("CONTINUE"@, t, c))
            == h.push(text_keyword(name, s + t, c)),
{
    let g = h.push(text_keyword(name, s, None));
    assert(g.drop_last() =~= h);
}

/// The last CONTINUE card is read as the rest of the string it was written for.
proof fn lemma_last_continue_read(
    h: Seq<KeywordView>,
    name: Seq<char>,
    s: Seq<char>,
    b: Seq<u8>,
    comment: Option<Seq<char>>,
)
    requires
        text::all_ascii(b),
        0 < keyword::doubled_quotes(b).len() <= 67,
        b.len() > 0 ==> !text::is_space(b.last() as char) && b.last() != 0x26,
        keeps_comment(comment, 12 + at_least(keyword::doubled_quotes(b).len() as int, 8)),
    ensures
        read_cards(
            keyword::continue_cards(keyword::doubled_quotes(b), comment),
            h.push(text_keyword(name, s, None)),
        ) == Some(h.push(text_keyword(name, s + text::chars_of(b), comment))),
{
    let g = h.push(text_keyword(name, s, None));
    lemma_continue_start();
    let (record, txt) = lemma_whole_card(
        keyword::continue_start(),
        "CONTINUE"@ + spaces(2),
        b,
        comment,
    );
    lemma_continue_card(record, txt, text::chars_of(b), comment);
    lemma_with_continue(h, name, s, text::chars_of(b), comment);
    lemma_read_one(record, text_keyword("CONTINUE"@, text::chars_of(b), comment), g);
}

/// A CONTINUE card with a part of a string is read as that part.
proof fn lemma_part_continue_read(
    h: Seq<KeywordView>,
    name: Seq<char>,
    s: Seq<char>,
    b: Seq<u8>,
    more: Seq<Seq<u8>>,
)
    requires
        text::all_ascii(b),
        keyword::doubled_quotes(b).len() == 67,
    ensures
        read_cards(
            seq![
                keyword::card_of(
                    keyword::part_string(keyword::continue_start(), keyword::doubled_quotes(b)),
                ),
            ] + more,
            h.push(text_keyword(name, s, None)),
        ) == read_cards(more, h.push(text_keyword(name, s + text::chars_of(b), None))),
{
    let g = h.push(text_keyword(name, s, None));
    lemma_continue_start();
    let part = text::chars_of(b);
    let (record, txt) = lemma_part_card(
        keyword::continue_start(),
        "CONTINUE"@ + spaces(2),
        b,
    );
    lemma_continue_card(record, txt, part, None);
    lemma_with_continue(h, name, s, part, None);
    lemma_read_first(record, text_keyword("CONTINUE"@, part, None), more, g);
}

proof fn lemma_last_part_length(n: int)
    requires
        n > 0,
    ensures
        n <= 67 ==> (n - 1) % 67 == n - 1,
        (n - 67 - 1) % 67 == (n - 1) % 67,
{
}

/// CONTINUE cards are read as the rest of the string they were written for.
#[verifier::spinoff_prover]
#[verifier::rlimit(40)]
proof fn lemma_continue_cards_read(
    h: Seq<KeywordView>,
    name: Seq<char>,
    s: Seq<char>,
    b: Seq<u8>,
    comment: Option<Seq<char>>,
)
    requires
        text::all_ascii(b),
        b.len() > 0,
        splits(b),
        !text::is_space(b.last() as char) && b.last() != 0x26,
        keeps_comment(
            comment,
            12 + at_least((keyword::doubled_quotes(b).len() - 1) % 67 + 1, 8),
        ),
    ensures
        read_cards(
            keyword::continue_cards(keyword::doubled_quotes(b), comment),
            h.push(text_keyword(name, s, None)),
        ) == Some(h.push(text_keyword(name, s + text::chars_of(b), comment))),
    decreases b.len(),
{
    let d = keyword::doubled_quotes(b);
    lemma_doubled_ascii(b);
    lemma_last_part_length(d.len() as int);
    if d.len() <= 67 {
        lemma_last_continue_read(h, name, s, b, comment);
    } else {
        let j = lemma_splits_step(b);
        let part = text::chars_of(b.take(j));
        lemma_part_continue_read(
            h,
            name,
            s,
            b.take(j),
            keyword::continue_cards(d.skip(67), comment),
        );
        assert(b.skip(j).last() == b.last());
        lemma_continue_cards_read(h, name, s + part, b.skip(j), comment);
        assert(s + part + text::chars_of(b.skip(j)) =~= s + text::chars_of(b));
    }
}

/// The card of a string that fits in it is read as it was written.
proof fn lemma_whole_valued(name: Seq<char>, b: Seq<u8>, comment: Option<Seq<char>>)
    requires
        keeps_field(name),
        text::all_ascii(b),
        b.len() > 0 ==> !text::is_space(b.last() as char) && b.last() != 0x26,
        keeps_comment(comment, 12 + at_least(keyword::doubled_quotes(b).len() as int, 8)),
    ensures
        reads(
            keyword::card_of(
                keyword::commented(
                    keyword::whole_string(keyword::valued_start(name), keyword::doubled_quotes(b)),
                    comment,
                ),
            ),
            text_keyword(name, text::chars_of(b), comment),
        ),
{
    lemma_valued_start(name);
    let s = text::chars_of(b);
    let (record, txt) = lemma_whole_card(
        keyword::valued_start(name),
        name_text(name) + seq!['=', ' '],
        b,
        comment,
    );
    lemma_valued_card(record, name, txt, ValueView::Text(s), comment);
}

/// The card of a string that fits in it is read as it was written.
proof fn lemma_whole_valued_read(
    h: Seq<KeywordView>,
    name: Seq<char>,
    b: Seq<u8>,
    comment: Option<Seq<char>>,
)
    requires
        keeps_name(name),
        text::all_ascii(b),
        b.len() > 0 ==> !text::is_space(b.last() as char) && b.last() != 0x26,
        keeps_comment(comment, 12 + at_least(keyword::doubled_quotes(b).len() as int, 8)),
    ensures
        read_cards(
            seq![
                keyword::card_of(
                    keyword::commented(
                        keyword::whole_string(
                            keyword::valued_start(name),
                            keyword::doubled_quotes(b),
                        ),
                        comment,
                    ),
                ),
            ],
            h,
        ) == Some(h.push(text_keyword(name, text::chars_of(b), comment))),
{
    lemma_whole_valued(name, b, comment);
    let record = keyword::card_of(
        keyword::commented(
            keyword::whole_string(keyword::valued_start(name), keyword::doubled_quotes(b)),
            comment,
        ),
    );
    lemma_read_one(record, text_keyword(name, text::chars_of(b), comment), h);
}

/// The card of the first part of a string is read as that part.
proof fn lemma_part_valued_read(
    h: Seq<KeywordView>,
    name: Seq<char>,
    b: Seq<u8>,
    more: Seq<Seq<u8>>,
)
    requires
        keeps_name(name),
        text::all_ascii(b),
        keyword::doubled_quotes(b).len() == 67,
    ensures
        read_cards(
            seq![
                keyword::card_of(
                    keyword::part_string(keyword::valued_start(name), keyword::doubled_quotes(b)),
                ),
            ] + more,
            h,
        ) == read_cards(more, h.push(text_keyword(name, text::chars_of(b), None))),
{
    lemma_valued_start(name);
    let s = text::chars_of(b);
    let (record, txt) = lemma_part_card(
        keyword::valued_start(name),
        name_text(name) + seq!['=', ' '],
        b,
    );
    lemma_valued_card(record, name, txt, ValueView::Text(s), None);
    lemma_read_first(record, text_keyword(name, s, None), more, h);
}

/// The cards of a string that does not fit in one are read as it was written.
#[verifier::spinoff_prover]
#[verifier::rlimit(40)]
proof fn lemma_long_string_read(
    h: Seq<KeywordView>,
    name: Seq<char>,
    b: Seq<u8>,
    comment: Option<Seq<char>>,
)
    requires
        keeps_name(name),
        text::all_ascii(b),
        b.len() > 0,
        !text::is_space(b.last() as char) && b.last() != 0x26,
        keyword::doubled_quotes(b).len() > 67,
        splits(b),
        keeps_comment(
            comment,
            12 + at_least((keyword::doubled_quotes(b).len() - 1) % 67 + 1, 8),
        ),
    ensures
        read_cards(
            seq![
                keyword::card_of(
                    keyword::part_string(
                        keyword::valued_start(name),
                        keyword::doubled_quotes(b).take(67),
                    ),
                ),
            ] + keyword::continue_cards(keyword::doubled_quotes(b).skip(67), comment),
            h,
        ) == Some(h.push(text_keyword(name, text::chars_of(b), comment))),
{
    let d = keyword::doubled_quotes(b);
    let j = lemma_splits_step(b);
    let first = text::chars_of(b.take(j));
    lemma_part_valued_read(h, name, b.take(j), keyword::continue_cards(d.skip(67), comment));
    lemma_last_part_length(d.len() as int);
    assert(d.skip(67).len() == d.len() - 67);
    assert(b.skip(j).last() == b.last());
    lemma_continue_cards_read(h, name, first, b.skip(j), comment);
    assert(first + text::chars_of(b.skip(j)) =~= text::chars_of(b));
}

/// The cards of a string keyword are read as it was written.
proof fn lemma_string_cards_read(
    h: Seq<KeywordView>,
    name: Seq<char>,
    s: Seq<char>,
    comment: Option<Seq<char>>,
)
    requires
        keeps_name(name),
        keeps_string(s, comment),
    ensures
        read_cards(keyword::string_cards(name, s, comment), h) == Some(
            h.push(text_keyword(name, s, comment)),
        ),
{
    let b = text::bytes_of(s);
    let d = keyword::doubled_quotes(b);
    let room: int = if comment is Some {
        55
    } else {
        67
    };
    text::lemma_bytes_chars(s);
    lemma_doubled_ascii(b);
    if s.len() > 0 {
        assert(b.last() as char == s.last());
    }
    if d.len() <= room {
        lemma_whole_valued_read(h, name, b, comment);
    } else {
        if b.len() == 0 {
            assert(d.len() == 0);
        }
        lemma_long_string_read(h, name, b, comment);
    }
}

/// The text of a card without a value, behind its name field.
pub open spec fn commentary_text(comment: Option<Seq<char>>) -> Seq<char> {
    match comment {
        Some(c) => c + spaces((72 - text::bytes_of(c).len()) as nat),
        None => spaces(72),
    }
}

/// A keyword that is written to one card and read from it as it was written: one that a
/// header keeps, and, since no header joins it to another, one of the name CONTINUE with a
/// value, or with a text that does not look like a string.
pub open spec fn keeps_on_card(k: KeywordView) -> bool {
    &&& keeps_field(k.name)
    &&& match k.value {
        None => keeps_commentary(k.comment) && (k.name == "CONTINUE"@ ==> keyword::string_value(
            text::trim_start(commentary_text(k.comment)),
        ) is None),
        Some(ValueView::Text(s)) => keeps_string(s, k.comment) && keyword::doubled_quotes(
            text::bytes_of(s),
        ).len() <= (if k.comment is Some {
            55int
        } else {
            67
        }),
        Some(v) => keeps_value(v) && keeps_comment(
            k.comment,
            10 + at_least(v.plain_text().len() as int, 20),
        ),
    }
}

/// The card of a keyword with a value other than a string is read as it was written.
proof fn lemma_plain_card(k: KeywordView)
    requires
        keeps_on_card(k),
        k.value is Some,
        !(k.value matches Some(ValueView::Text(_))),
    ensures
        keyword::cards_of(k).len() == 1,
        reads(keyword::cards_of(k)[0], k),
{
    let v = k.value->0;
    let p = v.plain_text();
    let start = keyword::valued_start(k.name);
    let line = start + keyword::justified(text::bytes_of(p));
    let m = (at_least(p.len() as int, 20) - p.len()) as nat;
    lemma_value(m, v, k.comment, 0);
    text::lemma_bytes_chars(p);
    lemma_valued_start(k.name);
    let t = name_text(k.name) + seq!['=', ' '];
    text::lemma_bytes_add(spaces(m), p);
    lemma_spaces_bytes(m);
    text::lemma_bytes_add(t, spaces(m) + p);
    assert(line =~= text::bytes_of(t + (spaces(m) + p)));
    lemma_commented(line, t + (spaces(m) + p), k.comment);
    let whole = keyword::commented(line, k.comment);
    let n = (80 - whole.len()) as nat;
    lemma_value(m, v, k.comment, n);
    let record = keyword::card_of(whole);
    let tail = comment_text(k.comment, n);
    let txt = spaces(m) + p + tail;
    assert(t + (spaces(m) + p) + tail =~= t + txt);
    lemma_valued_card(record, k.name, txt, v, k.comment);
    assert(keyword::cards_of(k) =~= seq![record]);
}

/// The card of a keyword without a value is read as it was written.
proof fn lemma_commentary_card(k: KeywordView)
    requires
        keeps_on_card(k),
        k.value is None,
    ensures
        keyword::cards_of(k).len() == 1,
        reads(keyword::cards_of(k)[0], k),
{
    let field = keyword::fixed(text::bytes_of(k.name), 8);
    let c: Seq<char> = match k.comment {
        Some(c) => c,
        None => Seq::empty(),
    };
    let txt = match k.comment {
        Some(c) => text::bytes_of(c),
        None => Seq::empty(),
    };
    lemma_name_field(k.name);
    assert(txt == text::bytes_of(c));
    let line = field + txt;
    text::lemma_bytes_add(name_text(k.name), c);
    lemma_card_text(line, name_text(k.name) + c);
    let record = keyword::card_of(line);
    let n = (80 - line.len()) as nat;
    let rest = c + spaces(n);
    assert(rest =~= commentary_text(k.comment)) by {
        if k.comment is None {
            assert(text::bytes_of(c) =~= Seq::empty());
        }
    }
    assert(name_text(k.name) + c + spaces(n) =~= name_text(k.name) + rest);
    lemma_card_fields(record, name_text(k.name), rest);
    lemma_not_end(record, k.name);
    lemma_trim_end_spaces(c, n);
    assert(text::trim_end(c) == c);
    assert(!(rest.len() >= 2 && rest[0] == '=' && rest[1] == ' '));
    reveal(reads);
    assert(reads(record, k));
    assert(keyword::cards_of(k) =~= seq![record]);
}

/// A keyword that is written to one card is read from that card as it was written.
pub proof fn card_round_trip(k: KeywordView)
    requires
        keeps_on_card(k),
    ensures
        keyword::cards_of(k).len() == 1,
        keyword::card_keyword(keyword::cards_of(k)[0]) == Some(k),
{
    match k.value {
        None => {
            lemma_commentary_card(k);
        },
        Some(ValueView::Text(s)) => {
            let b = text::bytes_of(s);
            text::lemma_bytes_chars(s);
            if s.len() > 0 {
                assert(b.last() as char == s.last());
            }
            lemma_whole_valued(k.name, b, k.comment);
        },
        Some(_) => {
            lemma_plain_card(k);
        },
    }
    reveal(reads);
}

/// The cards of a keyword are read as that keyword.
pub proof fn keyword_round_trip(h: Seq<KeywordView>, k: KeywordView)
    requires
        keeps(k),
    ensures
        read_cards(keyword::cards_of(k), h) == Some(h.push(k)),
{
    match k.value {
        None => {
            lemma_commentary_card(k);
            assert(keyword::cards_of(k) =~= seq![keyword::cards_of(k)[0]]);
            lemma_read_one(keyword::cards_of(k)[0], k, h);
        },
        Some(ValueView::Text(s)) => {
            lemma_string_cards_read(h, k.name, s, k.comment);
        },
        Some(_) => {
            lemma_plain_card(k);
            assert(keyword::cards_of(k) =~= seq![keyword::cards_of(k)[0]]);
            lemma_read_one(keyword::cards_of(k)[0], k, h);
        },
    }
}

proof fn lemma_block_of_record(i: nat, blocks: int)
    requires
        80 * i < 2880 * blocks,
    ensures
        (80 * i) / 2880 * 2880 + 2880 <= 2880 * blocks,
{
}

/// Records that hold cards are read as the cards are.
#[verifier::spinoff_prover]
#[verifier::rlimit(40)]
proof fn lemma_records(
    data: Seq<u8>,
    blocks: int,
    i: nat,
    cards: Seq<Seq<u8>>,
    h: Seq<KeywordView>,
    g: Seq<KeywordView>,
)
    requires
        2880 * blocks <= data.len(),
        80 * (i + cards.len()) < 2880 * blocks,
        forall|j: int|
            0 <= j < cards.len() ==> header::record_at(data, i + j) == #[trigger] cards[j],
        read_cards(cards, h) == Some(g),
    ensures
        header::read_records(data, i, h) == header::read_records(data, i + cards.len(), g),
    decreases cards.len(),
{
    if cards.len() > 0 {
        let more = cards.skip(1);
        let k = keyword::card_keyword(cards[0])->0;
        assert(header::record_at(data, i as int) == cards[0]);
        assert forall|j: int| 0 <= j < more.len() implies header::record_at(data, (i + 1) + j)
            == #[trigger] more[j] by {
            assert(more[j] == cards[j + 1]);
            assert((i + 1) + j == i + (j + 1));
        }
        lemma_block_of_record(i, blocks);
        lemma_records(data, blocks, i + 1, more, header::with_card(h, k), g);
        assert((i + 1) + more.len() == i + cards.len());
    }
}

proof fn lemma_joined_at(parts: Seq<Seq<u8>>, j: int)
    requires
        forall|i: int| 0 <= i < parts.len() ==> #[trigger] parts[i].len() == 80,
        0 <= j < parts.len(),
    ensures
        header::joined(parts).len() == 80 * parts.len(),
        header::joined(parts).subrange(80 * j, 80 * j + 80) == parts[j],
    decreases parts.len(),
{
    let front = parts.drop_last();
    header::lemma_joined_len(parts);
    header::lemma_joined_len(front);
    if j < front.len() {
        lemma_joined_at(front, j);
        assert(header::joined(parts).subrange(80 * j, 80 * j + 80) =~= header::joined(
            front,
        ).subrange(80 * j, 80 * j + 80));
    } else {
        assert(header::joined(parts).subrange(80 * j, 80 * j + 80) =~= parts[j]);
    }
}

/// Data that starts with the cards of a header is read as its keywords, up to the end of
/// the cards.
proof fn lemma_header_read(data: Seq<u8>, blocks: int, h: Seq<KeywordView>)
    requires
        forall|i: int| 0 <= i < h.len() ==> keeps(#[trigger] h[i]),
        2880 * blocks <= data.len(),
        header::all_cards(h).len() < 2880 * blocks,
        data.take(header::all_cards(h).len() as int) == header::all_cards(h),
    ensures
        header::read_records(data, 0, Seq::empty()) == header::read_records(
            data,
            (header::all_cards(h).len() / 80) as nat,
            h,
        ),
        header::all_cards(h).len() % 80 == 0,
    decreases h.len(),
{
    header::lemma_all_cards_len(h);
    if h.len() == 0 {
        assert(h =~= Seq::empty());
    } else {
        let front = h.drop_last();
        let k = h.last();
        let cards = keyword::cards_of(k);
        let before = header::all_cards(front);
        let whole = header::all_cards(h);
        header::lemma_all_cards_len(front);
        header::lemma_cards(k);
        header::lemma_joined_len(cards);
        assert(data.take(before.len() as int) =~= before) by {
            assert(whole.take(before.len() as int) =~= before);
            assert(data.take(whole.len() as int).take(before.len() as int) =~= data.take(
                before.len() as int,
            ));
        }
        assert forall|i: int| 0 <= i < front.len() implies keeps(#[trigger] front[i]) by {
            assert(front[i] == h[i]);
        }
        lemma_header_read(data, blocks, front);
        let n = (before.len() / 80) as nat;
        assert forall|j: int| 0 <= j < cards.len() implies header::record_at(data, n + j)
            == #[trigger] cards[j] by {
            lemma_joined_at(cards, j);
            assert(header::record_at(data, n + j) =~= header::joined(cards).subrange(
                80 * j,
                80 * j + 80,
            )) by {
                assert(header::record_at(data, n + j) =~= data.take(whole.len() as int).subrange(
                    80 * (n + j),
                    80 * (n + j) + 80,
                ));
                assert(80 * (n + j) == before.len() + 80 * j);
            }
        }
        keyword_round_trip(front, k);
        assert(front.push(k) =~= h);
        lemma_records(data, blocks, n, cards, front, h);
        assert(n + cards.len() == (whole.len() / 80) as nat);
    }
}

/// A header that was written is read back, whatever follows it: its keywords, and the
/// number of bytes of its blocks.
pub proof fn header_round_trip(h: Seq<KeywordView>, rest: Seq<u8>)
    requires
        forall|i: int| 0 <= i < h.len() ==> keeps(#[trigger] h[i]),
    ensures
        header::read_records(header::header_bytes(h) + rest, 0, Seq::empty()) == Ok::<
            (Seq<KeywordView>, nat),
            crate::error::ErrorView,
        >((h, header::header_bytes(h).len())),
{
    let cards = header::all_cards(h);
    let written = header::header_bytes(h);
    let data = written + rest;
    let body = cards + header::end_card();
    io_utils::padded_is_least_multiple(body.len() as int);
    header::lemma_all_cards_len(h);
    let blocks = written.len() / 2880;
    assert(data.take(cards.len() as int) =~= cards);
    lemma_header_read(data, blocks as int, h);
    let n = (cards.len() / 80) as nat;
    let record = header::record_at(data, n as int);
    assert(80 * n == cards.len());
    assert(record =~= header::end_card());
    reveal_strlit("END");
    text::lemma_bytes_chars("END"@);
    assert(header::is_end(record));
    assert((80 * n) / 2880 * 2880 + 2880 == written.len());
}

} // verus!
