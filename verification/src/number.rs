//! Floating-point numbers as the text that spells them.
use crate::text;
use vstd::prelude::*;

verus! {

/// A floating-point number, held as its decimal text: an optional sign, then
/// digits with an optional point and exponent, or an infinity or not-a-number.
#[derive(Debug, PartialEq)]
pub struct Real {
    pub text: String,
}

impl View for Real {
    type V = Seq<char>;

    open spec fn view(&self) -> Seq<char> {
        self.text@
    }
}

impl Clone for Real {
    fn clone(&self) -> (r: Self)
        ensures
            r@ == self@,
    {
        Real { text: self.text.clone() }
    }
}

/// The position of the first character that is one of two.
pub open spec fn first_of(s: Seq<char>, a: char, b: char) -> int
    decreases s.len(),
{
    if s.len() == 0 || s[0] == a || s[0] == b {
        0
    } else {
        1 + first_of(s.skip(1), a, b)
    }
}

/// Digits, or nothing.
pub open spec fn maybe_digits(s: Seq<char>) -> bool {
    s.len() == 0 || text::all_digits(s)
}

/// Text without a sign at its start.
pub open spec fn unsigned_part(s: Seq<char>) -> Seq<char> {
    if s.len() > 0 && (s[0] == '+' || s[0] == '-') {
        s.skip(1)
    } else {
        s
    }
}

/// Digits with at most one point among them.
pub open spec fn is_mantissa(s: Seq<char>) -> bool {
    let k = first_of(s, '.', '.');
    if k == s.len() {
        text::all_digits(s)
    } else {
        maybe_digits(s.take(k)) && maybe_digits(s.skip(k + 1)) && s.len() > 1
    }
}

/// A mantissa with an optional exponent.
pub open spec fn is_number(s: Seq<char>) -> bool {
    let k = first_of(s, 'e', 'E');
    if k == s.len() {
        is_mantissa(s)
    } else {
        is_mantissa(s.take(k)) && text::all_digits(unsigned_part(s.skip(k + 1)))
    }
}

/// The text of a floating-point number.
pub open spec fn is_float(s: Seq<char>) -> bool {
    let u = unsigned_part(s);
    let name = text::ascii_upper(u);
    ||| name == "INF"@
    ||| name == "INFINITY"@
    ||| name == "NAN"@
    ||| is_number(u)
}

/// Text with the exponent letter `D` written as `E`.
pub open spec fn exponent_e(s: Seq<char>) -> Seq<char> {
    Seq::new(
        s.len(),
        |i: int|
            if s[i] == 'D' {
                'E'
            } else if s[i] == 'd' {
                'e'
            } else {
                s[i]
            },
    )
}

/// The digits of a mantissa, without its point.
pub open spec fn mantissa_digits(s: Seq<char>) -> Seq<char> {
    let k = first_of(s, '.', '.');
    if k == s.len() {
        s
    } else {
        s.take(k) + s.skip(k + 1)
    }
}

/// What stands before the exponent of a number.
pub open spec fn mantissa_of(s: Seq<char>) -> Seq<char> {
    s.take(first_of(s, 'e', 'E'))
}

/// The exponent of a number, where 64 bits hold it: zero where none is written.
pub open spec fn exponent_of(s: Seq<char>) -> Option<int> {
    let k = first_of(s, 'e', 'E');
    if k == s.len() {
        Some(0)
    } else {
        match text::integer_of(s.skip(k + 1)) {
            Some(e) => if i64::MIN <= e <= i64::MAX {
                Some(e)
            } else {
                None
            },
            None => None,
        }
    }
}

/// Whether digits are zeros but for a one at `p`.
pub open spec fn lone_one(digits: Seq<char>, p: int) -> bool {
    0 <= p < digits.len() && forall|i: int|
        0 <= i < digits.len() ==> #[trigger] digits[i] == (if i == p {
            '1'
        } else {
            '0'
        })
}

/// Whether digits are all zeros.
pub open spec fn all_zeros(digits: Seq<char>) -> bool {
    forall|i: int| 0 <= i < digits.len() ==> #[trigger] digits[i] == '0'
}

/// Whether a text spells exactly the number one: its only digit that is not zero is a one,
/// which the exponent moves to the place before the point.
pub open spec fn spells_one(s: Seq<char>) -> bool {
    let u = unsigned_part(s);
    let m = mantissa_of(u);
    &&& is_number(u)
    &&& s[0] != '-'
    &&& exponent_of(u) matches Some(e) && lone_one(
        mantissa_digits(m),
        first_of(m, '.', '.') - 1 + e,
    )
}

/// Whether a text spells exactly the number zero.
pub open spec fn spells_zero(s: Seq<char>) -> bool {
    let u = unsigned_part(s);
    is_number(u) && all_zeros(mantissa_digits(mantissa_of(u)))
}

/// A scale that is not the default, one.
pub open spec fn unless_one(value: Option<Seq<char>>) -> Option<Seq<char>> {
    match value {
        Some(s) => if spells_one(s) {
            None
        } else {
            Some(s)
        },
        None => None,
    }
}

/// A zero point that is not the default, zero.
pub open spec fn unless_zero(value: Option<Seq<char>>) -> Option<Seq<char>> {
    match value {
        Some(s) => if spells_zero(s) {
            None
        } else {
            Some(s)
        },
        None => None,
    }
}

pub proof fn lemma_first_of(s: Seq<char>, a: char, b: char)
    ensures
        0 <= first_of(s, a, b) <= s.len(),
        forall|i: int| 0 <= i < first_of(s, a, b) ==> #[trigger] s[i] != a && s[i] != b,
        first_of(s, a, b) < s.len() ==> s[first_of(s, a, b)] == a || s[first_of(s, a, b)] == b,
    decreases s.len(),
{
    if s.len() > 0 && s[0] != a && s[0] != b {
        let t = s.skip(1);
        lemma_first_of(t, a, b);
        assert forall|i: int| 0 <= i < first_of(s, a, b) implies #[trigger] s[i] != a && s[i]
            != b by {
            if i > 0 {
                assert(t[i - 1] == s[i]);
            }
        }
    }
}

/// The position of the first character that is one of two.
pub fn find_first(s: &[char], a: char, b: char) -> (r: usize)
    ensures
        r == first_of(s@, a, b),
        r <= s@.len(),
{
    let mut i: usize = 0;
    assert(s@.skip(0) =~= s@);
    while i < s.len() && s[i] != a && s[i] != b
        invariant
            i <= s@.len(),
            first_of(s@, a, b) == i + first_of(s@.skip(i as int), a, b),
        decreases s@.len() - i,
    {
        assert(s@.skip(i as int).skip(1) =~= s@.skip(i + 1));
        i += 1;
    }
    i
}

fn digits_only(s: &[char]) -> (r: bool)
    ensures
        r == text::all_digits(s@),
{
    let mut i: usize = 0;
    while i < s.len()
        invariant
            i <= s@.len(),
            forall|k: int| 0 <= k < i ==> text::is_digit(#[trigger] s@[k]),
        decreases s@.len() - i,
    {
        if s[i] < '0' || s[i] > '9' {
            assert(!text::is_digit(s@[i as int]));
            return false;
        }
        i += 1;
    }
    s.len() > 0
}

fn without_sign<'a>(s: &'a [char]) -> (r: &'a [char])
    ensures
        r@ == unsigned_part(s@),
{
    if s.len() > 0 && (s[0] == '+' || s[0] == '-') {
        let r = vstd::slice::slice_subrange(s, 1, s.len());
        assert(r@ =~= s@.skip(1));
        r
    } else {
        s
    }
}

fn mantissa(s: &[char]) -> (r: bool)
    ensures
        r == is_mantissa(s@),
{
    let k: usize = find_first(s, '.', '.');
    if k == s.len() {
        return digits_only(s);
    }
    let a = vstd::slice::slice_subrange(s, 0, k);
    let b = vstd::slice::slice_subrange(s, k + 1, s.len());
    assert(a@ =~= s@.take(k as int));
    assert(b@ =~= s@.skip(k + 1));
    (a.len() == 0 || digits_only(a)) && (b.len() == 0 || digits_only(b)) && s.len() > 1
}

fn number(s: &[char]) -> (r: bool)
    ensures
        r == is_number(s@),
{
    let k: usize = find_first(s, 'e', 'E');
    if k == s.len() {
        return mantissa(s);
    }
    let a = vstd::slice::slice_subrange(s, 0, k);
    let b = vstd::slice::slice_subrange(s, k + 1, s.len());
    assert(a@ =~= s@.take(k as int));
    assert(b@ =~= s@.skip(k + 1));
    mantissa(a) && digits_only(without_sign(b))
}

/// Whether a text spells a floating-point number.
pub fn spells_float(s: &[char]) -> (r: bool)
    ensures
        r == is_float(s@),
{
    let u = without_sign(s);
    let name: Vec<char> = text::to_ascii_upper(u);
    text::is_text(name.as_slice(), "INF") || text::is_text(name.as_slice(), "INFINITY")
        || text::is_text(name.as_slice(), "NAN") || number(u)
}

/// The digits of a mantissa, without its point, and where the point stands.
fn without_point(s: &[char]) -> (r: (Vec<char>, usize))
    ensures
        r.0@ == mantissa_digits(s@),
        r.1 == first_of(s@, '.', '.'),
{
    let k: usize = find_first(s, '.', '.');
    let mut digits: Vec<char> = Vec::new();
    let mut i: usize = 0;
    while i < s.len()
        invariant
            i <= s@.len(),
            k <= s@.len(),
            digits@ == (if i <= k {
                s@.take(i as int)
            } else {
                s@.take(k as int) + s@.subrange(k + 1, i as int)
            }),
        decreases s@.len() - i,
    {
        if i != k {
            digits.push(s[i]);
        }
        i += 1;
        assert(digits@ =~= (if i <= k {
            s@.take(i as int)
        } else {
            s@.take(k as int) + s@.subrange(k + 1, i as int)
        }));
    }
    assert(digits@ =~= mantissa_digits(s@));
    (digits, k)
}

/// Whether digits are zeros but for a one at `p`.
fn only_one_at(digits: &[char], p: i128) -> (r: bool)
    ensures
        r == lone_one(digits@, p as int),
{
    if p < 0 || p >= digits.len() as i128 {
        return false;
    }
    let mut i: usize = 0;
    while i < digits.len()
        invariant
            i <= digits@.len(),
            0 <= p < digits@.len(),
            forall|j: int|
                0 <= j < i ==> #[trigger] digits@[j] == (if j == p {
                    '1'
                } else {
                    '0'
                }),
        decreases digits@.len() - i,
    {
        let wanted: char = if i as i128 == p {
            '1'
        } else {
            '0'
        };
        if digits[i] != wanted {
            return false;
        }
        i += 1;
    }
    true
}

/// Whether digits are all zeros.
fn only_zeros(digits: &[char]) -> (r: bool)
    ensures
        r == all_zeros(digits@),
{
    let mut i: usize = 0;
    while i < digits.len()
        invariant
            i <= digits@.len(),
            forall|j: int| 0 <= j < i ==> #[trigger] digits@[j] == '0',
        decreases digits@.len() - i,
    {
        if digits[i] != '0' {
            return false;
        }
        i += 1;
    }
    true
}

impl Real {
    /// Whether this is exactly the number one.
    pub fn is_one(&self) -> (r: bool)
        ensures
            r == spells_one(self@),
    {
        let chars: Vec<char> = text::char_vec(self.text.as_str());
        let s = chars.as_slice();
        let u = without_sign(s);
        if !number(u) || s[0] == '-' {
            return false;
        }
        let k: usize = find_first(u, 'e', 'E');
        let (digits, point) = without_point(text::head(u, k));
        let exponent: Option<i64> = if k == u.len() {
            Some(0)
        } else {
            text::parse_i64(text::tail(u, k + 1))
        };
        match exponent {
            Some(e) => only_one_at(digits.as_slice(), point as i128 - 1 + e as i128),
            None => false,
        }
    }

    /// Whether this is exactly the number zero.
    pub fn is_zero(&self) -> (r: bool)
        ensures
            r == spells_zero(self@),
    {
        let chars: Vec<char> = text::char_vec(self.text.as_str());
        let u = without_sign(chars.as_slice());
        if !number(u) {
            return false;
        }
        let k: usize = find_first(u, 'e', 'E');
        let (digits, _) = without_point(text::head(u, k));
        only_zeros(digits.as_slice())
    }
}

/// Text with the exponent letter `D` written as `E`.
pub fn with_exponent_e(s: &[char]) -> (r: Vec<char>)
    ensures
        r@ == exponent_e(s@),
{
    let mut out: Vec<char> = Vec::new();
    let mut i: usize = 0;
    while i < s.len()
        invariant
            i <= s@.len(),
            out@ == exponent_e(s@.take(i as int)),
        decreases s@.len() - i,
    {
        let c: char = s[i];
        out.push(
            if c == 'D' {
                'E'
            } else if c == 'd' {
                'e'
            } else {
                c
            },
        );
        i += 1;
        assert(out@ =~= exponent_e(s@.take(i as int)));
    }
    assert(s@.take(i as int) =~= s@);
    out
}

impl Real {
    /// The number that a text spells, as Rust reads a floating-point literal.
    pub fn new(s: &str) -> (r: Option<Real>)
        ensures
            match r {
                Some(v) => v@ == s@ && is_float(s@),
                None => !is_float(s@),
            },
    {
        let chars: Vec<char> = text::char_vec(s);
        if spells_float(chars.as_slice()) {
            Some(Real { text: s.to_owned() })
        } else {
            None
        }
    }

    /// An integer as a floating-point number.
    pub fn from_int(i: i64) -> (r: Real)
        ensures
            r@ == text::decimal(i as int),
    {
        Real { text: text::decimal_i64(i) }
    }
}

} // verus!
