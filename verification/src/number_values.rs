//! What it means that a text spells one, or zero.
use crate::number;
use crate::text;
use vstd::prelude::*;

verus! {

/// `10^n`.
pub open spec fn ten_to(n: nat) -> int
    decreases n,
{
    if n == 0 {
        1
    } else {
        10 * ten_to((n - 1) as nat)
    }
}

/// `10^e` for an exponent that is not negative; one for another.
pub open spec fn ten_or_one(e: int) -> int {
    if e >= 0 {
        ten_to(e as nat)
    } else {
        1
    }
}

/// The number of digits of a mantissa behind its point.
pub open spec fn decimals(mantissa: Seq<char>) -> int {
    number::mantissa_digits(mantissa).len() - number::first_of(mantissa, '.', '.')
}

/// Digits, or nothing.
pub open spec fn only_digits(d: Seq<char>) -> bool {
    forall|i: int| 0 <= i < d.len() ==> text::is_digit(#[trigger] d[i])
}

proof fn lemma_mantissa(m: Seq<char>)
    requires
        number::is_mantissa(m),
    ensures
        only_digits(number::mantissa_digits(m)),
        0 <= number::first_of(m, '.', '.') <= number::mantissa_digits(m).len(),
{
    number::lemma_first_of(m, '.', '.');
    let k = number::first_of(m, '.', '.');
    let d = number::mantissa_digits(m);
    assert forall|i: int| 0 <= i < d.len() implies text::is_digit(#[trigger] d[i]) by {
        if k < m.len() {
            if i < k {
                assert(d[i] == m.take(k)[i]);
            } else {
                assert(d[i] == m.skip(k + 1)[i - k]);
            }
        }
    }
}

proof fn lemma_digits_below(d: Seq<char>)
    requires
        only_digits(d),
    ensures
        text::digits_value(d) >= 0,
        d.len() > 0 ==> only_digits(d.drop_last()) && 0 <= text::digit_value(d.last()) <= 9,
    decreases d.len(),
{
    if d.len() > 0 {
        assert(text::is_digit(d[d.len() - 1]));
        assert forall|i: int| 0 <= i < d.len() - 1 implies text::is_digit(#[trigger] d.drop_last()[i]) by {
            assert(d.drop_last()[i] == d[i]);
        }
        lemma_digits_below(d.drop_last());
    }
}

proof fn lemma_zeros(d: Seq<char>)
    requires
        only_digits(d),
    ensures
        number::all_zeros(d) <==> text::digits_value(d) == 0,
    decreases d.len(),
{
    if d.len() > 0 {
        lemma_digits_below(d);
        lemma_digits_below(d.drop_last());
        let front = d.drop_last();
        lemma_zeros(front);
        if number::all_zeros(d) {
            assert(d[d.len() - 1] == '0');
            assert forall|i: int| 0 <= i < front.len() implies #[trigger] front[i] == '0' by {
                assert(front[i] == d[i]);
            }
        }
        if text::digits_value(d) == 0 {
            assert forall|i: int| 0 <= i < d.len() implies #[trigger] d[i] == '0' by {
                if i < front.len() {
                    assert(front[i] == d[i]);
                }
            }
        }
    }
}

proof fn lemma_ten_positive(n: nat)
    ensures
        ten_to(n) >= 1,
        n > 0 ==> ten_to(n) >= 10,
    decreases n,
{
    if n > 0 {
        lemma_ten_positive((n - 1) as nat);
    }
}

proof fn lemma_lone_value(d: Seq<char>, p: int)
    requires
        only_digits(d),
        number::lone_one(d, p),
    ensures
        text::digits_value(d) == ten_to((d.len() - 1 - p) as nat),
    decreases d.len(),
{
    let front = d.drop_last();
    lemma_digits_below(d);
    assert(d.last() == d[d.len() - 1]);
    if p == d.len() - 1 {
        assert forall|i: int| 0 <= i < front.len() implies #[trigger] front[i] == '0' by {
            assert(front[i] == d[i]);
        }
        lemma_zeros(front);
    } else {
        assert forall|i: int| 0 <= i < front.len() implies #[trigger] front[i] == (if i == p {
            '1'
        } else {
            '0'
        }) by {
            assert(front[i] == d[i]);
        }
        lemma_lone_value(front, p);
    }
}

proof fn lemma_value_lone(d: Seq<char>, j: nat)
    requires
        only_digits(d),
        text::digits_value(d) == ten_to(j),
    ensures
        j < d.len(),
        number::lone_one(d, d.len() - 1 - j),
    decreases d.len(),
{
    lemma_ten_positive(j);
    assert(d.len() > 0);
    let front = d.drop_last();
    lemma_digits_below(d);
    lemma_digits_below(front);
    assert(d.last() == d[d.len() - 1]);
    let p = d.len() - 1 - j;
    if j == 0 {
        assert(text::digits_value(front) == 0);
        lemma_zeros(front);
    } else {
        assert(text::digits_value(front) == ten_to((j - 1) as nat));
        lemma_value_lone(front, (j - 1) as nat);
    }
    assert forall|i: int| 0 <= i < d.len() implies #[trigger] d[i] == (if i == p {
        '1'
    } else {
        '0'
    }) by {
        if i < front.len() {
            assert(front[i] == d[i]);
        }
    }
}

/// A text spells one where its digits, its point and its exponent make that number and it has
/// no minus sign, and zero where its digits do: with `f` digits behind the point and an exponent
/// of `e`, the digits count `10^e / 10^f` times.
pub proof fn one_and_zero(s: Seq<char>, e: int)
    requires
        number::is_number(number::unsigned_part(s)),
        number::exponent_of(number::unsigned_part(s)) == Some(e),
    ensures
        ({
            let m = number::mantissa_of(number::unsigned_part(s));
            let v = text::digits_value(number::mantissa_digits(m));
            let f = decimals(m);
            &&& number::spells_zero(s) <==> v == 0
            &&& number::spells_one(s) <==> s[0] != '-' && v * ten_or_one(e - f) == ten_or_one(f - e)
        }),
{
    let u = number::unsigned_part(s);
    let m = number::mantissa_of(u);
    let d = number::mantissa_digits(m);
    let v = text::digits_value(d);
    let f = decimals(m);
    let p = number::first_of(m, '.', '.') - 1 + e;
    number::lemma_first_of(u, 'e', 'E');
    assert(number::first_of(u, 'e', 'E') == u.len() ==> m =~= u);
    lemma_mantissa(m);
    lemma_digits_below(d);
    lemma_zeros(d);
    assert(d.len() - 1 - p == f - e);
    if number::lone_one(d, p) {
        lemma_lone_value(d, p);
        assert(ten_or_one(e - f) == 1);
        assert(v * 1 == v);
    }
    if v * ten_or_one(e - f) == ten_or_one(f - e) {
        if e > f {
            lemma_ten_positive((e - f) as nat);
            let t = ten_to((e - f) as nat);
            assert(v * t != 1) by (nonlinear_arith)
                requires
                    v >= 0,
                    t >= 10,
            ;
        } else {
            assert(ten_or_one(e - f) == 1);
            assert(v * 1 == v);
            lemma_value_lone(d, (f - e) as nat);
        }
    }
}

/// A sign, or none.
pub open spec fn is_sign(s: Seq<char>) -> bool {
    s.len() == 0 || s == seq!['+'] || s == seq!['-']
}

/// The exponent of a number: nothing, or a letter, a sign and digits.
pub open spec fn is_exponent(s: Seq<char>, letter: char, sign: Seq<char>, digits: Seq<char>) -> bool {
    ||| s.len() == 0
    ||| (letter == 'e' || letter == 'E') && is_sign(sign) && text::all_digits(digits) && s
        == seq![letter] + (sign + digits)
}

/// Digits with a point in front of them, among them or behind them, or with none, are a number,
/// also with a sign and with an exponent.
pub proof fn numbers_are_floats(
    sign: Seq<char>,
    a: Seq<char>,
    point: Seq<char>,
    b: Seq<char>,
    letter: char,
    exponent_sign: Seq<char>,
    exponent: Seq<char>,
    tail: Seq<char>,
)
    requires
        is_sign(sign),
        only_digits(a),
        only_digits(b),
        a.len() + b.len() > 0,
        point == seq!['.'] || point.len() == 0 && b.len() == 0,
        is_exponent(tail, letter, exponent_sign, exponent),
    ensures
        number::is_float(sign + (a + point + b + tail)),
{
    let m = a + point + b;
    let u = m + tail;
    let s = sign + (a + point + b + tail);
    lemma_is_mantissa(a, point, b);
    assert forall|i: int| 0 <= i < m.len() implies #[trigger] m[i] < 'A' by {
        if i < a.len() {
            assert(m[i] == a[i]);
        } else if i >= a.len() + point.len() {
            assert(m[i] == b[i - a.len() - point.len()]);
        } else {
            assert(m[i] == '.');
        }
    }
    assert(u[0] == m[0]);
    assert(m[0] != '+' && m[0] != '-') by {
        if a.len() > 0 {
            assert(m[0] == a[0]);
        } else {
            assert(m[0] == '.');
        }
    }
    assert(number::unsigned_part(s) =~= u) by {
        if sign.len() > 0 {
            assert(s[0] == sign[0]);
            assert(s.skip(1) =~= u);
        } else {
            assert(s =~= u);
        }
    }
    number::lemma_first_of(u, 'e', 'E');
    let k = number::first_of(u, 'e', 'E');
    if tail.len() == 0 {
        assert(u =~= m);
        if k < u.len() {
            assert(u[k] < 'A');
        }
    } else {
        assert(u[m.len() as int] == letter);
        if k < m.len() {
            assert(u[k] == m[k]);
        }
        assert(k == m.len());
        assert(u.take(k) =~= m);
        let rest = u.skip(k + 1);
        assert(rest =~= exponent_sign + exponent);
        if exponent_sign.len() > 0 {
            assert(rest[0] == exponent_sign[0]);
            assert(number::unsigned_part(rest) =~= exponent);
        } else {
            assert(rest =~= exponent);
            assert(text::is_digit(exponent[0]));
            assert(number::unsigned_part(rest) =~= exponent);
        }
    }
}

proof fn lemma_is_mantissa(a: Seq<char>, point: Seq<char>, b: Seq<char>)
    requires
        only_digits(a),
        only_digits(b),
        a.len() + b.len() > 0,
        point == seq!['.'] || point.len() == 0 && b.len() == 0,
    ensures
        number::is_mantissa(a + point + b),
{
    let m = a + point + b;
    number::lemma_first_of(m, '.', '.');
    let k = number::first_of(m, '.', '.');
    if point.len() == 0 {
        assert(m =~= a);
        if k < m.len() {
            assert(text::is_digit(a[k]));
        }
    } else {
        assert(m[a.len() as int] == '.');
        if k < a.len() {
            assert(m[k] == a[k]);
            assert(text::is_digit(a[k]));
        }
        assert(k == a.len());
        assert(m.take(k) =~= a);
        assert(m.skip(k + 1) =~= b);
    }
}

} // verus!
