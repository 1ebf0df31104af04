//! Values that stand anywhere on their cards.
use crate::card_reading;
use crate::keyword;
use crate::keyword::ValueView;
use crate::number;
use crate::text;
use vstd::prelude::*;

verus! {

/// Text behind a value: blanks, and a comment between blanks behind a slash.
pub open spec fn remark(n: nat, comment: Option<(nat, Seq<char>, nat)>) -> Seq<char> {
    match comment {
        None => card_reading::spaces(n),
        Some((a, c, b)) => card_reading::spaces(n) + (seq!['/'] + (card_reading::spaces(a) + c
            + card_reading::spaces(b))),
    }
}

/// What a remark says: nothing without a comment, or where the comment is empty.
pub open spec fn said(comment: Option<(nat, Seq<char>, nat)>) -> Option<Seq<char>> {
    match comment {
        Some((a, c, b)) => if c.len() == 0 {
            None
        } else {
            Some(c)
        },
        None => None,
    }
}

/// A word with blanks around it has the value of the word, and the comment behind the first
/// slash is its comment, without the blanks around it.
pub proof fn words_stand_anywhere(
    m: nat,
    word: Seq<char>,
    n: nat,
    comment: Option<(nat, Seq<char>, nat)>,
)
    requires
        word.len() > 0,
        card_reading::unpadded(word),
        word[0] != '\'',
        word[0] != '(',
        forall|i: int| 0 <= i < word.len() ==> #[trigger] word[i] != '/',
        comment matches Some((a, c, b)) ==> card_reading::unpadded(c),
    ensures
        keyword::value_comment(card_reading::spaces(m) + (word + remark(n, comment))) == Some(
            (keyword::word_value(word), said(comment)),
        ),
{
    let tail = remark(n, comment);
    let blanks = card_reading::spaces(n);
    let t = word + tail;
    card_reading::lemma_trim_start_spaces(m, t);
    assert(t[0] == word[0]);
    assert(text::trim_start(t) == t);
    let k = word.len() + n as int;
    assert(t.take(k) =~= card_reading::spaces(0) + word + blanks);
    card_reading::lemma_trim_between(0, word, n);
    assert forall|i: int| 0 <= i < k implies #[trigger] t[i] != '/' by {
        if i < word.len() {
            assert(t[i] == word[i]);
        } else {
            assert(t[i] == ' ');
        }
    }
    match comment {
        None => {
            assert(t.len() == k);
            card_reading::lemma_first_of_is(t, '/', k);
        },
        Some((a, c, b)) => {
            assert(t[k] == '/');
            card_reading::lemma_first_of_is(t, '/', k);
            assert(t.skip(k + 1) =~= card_reading::spaces(a) + c + card_reading::spaces(b));
            card_reading::lemma_trim_between(a, c, b);
        },
    }
}

/// An integer may have a sign, and `T` and `F` are truth values.
pub proof fn plain_words(i: int)
    requires
        i64::MIN <= i <= i64::MAX,
    ensures
        keyword::word_value(text::decimal(i)) == ValueView::Integer(i),
        i >= 0 ==> keyword::word_value(seq!['+'] + text::decimal(i)) == ValueView::Integer(i),
        keyword::word_value(seq!['T']) == ValueView::Logical(true),
        keyword::word_value(seq!['F']) == ValueView::Logical(false),
{
    reveal_strlit("T");
    reveal_strlit("F");
    assert("T"@ =~= seq!['T']);
    assert("F"@ =~= seq!['F']);
    assert("T"@[0] == 'T' && "F"@[0] == 'F');
    text::decimal_round_trip(i);
    let d = text::decimal(i);
    if i >= 0 {
        text::lemma_decimal_nat(i as nat);
        assert(text::is_digit(d[0]));
        let s = seq!['+'] + d;
        assert(s[0] == '+');
        assert(s.skip(1) =~= d);
    } else {
        assert(d[0] == '-');
    }
}

/// Text without the letters of an exponent.
pub open spec fn no_letters(s: Seq<char>) -> bool {
    forall|i: int| 0 <= i < s.len() ==> #[trigger] s[i] < 'A'
}

/// The exponent of a number may be marked with `D` in place of `E`, in either case.
pub proof fn exponent_letters(front: Seq<char>, back: Seq<char>)
    requires
        no_letters(front),
        no_letters(back),
        front.len() > 0,
        number::is_float(front + (seq!['E'] + back)),
        number::is_float(front + (seq!['e'] + back)),
    ensures
        keyword::word_value(front + (seq!['D'] + back)) == ValueView::Float(
            front + (seq!['E'] + back),
        ),
        keyword::word_value(front + (seq!['E'] + back)) == ValueView::Float(
            front + (seq!['E'] + back),
        ),
        keyword::word_value(front + (seq!['d'] + back)) == ValueView::Float(
            front + (seq!['e'] + back),
        ),
        keyword::word_value(front + (seq!['e'] + back)) == ValueView::Float(
            front + (seq!['e'] + back),
        ),
{
    lemma_lettered(front, 'D', back);
    lemma_lettered(front, 'E', back);
    lemma_lettered(front, 'd', back);
    lemma_lettered(front, 'e', back);
}

proof fn lemma_lettered(front: Seq<char>, letter: char, back: Seq<char>)
    requires
        no_letters(front),
        no_letters(back),
        front.len() > 0,
        letter == 'D' || letter == 'E' || letter == 'd' || letter == 'e',
    ensures
        ({
            let s = front + (seq![letter] + back);
            let e = if letter == 'D' || letter == 'E' {
                'E'
            } else {
                'e'
            };
            &&& number::exponent_e(s) == front + (seq![e] + back)
            &&& s != "T"@
            &&& s != "F"@
            &&& text::integer_of(s) is None
        }),
{
    let s = front + (seq![letter] + back);
    let e = if letter == 'D' || letter == 'E' {
        'E'
    } else {
        'e'
    };
    let k = front.len() as int;
    reveal_strlit("T");
    reveal_strlit("F");
    assert(s.len() >= 2);
    assert(s[k] == letter);
    let t = number::exponent_e(s);
    assert forall|i: int| 0 <= i < s.len() implies #[trigger] t[i] == (front + (seq![e] + back))[i] by {
        if i < k {
            assert(s[i] == front[i]);
        } else if i > k {
            assert(s[i] == back[i - k - 1]);
        }
    }
    assert(t =~= front + (seq![e] + back));
    assert(!text::is_digit(s[k]));
    assert(s.skip(1)[k - 1] == s[k]);
}

/// Blanks, a text, and blanks.
pub open spec fn spaced(a: nat, s: Seq<char>, b: nat) -> Seq<char> {
    card_reading::spaces(a) + s + card_reading::spaces(b)
}

/// The parts of a complex integer may have blanks around them.
pub proof fn complex_stands_anywhere(m: nat, i: int, j: int, at: (nat, nat, nat, nat), n: nat)
    requires
        i64::MIN <= i <= i64::MAX,
        i64::MIN <= j <= i64::MAX,
    ensures
        keyword::value_comment(
            card_reading::spaces(m) + (seq!['('] + (spaced(at.0, text::decimal(i), at.1) + (seq![',']
                + (spaced(at.2, text::decimal(j), at.3) + (seq![')'] + card_reading::spaces(n)))))),
        ) == Some((ValueView::ComplexInteger(i, j), None::<Seq<char>>)),
{
    let a = text::decimal(i);
    let b = text::decimal(j);
    let first = spaced(at.0, a, at.1);
    let second = spaced(at.2, b, at.3);
    let blanks = card_reading::spaces(n);
    let t = seq!['('] + (first + (seq![','] + (second + (seq![')'] + blanks))));
    card_reading::lemma_trim_start_spaces(m, t);
    assert(t[0] == '(');
    assert(text::trim_start(t) == t);
    lemma_spaced_number(at.0, i, at.1);
    lemma_spaced_number(at.2, j, at.3);
    let comma = first.len() as int;
    let close = 2 + comma + second.len();
    assert(t[close] == ')');
    assert forall|k: int| 0 <= k < close implies #[trigger] t[k] != ')' by {
        if 1 <= k <= comma {
            assert(t[k] == first[k - 1]);
        } else if k > comma + 1 {
            assert(t[k] == second[k - comma - 2]);
        } else if k == comma + 1 {
            assert(t[k] == ',');
        }
    }
    card_reading::lemma_first_of_is(t, ')', close);
    let inner = t.subrange(1, close);
    assert(inner =~= first + (seq![','] + second));
    assert(inner[comma] == ',');
    assert forall|k: int| 0 <= k < comma implies #[trigger] inner[k] != ',' by {
        assert(inner[k] == first[k]);
    }
    card_reading::lemma_first_of_is(inner, ',', comma);
    assert(inner.take(comma) =~= first);
    assert(inner.skip(comma + 1) =~= second);
    card_reading::lemma_first_of_is(second, ',', second.len() as int);
    assert(t.skip(close + 1) =~= blanks);
    assert(blanks =~= card_reading::spaces(n) + Seq::<char>::empty());
    card_reading::lemma_trim_start_spaces(n, Seq::empty());
}

proof fn lemma_spaced_number(a: nat, i: int, b: nat)
    requires
        i64::MIN <= i <= i64::MAX,
    ensures
        text::trim(spaced(a, text::decimal(i), b)) == text::decimal(i),
        number::exponent_e(text::decimal(i)) == text::decimal(i),
        keyword::int64_of(text::decimal(i)) == Some(i),
        forall|k: int|
            0 <= k < spaced(a, text::decimal(i), b).len() ==> #[trigger] spaced(
                a,
                text::decimal(i),
                b,
            )[k] != ',' && spaced(a, text::decimal(i), b)[k] != ')',
{
    let d = text::decimal(i);
    text::decimal_round_trip(i);
    card_reading::lemma_trim_between(a, d, b);
    assert forall|k: int| 0 <= k < d.len() implies (text::is_digit(#[trigger] d[k]) || d[k] == '-') by {
        if i < 0 {
            text::lemma_decimal_nat((-i) as nat);
            if k > 0 {
                assert(d[k] == text::decimal_nat((-i) as nat)[k - 1]);
            }
        } else {
            text::lemma_decimal_nat(i as nat);
        }
    }
    assert(number::exponent_e(d) =~= d);
    let s = spaced(a, d, b);
    assert forall|k: int| 0 <= k < s.len() implies #[trigger] s[k] != ',' && s[k] != ')' by {
        if a <= k < a + d.len() {
            assert(s[k] == d[k - a]);
        } else {
            assert(s[k] == ' ');
        }
    }
}

} // verus!
