//! Strings built from bytes, and the decimal notation of integers.
use vstd::prelude::*;
use vstd::utf8::*;

verus! {

/// `String::push` of the standard library: appends one character.
pub assume_specification[ std::string::String::push ](s: &mut std::string::String, c: char)
    ensures
        final(s)@ == old(s)@.push(c),
;

/// The error of `std::str::from_utf8`.
#[verifier::external_type_specification]
#[verifier::external_body]
pub struct ExUtf8Error(std::str::Utf8Error);

/// `std::str::from_utf8` of the standard library: the string slice that is made up
/// of the given bytes, or an error where they are not valid UTF-8.
pub assume_specification[ std::str::from_utf8 ](v: &[u8]) -> (r: std::result::Result<
    &str,
    std::str::Utf8Error,
>)
    ensures
        match r {
            Ok(s) => valid_utf8(v@) && s@ == decode_utf8(v@),
            Err(_) => !valid_utf8(v@),
        },
;

/// What `str::to_uppercase` of the standard library makes of a string.
pub uninterp spec fn uppercased(s: Seq<char>) -> Seq<char>;

/// `str::to_uppercase` of the standard library: the uppercase of a string by the
/// Unicode tables.
pub assume_specification[ str::to_uppercase ](s: &str) -> (r: std::string::String)
    ensures
        r@ == uppercased(s@),
;

/// Text in upper case.
pub open spec fn upper(s: Seq<char>) -> Seq<char> {
    if is_ascii_chars(s) {
        ascii_upper(s)
    } else {
        uppercased(s)
    }
}

/// Text with the ASCII letters in upper case.
pub open spec fn ascii_upper(s: Seq<char>) -> Seq<char> {
    Seq::new(s.len(), |i: int| upper_char(s[i]))
}

/// A character with ASCII letters in upper case.
pub open spec fn upper_char(c: char) -> char {
    if 'a' <= c <= 'z' {
        ((c as u32) - 32) as char
    } else {
        c
    }
}

/// The same text but for the case of ASCII letters.
pub open spec fn same_ignoring_case(a: Seq<char>, b: Seq<char>) -> bool {
    ascii_upper(a) == ascii_upper(b)
}

/// The characters whose codes are the given bytes.
pub open spec fn chars_of(bytes: Seq<u8>) -> Seq<char> {
    Seq::new(bytes.len(), |i: int| bytes[i] as char)
}

/// The bytes of a string (UTF-8; for ASCII text, one byte per character).
pub open spec fn bytes_of(chars: Seq<char>) -> Seq<u8> {
    encode_utf8(chars)
}

/// All bytes are ASCII.
pub open spec fn all_ascii(bytes: Seq<u8>) -> bool {
    forall|i: int| 0 <= i < bytes.len() ==> bytes[i] < 0x80
}

/// ASCII bytes taken as characters have those same bytes.
pub proof fn lemma_chars_bytes(bytes: Seq<u8>)
    requires
        all_ascii(bytes),
    ensures
        bytes_of(chars_of(bytes)) == bytes,
        is_ascii_chars(chars_of(bytes)),
{
    let c = chars_of(bytes);
    assert(is_ascii_chars(c));
    is_ascii_chars_encode_utf8(c);
    assert(bytes_of(c) =~= bytes);
}

/// ASCII characters taken as bytes give those same characters.
pub proof fn lemma_bytes_chars(chars: Seq<char>)
    requires
        is_ascii_chars(chars),
    ensures
        chars_of(bytes_of(chars)) == chars,
        all_ascii(bytes_of(chars)),
        bytes_of(chars).len() == chars.len(),
        forall|i: int| 0 <= i < chars.len() ==> bytes_of(chars)[i] == chars[i] as u8,
{
    is_ascii_chars_encode_utf8(chars);
    assert(chars_of(bytes_of(chars)) =~= chars);
}

/// The string whose characters have the given bytes as codes.
pub fn string_of(bytes: &[u8]) -> (r: String)
    ensures
        r@ == chars_of(bytes@),
{
    let mut s = String::new();
    let mut i: usize = 0;
    while i < bytes.len()
        invariant
            i <= bytes@.len(),
            s@ == chars_of(bytes@.take(i as int)),
        decreases bytes@.len() - i,
    {
        s.push(bytes[i] as char);
        i += 1;
        assert(s@ =~= chars_of(bytes@.take(i as int)));
    }
    assert(bytes@.take(i as int) =~= bytes@);
    s
}

/// The characters of a string.
pub fn char_vec(s: &str) -> (r: Vec<char>)
    ensures
        r@ == s@,
{
    let mut out: Vec<char> = Vec::new();
    for c in it: s.chars()
        invariant
            it.seq() == s@,
            out@ == s@.take(it.index() as int),
    {
        out.push(c);
        assert(out@ =~= s@.take(it.index() as int + 1));
    }
    assert(out@ =~= s@);
    out
}

/// The string of some characters.
pub fn string_from(chars: &[char]) -> (r: String)
    ensures
        r@ == chars@,
{
    let mut s = String::new();
    let mut i: usize = 0;
    while i < chars.len()
        invariant
            i <= chars@.len(),
            s@ == chars@.take(i as int),
        decreases chars@.len() - i,
    {
        s.push(chars[i]);
        i += 1;
        assert(s@ =~= chars@.take(i as int));
    }
    assert(chars@.take(i as int) =~= chars@);
    s
}

fn upper_of(c: char) -> (r: char)
    ensures
        r == upper_char(c),
{
    if c >= 'a' && c <= 'z' {
        let code: u8 = c as u8;
        (code - 32) as char
    } else {
        c
    }
}

/// Text with the ASCII letters in upper case.
pub fn to_ascii_upper(chars: &[char]) -> (r: Vec<char>)
    ensures
        r@ == ascii_upper(chars@),
{
    let mut out: Vec<char> = Vec::new();
    let mut i: usize = 0;
    while i < chars.len()
        invariant
            i <= chars@.len(),
            out@ == ascii_upper(chars@.take(i as int)),
        decreases chars@.len() - i,
    {
        out.push(upper_of(chars[i]));
        i += 1;
        assert(out@ =~= ascii_upper(chars@.take(i as int)));
    }
    assert(chars@.take(i as int) =~= chars@);
    out
}

/// A string in upper case.
pub fn to_upper(s: &str) -> (r: String)
    ensures
        r@ == upper(s@),
{
    if s.is_ascii() {
        let chars: Vec<char> = char_vec(s);
        string_from(to_ascii_upper(chars.as_slice()).as_slice())
    } else {
        s.to_uppercase()
    }
}

/// Whether two texts are the same but for the case of ASCII letters.
pub fn eq_ignore_case(a: &[char], b: &[char]) -> (r: bool)
    ensures
        r == same_ignoring_case(a@, b@),
{
    if a.len() != b.len() {
        assert(ascii_upper(a@).len() != ascii_upper(b@).len());
        return false;
    }
    let mut i: usize = 0;
    while i < a.len()
        invariant
            a@.len() == b@.len(),
            i <= a@.len(),
            forall|k: int| 0 <= k < i ==> upper_char(#[trigger] a@[k]) == upper_char(b@[k]),
        decreases a@.len() - i,
    {
        if upper_of(a[i]) != upper_of(b[i]) {
            assert(ascii_upper(a@)[i as int] != ascii_upper(b@)[i as int]);
            return false;
        }
        i += 1;
    }
    assert(ascii_upper(a@) =~= ascii_upper(b@));
    true
}

/// Whether two texts are equal.
pub fn same_chars(a: &[char], b: &[char]) -> (r: bool)
    ensures
        r == (a@ == b@),
{
    if a.len() != b.len() {
        return false;
    }
    let mut i: usize = 0;
    while i < a.len()
        invariant
            a@.len() == b@.len(),
            i <= a@.len(),
            forall|k: int| 0 <= k < i ==> a@[k] == b@[k],
        decreases a@.len() - i,
    {
        if a[i] != b[i] {
            return false;
        }
        i += 1;
    }
    assert(a@ =~= b@);
    true
}

/// Whether a text is the given literal.
pub fn is_text(a: &[char], s: &str) -> (r: bool)
    ensures
        r == (a@ == s@),
{
    let b: Vec<char> = char_vec(s);
    same_chars(a, b.as_slice())
}

/// A character of the Unicode property `White_Space`.
pub open spec fn is_space(c: char) -> bool {
    let n = c as u32;
    ||| 0x09 <= n <= 0x0D
    ||| n == 0x20
    ||| n == 0x85
    ||| n == 0xA0
    ||| n == 0x1680
    ||| 0x2000 <= n <= 0x200A
    ||| n == 0x2028
    ||| n == 0x2029
    ||| n == 0x202F
    ||| n == 0x205F
    ||| n == 0x3000
}

fn space(c: char) -> (r: bool)
    ensures
        r == is_space(c),
{
    let n: u32 = c as u32;
    (n >= 0x09 && n <= 0x0D) || n == 0x20 || n == 0x85 || n == 0xA0 || n == 0x1680 || (n >= 0x2000
        && n <= 0x200A) || n == 0x2028 || n == 0x2029 || n == 0x202F || n == 0x205F || n == 0x3000
}

/// Text without the white space at its start.
pub open spec fn trim_start(s: Seq<char>) -> Seq<char>
    decreases s.len(),
{
    if s.len() > 0 && is_space(s[0]) {
        trim_start(s.skip(1))
    } else {
        s
    }
}

/// Text without the white space at its end.
pub open spec fn trim_end(s: Seq<char>) -> Seq<char>
    decreases s.len(),
{
    if s.len() > 0 && is_space(s.last()) {
        trim_end(s.drop_last())
    } else {
        s
    }
}

/// Text without the white space around it.
pub open spec fn trim(s: Seq<char>) -> Seq<char> {
    trim_end(trim_start(s))
}

/// Text without the white space at its start.
pub fn trimmed_start<'a>(s: &'a [char]) -> (r: &'a [char])
    ensures
        r@ == trim_start(s@),
        r@.len() <= s@.len(),
{
    let n: usize = s.len();
    let mut i: usize = 0;
    assert(s@.skip(0) =~= s@);
    while i < n && space(s[i])
        invariant
            i <= n,
            n == s@.len(),
            trim_start(s@.skip(i as int)) == trim_start(s@),
        decreases n - i,
    {
        assert(s@.skip(i as int).skip(1) =~= s@.skip(i + 1));
        i += 1;
    }
    let r = vstd::slice::slice_subrange(s, i, n);
    assert(r@ =~= s@.skip(i as int));
    r
}

/// Text without the white space at its end.
pub fn trimmed_end<'a>(s: &'a [char]) -> (r: &'a [char])
    ensures
        r@ == trim_end(s@),
        r@.len() <= s@.len(),
        r@ == s@.take(r@.len() as int),
{
    let mut n: usize = s.len();
    assert(s@.take(n as int) =~= s@);
    while n > 0 && space(s[n - 1])
        invariant
            n <= s@.len(),
            trim_end(s@.take(n as int)) == trim_end(s@),
        decreases n,
    {
        assert(s@.take(n as int).drop_last() =~= s@.take(n - 1));
        n -= 1;
    }
    let r = vstd::slice::slice_subrange(s, 0, n);
    assert(r@ =~= s@.take(n as int));
    r
}

/// Text without the white space around it.
pub fn trimmed<'a>(s: &'a [char]) -> (r: &'a [char])
    ensures
        r@ == trim(s@),
        r@.len() <= s@.len(),
{
    trimmed_end(trimmed_start(s))
}

/// A decimal digit.
pub open spec fn is_digit(c: char) -> bool {
    '0' <= c <= '9'
}

/// The value of a digit.
pub open spec fn digit_value(c: char) -> int {
    c as int - 0x30
}

/// All characters are digits, and there is at least one.
pub open spec fn all_digits(s: Seq<char>) -> bool {
    s.len() > 0 && forall|i: int| 0 <= i < s.len() ==> is_digit(#[trigger] s[i])
}

/// The number that digits spell.
pub open spec fn digits_value(s: Seq<char>) -> int
    decreases s.len(),
{
    if s.len() == 0 {
        0
    } else {
        10 * digits_value(s.drop_last()) + digit_value(s.last())
    }
}

/// The decimal digits of a natural number.
pub open spec fn decimal_nat(n: nat) -> Seq<char>
    decreases n,
{
    if n < 10 {
        seq![(0x30 + n) as char]
    } else {
        decimal_nat(n / 10).push((0x30 + n % 10) as char)
    }
}

/// The decimal notation of an integer.
pub open spec fn decimal(n: int) -> Seq<char> {
    if n < 0 {
        seq!['-'] + decimal_nat((-n) as nat)
    } else {
        decimal_nat(n as nat)
    }
}

/// The integer that a text spells: an optional sign and digits.
pub open spec fn integer_of(s: Seq<char>) -> Option<int> {
    if s.len() > 0 && (s[0] == '-' || s[0] == '+') {
        if all_digits(s.skip(1)) {
            Some(
                if s[0] == '-' {
                    -digits_value(s.skip(1))
                } else {
                    digits_value(s.skip(1))
                },
            )
        } else {
            None
        }
    } else if all_digits(s) {
        Some(digits_value(s))
    } else {
        None
    }
}

pub proof fn lemma_decimal_nat(n: nat)
    ensures
        all_digits(decimal_nat(n)),
        digits_value(decimal_nat(n)) == n,
        n > 0 ==> decimal_nat(n)[0] != '0',
    decreases n,
{
    let s = decimal_nat(n);
    if n < 10 {
        assert(s.drop_last() =~= Seq::empty());
        assert(digits_value(s.drop_last()) == 0);
    } else {
        lemma_decimal_nat(n / 10);
        assert(s.drop_last() =~= decimal_nat(n / 10));
    }
}

/// The decimal notation of an integer spells that integer.
pub proof fn decimal_round_trip(n: int)
    ensures
        integer_of(decimal(n)) == Some(n),
        is_ascii_chars(decimal(n)),
        decimal(n).len() > 0,
        forall|i: int| 0 <= i < decimal(n).len() ==> !is_space(#[trigger] decimal(n)[i]),
{
    if n < 0 {
        lemma_decimal_nat((-n) as nat);
        assert(decimal(n).skip(1) =~= decimal_nat((-n) as nat));
    } else {
        lemma_decimal_nat(n as nat);
        assert(is_digit(decimal(n)[0]));
    }
    assert forall|i: int| 0 <= i < decimal(n).len() implies ('\0' <= #[trigger] decimal(n)[i]
        <= '\u{7f}' && !is_space(decimal(n)[i])) by {
        if n < 0 {
            if i > 0 {
                assert(is_digit(decimal_nat((-n) as nat)[i - 1]));
            }
        } else {
            assert(is_digit(decimal_nat(n as nat)[i]));
        }
    }
}

/// Append the decimal digits of a number.
fn push_nat(s: &mut String, n: u128)
    ensures
        final(s)@ == old(s)@ + decimal_nat(n as nat),
    decreases n,
{
    if n >= 10 {
        push_nat(s, n / 10);
    }
    s.push((0x30 + n % 10) as u8 as char);
    assert(s@ =~= old(s)@ + decimal_nat(n as nat));
}

/// Append the decimal notation of an integer.
pub fn push_decimal(s: &mut String, n: i64)
    ensures
        final(s)@ == old(s)@ + decimal(n as int),
{
    if n < 0 {
        s.push('-');
        let m: u64 = (-(n + 1)) as u64 + 1;
        push_nat(s, m as u128);
        assert(s@ =~= old(s)@ + decimal(n as int));
    } else {
        push_nat(s, n as u128);
    }
}

/// The decimal notation of an unsigned integer.
pub fn decimal_u128(n: u128) -> (r: String)
    ensures
        r@ == decimal(n as int),
{
    let mut s = String::new();
    push_nat(&mut s, n);
    assert(s@ =~= decimal(n as int));
    s
}

/// The decimal notation of an unsigned integer.
pub fn decimal_u64(n: u64) -> (r: String)
    ensures
        r@ == decimal(n as int),
{
    decimal_u128(n as u128)
}

/// The decimal notation of an integer.
pub fn decimal_i64(n: i64) -> (r: String)
    ensures
        r@ == decimal(n as int),
{
    let mut s = String::new();
    push_decimal(&mut s, n);
    assert(s@ =~= decimal(n as int));
    s
}

/// A name followed by a number, such as `NAXIS2`.
pub fn numbered(name: &str, n: usize) -> (r: String)
    ensures
        r@ == name@ + decimal(n as int),
{
    let mut s = name.to_owned();
    push_nat(&mut s, n as u128);
    s
}

/// The number that digits spell, where 64 bits hold it.
fn digits_u64(s: &[char], start: usize) -> (r: Option<u64>)
    requires
        start <= s@.len(),
    ensures
        match r {
            Some(v) => all_digits(s@.skip(start as int)) && v == digits_value(
                s@.skip(start as int),
            ),
            None => !all_digits(s@.skip(start as int)) || digits_value(s@.skip(start as int))
                > u64::MAX,
        },
{
    let n: usize = s.len();
    let ghost all = s@.skip(start as int);
    if start == n {
        return None;
    }
    let mut i: usize = start;
    let mut v: u64 = 0;
    assert(all.take(0) =~= Seq::empty());
    while i < n
        invariant
            start <= i <= n,
            n == s@.len(),
            all == s@.skip(start as int),
            forall|k: int| 0 <= k < i - start ==> is_digit(#[trigger] all[k]),
            v == digits_value(all.take(i - start)),
        decreases n - i,
    {
        let c: char = s[i];
        assert(all[i - start] == c);
        if c < '0' || c > '9' {
            assert(!all_digits(all));
            return None;
        }
        let d: u64 = (c as u32 - 0x30) as u64;
        proof {
            assert(all.take(i + 1 - start).drop_last() =~= all.take(i - start));
        }
        if v > (u64::MAX - d) / 10 {
            proof {
                lemma_digits_prefix(all, i + 1 - start);
            }
            return None;
        }
        v = 10 * v + d;
        i += 1;
    }
    assert(all.take(i - start) =~= all);
    Some(v)
}

/// Digits spell at least what their start spells.
proof fn lemma_digits_prefix(s: Seq<char>, k: int)
    requires
        0 <= k <= s.len(),
    ensures
        all_digits(s) ==> digits_value(s) >= digits_value(s.take(k)) >= 0,
    decreases s.len(),
{
    if all_digits(s) {
        if k == s.len() {
            assert(s.take(k) =~= s);
            if s.len() > 1 {
                assert(all_digits(s.drop_last())) by {
                    assert forall|i: int| 0 <= i < s.len() - 1 implies is_digit(
                        #[trigger] s.drop_last()[i],
                    ) by {
                        assert(is_digit(s[i]));
                    }
                }
                lemma_digits_prefix(s.drop_last(), k - 1);
                assert(is_digit(s.last()));
            } else {
                assert(s.drop_last() =~= Seq::empty());
                assert(is_digit(s.last()));
                assert(digits_value(s.drop_last()) == 0);
            }
        } else {
            let t = s.drop_last();
            assert(t.take(k) =~= s.take(k));
            assert(is_digit(s.last()));
            if t.len() > 0 {
                assert(all_digits(t)) by {
                    assert forall|i: int| 0 <= i < t.len() implies is_digit(#[trigger] t[i]) by {
                        assert(is_digit(s[i]));
                    }
                }
                lemma_digits_prefix(t, k);
            } else {
                assert(s.take(k) =~= Seq::empty());
            }
        }
    }
}

/// The integer that a text spells, where 64 bits hold it.
pub fn parse_i64(s: &[char]) -> (r: Option<i64>)
    ensures
        match r {
            Some(v) => integer_of(s@) == Some(v as int),
            None => match integer_of(s@) {
                None => true,
                Some(v) => v < i64::MIN || v > i64::MAX,
            },
        },
{
    if s.len() > 0 && (s[0] == '-' || s[0] == '+') {
        let negative: bool = s[0] == '-';
        match digits_u64(s, 1) {
            Some(v) => {
                if negative {
                    if v <= 0x7FFF_FFFF_FFFF_FFFF {
                        Some(-(v as i64))
                    } else if v == 0x8000_0000_0000_0000 {
                        Some(i64::MIN)
                    } else {
                        None
                    }
                } else if v <= 0x7FFF_FFFF_FFFF_FFFF {
                    Some(v as i64)
                } else {
                    None
                }
            },
            None => None,
        }
    } else {
        assert(s@.skip(0) =~= s@);
        match digits_u64(s, 0) {
            Some(v) => if v <= 0x7FFF_FFFF_FFFF_FFFF {
                Some(v as i64)
            } else {
                None
            },
            None => None,
        }
    }
}

/// The unsigned integer that a text spells: digits, with a plus sign allowed.
pub open spec fn unsigned_of(s: Seq<char>) -> Option<int> {
    if s.len() > 0 && s[0] == '-' {
        None
    } else {
        integer_of(s)
    }
}

/// The unsigned integer that a text spells, where 64 bits hold it.
pub fn parse_u64(s: &[char]) -> (r: Option<u64>)
    ensures
        match r {
            Some(v) => unsigned_of(s@) == Some(v as int),
            None => match unsigned_of(s@) {
                None => true,
                Some(v) => v > u64::MAX,
            },
        },
{
    if s.len() > 0 && s[0] == '-' {
        return None;
    }
    assert(s@.skip(0) =~= s@);
    if s.len() > 0 && s[0] == '+' {
        digits_u64(s, 1)
    } else {
        digits_u64(s, 0)
    }
}

/// Whether two strings are the same but for the case of ASCII letters.
pub fn eq_ignore_ascii_case(a: &str, b: &str) -> (r: bool)
    ensures
        r == same_ignoring_case(a@, b@),
{
    broadcast use vstd::string::group_string_axioms;

    let mut ia = a.chars();
    let mut ib = b.chars();
    let ghost k: int = 0;
    assert(a@.skip(0) =~= a@);
    assert(b@.skip(0) =~= b@);
    loop
        invariant
            0 <= k <= a@.len(),
            k <= b@.len(),
            vstd::std_specs::iter::IteratorSpec::obeys_prophetic_iter_laws(&ia),
            vstd::std_specs::iter::IteratorSpec::obeys_prophetic_iter_laws(&ib),
            vstd::std_specs::iter::IteratorSpec::remaining(&ia) == a@.skip(k),
            vstd::std_specs::iter::IteratorSpec::remaining(&ib) == b@.skip(k),
            forall|i: int| 0 <= i < k ==> upper_char(#[trigger] a@[i]) == upper_char(b@[i]),
        decreases a@.len() - k,
    {
        broadcast use vstd::string::group_string_axioms;

        match (ia.next(), ib.next()) {
            (None, None) => {
                assert(ascii_upper(a@) =~= ascii_upper(b@));
                return true;
            },
            (Some(x), Some(y)) => {
                if upper_of(x) != upper_of(y) {
                    assert(ascii_upper(a@)[k] != ascii_upper(b@)[k]);
                    return false;
                }
                proof {
                    assert(a@.skip(k).drop_first() =~= a@.skip(k + 1));
                    assert(b@.skip(k).drop_first() =~= b@.skip(k + 1));
                    k = k + 1;
                }
            },
            _ => {
                assert(ascii_upper(a@).len() != ascii_upper(b@).len());
                return false;
            },
        }
    }
}

/// The unsigned number that a text spells, where a size holds it.
pub open spec fn size_value(s: Seq<char>) -> Option<usize> {
    match unsigned_of(s) {
        None => None,
        Some(v) => if v <= usize::MAX {
            Some(v as usize)
        } else {
            None
        },
    }
}

/// Parse an unsigned number as a size.
pub fn parse_usize(s: &[char]) -> (r: Option<usize>)
    ensures
        r == size_value(s@),
{
    match parse_u64(s) {
        Some(v) => if v <= usize::MAX as u64 {
            Some(v as usize)
        } else {
            None
        },
        None => None,
    }
}

/// The characters before `n`.
pub fn head<'a>(s: &'a [char], n: usize) -> (r: &'a [char])
    requires
        n <= s@.len(),
    ensures
        r@ == s@.take(n as int),
{
    vstd::slice::slice_subrange(s, 0, n)
}

/// The characters from `n` on.
pub fn tail<'a>(s: &'a [char], n: usize) -> (r: &'a [char])
    requires
        n <= s@.len(),
    ensures
        r@ == s@.skip(n as int),
{
    let r = vstd::slice::slice_subrange(s, n, s.len());
    assert(r@ =~= s@.skip(n as int));
    r
}

/// Text that starts and ends without blanks is its own trimmed text.
pub proof fn lemma_trim_same(s: Seq<char>)
    requires
        s.len() > 0 ==> !is_space(s[0]) && !is_space(s.last()),
    ensures
        trim(s) == s,
{
}

/// Trimmed text neither starts nor ends with white space.
pub proof fn lemma_trim_ends(s: Seq<char>)
    ensures
        trim(s).len() > 0 ==> !is_space(trim(s)[0]) && !is_space(trim(s).last()),
{
    lemma_trim_start_end(s);
    lemma_trim_end_start(trim_start(s));
}

proof fn lemma_trim_start_end(s: Seq<char>)
    ensures
        trim_start(s).len() > 0 ==> !is_space(trim_start(s)[0]),
    decreases s.len(),
{
    if s.len() > 0 && is_space(s[0]) {
        lemma_trim_start_end(s.skip(1));
    }
}

proof fn lemma_trim_end_start(s: Seq<char>)
    ensures
        trim_end(s).len() > 0 ==> !is_space(trim_end(s).last()) && trim_end(s)[0] == s[0],
    decreases s.len(),
{
    if s.len() > 0 && is_space(s.last()) {
        lemma_trim_end_start(s.drop_last());
    }
}

/// The bytes of two texts, one behind the other.
pub proof fn lemma_bytes_add(a: Seq<char>, b: Seq<char>)
    ensures
        bytes_of(a + b) == bytes_of(a) + bytes_of(b),
    decreases a.len(),
{
    if a.len() == 0 {
        assert(a + b =~= b);
        assert(bytes_of(a) + bytes_of(b) =~= bytes_of(b));
    } else {
        lemma_bytes_add(a.drop_first(), b);
        assert((a + b).drop_first() =~= a.drop_first() + b);
        let first = encode_scalar(a[0] as u32);
        assert(first + (bytes_of(a.drop_first()) + bytes_of(b)) =~= first + bytes_of(
            a.drop_first(),
        ) + bytes_of(b));
    }
}

/// Text that is not empty has bytes.
pub proof fn lemma_nonempty_bytes(s: Seq<char>)
    requires
        s.len() > 0,
    ensures
        bytes_of(s).len() > 0,
{
    assert(encode_scalar(s[0] as u32).len() > 0);
    assert(encode_utf8(s) == encode_scalar(s[0] as u32) + encode_utf8(s.drop_first()));
}

/// The characters that are white space: the controls from tabulator to carriage return, the
/// blank, the next line, and the spaces and separators of the other scripts.
pub proof fn white_space(c: char)
    ensures
        is_space(c) == (c == '\t' || c == '\n' || c == '\u{b}' || c == '\u{c}' || c == '\r' || c
            == ' ' || c == '\u{85}' || c == '\u{a0}' || c == '\u{1680}' || c == '\u{2000}' || c
            == '\u{2001}' || c == '\u{2002}' || c == '\u{2003}' || c == '\u{2004}' || c
            == '\u{2005}' || c == '\u{2006}' || c == '\u{2007}' || c == '\u{2008}' || c
            == '\u{2009}' || c == '\u{200a}' || c == '\u{2028}' || c == '\u{2029}' || c
            == '\u{202f}' || c == '\u{205f}' || c == '\u{3000}'),
{
}

} // verus!
