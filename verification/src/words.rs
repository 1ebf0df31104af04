//! Sequences of big-endian numbers of one width.
use crate::bigendian;
use vstd::prelude::*;

verus! {

/// The number that the bytes of a word spell.
pub open spec fn word_number(signed: bool, s: Seq<u8>) -> int {
    if signed {
        bigendian::be_signed(s)
    } else {
        bigendian::be_value(s) as int
    }
}

/// The bytes of a word.
pub open spec fn word_bytes(signed: bool, w: nat, v: int) -> Seq<u8> {
    if signed {
        bigendian::be_signed_digits(v, w)
    } else {
        bigendian::be_digits(v as nat, w)
    }
}

/// A number that a word of `w` bytes holds.
pub open spec fn word_holds(signed: bool, w: nat, v: int) -> bool {
    if signed {
        -bigendian::byte_power(w) <= 2 * v < bigendian::byte_power(w)
    } else {
        0 <= v < bigendian::byte_power(w)
    }
}

/// The numbers that whole words of `w` bytes spell; bytes behind the last whole
/// word do not count.
pub open spec fn words_decoded(signed: bool, w: nat, bytes: Seq<u8>) -> Seq<int> {
    Seq::new(
        bytes.len() / w,
        |i: int| word_number(signed, bytes.subrange(i * w, i * w + w)),
    )
}

/// The bytes of numbers, one word after the other.
pub open spec fn words_encoded(signed: bool, w: nat, values: Seq<int>) -> Seq<u8>
    decreases values.len(),
{
    if values.len() == 0 {
        Seq::empty()
    } else {
        words_encoded(signed, w, values.drop_last()) + word_bytes(signed, w, values.last())
    }
}

proof fn lemma_word_bytes_len(signed: bool, w: nat, v: int)
    ensures
        word_bytes(signed, w, v).len() == w,
{
    if signed {
        bigendian::lemma_be_digits_len((v % bigendian::byte_power(w) as int) as nat, w);
    } else {
        bigendian::lemma_be_digits_len(v as nat, w);
    }
}

pub proof fn lemma_words_encoded_len(signed: bool, w: nat, values: Seq<int>)
    ensures
        words_encoded(signed, w, values).len() == values.len() * w,
    decreases values.len(),
{
    if values.len() > 0 {
        lemma_words_encoded_len(signed, w, values.drop_last());
        lemma_word_bytes_len(signed, w, values.last());
        assert(values.len() * w == (values.len() - 1) * w + w) by (nonlinear_arith);
    } else {
        assert(values.len() * w == 0) by (nonlinear_arith)
            requires
                values.len() == 0,
        ;
    }
}

/// The bytes of one of the encoded numbers.
proof fn lemma_words_encoded_at(signed: bool, w: nat, values: Seq<int>, i: int)
    requires
        0 <= i < values.len(),
    ensures
        0 <= i * w,
        i * w + w <= words_encoded(signed, w, values).len(),
        words_encoded(signed, w, values).subrange(i * w, i * w + w) == word_bytes(
            signed,
            w,
            values[i],
        ),
    decreases values.len(),
{
    let all = words_encoded(signed, w, values);
    let front = words_encoded(signed, w, values.drop_last());
    let n = values.len();
    lemma_words_encoded_len(signed, w, values);
    lemma_words_encoded_len(signed, w, values.drop_last());
    lemma_word_bytes_len(signed, w, values.last());
    assert(0 <= i * w && i * w + w <= n * w) by (nonlinear_arith)
        requires
            0 <= i < n,
    ;
    if i == n - 1 {
        assert(all.subrange(i * w, i * w + w) =~= word_bytes(signed, w, values[i]));
    } else {
        lemma_words_encoded_at(signed, w, values.drop_last(), i);
        assert(all.subrange(i * w, i * w + w) =~= front.subrange(i * w, i * w + w));
    }
}

/// A number that a word holds is read back from its bytes.
pub proof fn word_round_trip(signed: bool, w: nat, v: int)
    requires
        w > 0,
        word_holds(signed, w, v),
    ensures
        word_number(signed, word_bytes(signed, w, v)) == v,
{
    if signed {
        bigendian::be_signed_round_trip(v, w);
    } else {
        bigendian::be_value_of_digits(v as nat, w);
        vstd::arithmetic::div_mod::lemma_small_mod(v as nat, bigendian::byte_power(w));
    }
}

/// The bytes of the number that a word spells are that word.
pub proof fn word_bytes_of_number(signed: bool, s: Seq<u8>)
    requires
        s.len() > 0,
    ensures
        word_bytes(signed, s.len(), word_number(signed, s)) == s,
        word_holds(signed, s.len(), word_number(signed, s)),
{
    let m = bigendian::byte_power(s.len()) as int;
    let u = bigendian::be_value(s);
    bigendian::be_digits_of_value(s);
    bigendian::lemma_be_value_bound(s);
    if signed {
        assert(m % 2 == 0) by {
            assert(bigendian::byte_power(s.len()) == 0x100 * bigendian::byte_power(
                (s.len() - 1) as nat,
            ));
        }
        let v = bigendian::be_signed(s);
        vstd::arithmetic::div_mod::lemma_small_mod(u, m as nat);
        assert(v == u || v == u - m);
        assert(v % m == u) by {
            if v == u - m {
                vstd::arithmetic::div_mod::lemma_mod_add_multiples_vanish(v, m);
            }
        }
    }
}

/// Decoding gives back the numbers that were encoded.
pub proof fn words_round_trip(signed: bool, w: nat, values: Seq<int>)
    requires
        w > 0,
        forall|i: int| 0 <= i < values.len() ==> word_holds(signed, w, #[trigger] values[i]),
    ensures
        words_decoded(signed, w, words_encoded(signed, w, values)) == values,
{
    let bytes = words_encoded(signed, w, values);
    lemma_words_encoded_len(signed, w, values);
    vstd::arithmetic::div_mod::lemma_div_by_multiple(values.len() as int, w as int);
    assert forall|i: int| 0 <= i < values.len() implies #[trigger] words_decoded(
        signed,
        w,
        bytes,
    )[i] == values[i] by {
        lemma_words_encoded_at(signed, w, values, i);
        word_round_trip(signed, w, values[i]);
    }
    assert(words_decoded(signed, w, bytes) =~= values);
}

/// Encoding gives back the whole words that were decoded.
pub proof fn words_encoded_of_decoded(signed: bool, w: nat, bytes: Seq<u8>)
    requires
        w > 0,
        bytes.len() % w == 0,
    ensures
        words_encoded(signed, w, words_decoded(signed, w, bytes)) == bytes,
    decreases bytes.len(),
{
    let values = words_decoded(signed, w, bytes);
    let n = bytes.len() / w;
    vstd::arithmetic::div_mod::lemma_fundamental_div_mod(bytes.len() as int, w as int);
    assert(w * n == n * w) by (nonlinear_arith);
    if n == 0 {
        assert(n * w == 0) by (nonlinear_arith)
            requires
                n == 0,
        ;
        assert(bytes =~= words_encoded(signed, w, values));
    } else {
        let m: int = n - 1;
        assert(n * w == m * w + w && m * w >= 0) by (nonlinear_arith)
            requires
                n == m + 1,
                m >= 0,
        ;
        let front = bytes.take(m * w);
        vstd::arithmetic::div_mod::lemma_div_by_multiple(m, w as int);
        vstd::arithmetic::div_mod::lemma_mod_multiples_basic(m, w as int);
        words_encoded_of_decoded(signed, w, front);
        assert(values.drop_last() =~= words_decoded(signed, w, front)) by {
            assert forall|i: int| 0 <= i < m implies #[trigger] words_decoded(
                signed,
                w,
                front,
            )[i] == values[i] by {
                assert(0 <= i * w && i * w + w <= m * w) by (nonlinear_arith)
                    requires
                        0 <= i < m,
                ;
                assert(front.subrange(i * w, i * w + w) =~= bytes.subrange(i * w, i * w + w));
            }
        }
        let last = bytes.subrange(m * w, m * w + w);
        word_bytes_of_number(signed, last);
        assert(bytes =~= front + last);
    }
}

/// Fixed-width big-endian (de)serialization for pixel element types.
pub trait BigEndian: Copy {
    /// Bytes of one number.
    spec fn width() -> nat;

    /// Whether numbers can be negative.
    spec fn signed() -> bool;

    /// The number that a value stands for.
    spec fn number(self) -> int;

    fn size() -> (r: usize)
        ensures
            r == Self::width(),
            1 <= r <= 8,
    ;

    /// A value is a number that its width holds.
    proof fn number_held(self)
        ensures
            word_holds(Self::signed(), Self::width(), self.number()),
    ;

    /// A value is determined by its number.
    proof fn number_injective(self, other: Self)
        requires
            self.number() == other.number(),
        ensures
            self == other,
    ;

    /// Append the bytes of this value.
    fn push_be(self, out: &mut Vec<u8>)
        ensures
            final(out)@ == old(out)@ + word_bytes(Self::signed(), Self::width(), self.number()),
    ;

    /// The value whose bytes are at `pos`.
    fn read_be(data: &[u8], pos: usize) -> (r: Self)
        requires
            pos + Self::width() <= data@.len(),
        ensures
            r.number() == word_number(
                Self::signed(),
                data@.subrange(pos as int, pos + Self::width()),
            ),
    ;
}

/// The numbers that values stand for.
pub open spec fn numbers<T: BigEndian>(s: Seq<T>) -> Seq<int> {
    Seq::new(s.len(), |i: int| s[i].number())
}

impl BigEndian for u8 {
    open spec fn width() -> nat {
        1
    }

    open spec fn signed() -> bool {
        false
    }

    open spec fn number(self) -> int {
        self as int
    }

    fn size() -> (r: usize) {
        1
    }

    proof fn number_held(self) {
        bigendian::lemma_byte_powers();
    }

    proof fn number_injective(self, other: Self) {
    }

    fn push_be(self, out: &mut Vec<u8>) {
        bigendian::push_be(out, self as u64, 1);
    }

    fn read_be(data: &[u8], pos: usize) -> (r: Self) {
        proof {
            bigendian::lemma_byte_powers();
        }
        bigendian::read_be(data, pos, 1) as u8
    }
}

impl BigEndian for i16 {
    open spec fn width() -> nat {
        2
    }

    open spec fn signed() -> bool {
        true
    }

    open spec fn number(self) -> int {
        self as int
    }

    fn size() -> (r: usize) {
        2
    }

    proof fn number_held(self) {
        bigendian::lemma_byte_powers();
    }

    proof fn number_injective(self, other: Self) {
    }

    fn push_be(self, out: &mut Vec<u8>) {
        bigendian::push_be_signed(out, self as i64, 2);
    }

    fn read_be(data: &[u8], pos: usize) -> (r: Self) {
        proof {
            bigendian::lemma_byte_powers();
        }
        bigendian::read_be_signed(data, pos, 2) as i16
    }
}

impl BigEndian for i32 {
    open spec fn width() -> nat {
        4
    }

    open spec fn signed() -> bool {
        true
    }

    open spec fn number(self) -> int {
        self as int
    }

    fn size() -> (r: usize) {
        4
    }

    proof fn number_held(self) {
        bigendian::lemma_byte_powers();
    }

    proof fn number_injective(self, other: Self) {
    }

    fn push_be(self, out: &mut Vec<u8>) {
        bigendian::push_be_signed(out, self as i64, 4);
    }

    fn read_be(data: &[u8], pos: usize) -> (r: Self) {
        proof {
            bigendian::lemma_byte_powers();
        }
        bigendian::read_be_signed(data, pos, 4) as i32
    }
}

impl BigEndian for i64 {
    open spec fn width() -> nat {
        8
    }

    open spec fn signed() -> bool {
        true
    }

    open spec fn number(self) -> int {
        self as int
    }

    fn size() -> (r: usize) {
        8
    }

    proof fn number_held(self) {
        bigendian::lemma_byte_powers();
    }

    proof fn number_injective(self, other: Self) {
    }

    fn push_be(self, out: &mut Vec<u8>) {
        bigendian::push_be_signed(out, self, 8);
    }

    fn read_be(data: &[u8], pos: usize) -> (r: Self) {
        proof {
            bigendian::lemma_byte_powers();
        }
        bigendian::read_be_signed(data, pos, 8)
    }
}

impl BigEndian for u32 {
    open spec fn width() -> nat {
        4
    }

    open spec fn signed() -> bool {
        false
    }

    open spec fn number(self) -> int {
        self as int
    }

    fn size() -> (r: usize) {
        4
    }

    proof fn number_held(self) {
        bigendian::lemma_byte_powers();
    }

    proof fn number_injective(self, other: Self) {
    }

    fn push_be(self, out: &mut Vec<u8>) {
        bigendian::push_be(out, self as u64, 4);
    }

    fn read_be(data: &[u8], pos: usize) -> (r: Self) {
        proof {
            bigendian::lemma_byte_powers();
        }
        bigendian::read_be(data, pos, 4) as u32
    }
}

impl BigEndian for u64 {
    open spec fn width() -> nat {
        8
    }

    open spec fn signed() -> bool {
        false
    }

    open spec fn number(self) -> int {
        self as int
    }

    fn size() -> (r: usize) {
        8
    }

    proof fn number_held(self) {
        bigendian::lemma_byte_powers();
    }

    proof fn number_injective(self, other: Self) {
    }

    fn push_be(self, out: &mut Vec<u8>) {
        bigendian::push_be(out, self, 8);
    }

    fn read_be(data: &[u8], pos: usize) -> (r: Self) {
        proof {
            bigendian::lemma_byte_powers();
        }
        bigendian::read_be(data, pos, 8)
    }
}

/// Decode the whole words of a byte slice.
pub fn decode_vec<T: BigEndian>(data: &[u8]) -> (r: Vec<T>)
    ensures
        numbers(r@) == words_decoded(T::signed(), T::width(), data@),
{
    let w: usize = T::size();
    let n: usize = data.len() / w;
    let len: usize = data.len();
    let mut out: Vec<T> = Vec::new();
    let mut i: usize = 0;
    proof {
        vstd::arithmetic::div_mod::lemma_fundamental_div_mod(len as int, w as int);
    }
    while i < n
        invariant
            i <= n,
            w == T::width(),
            1 <= w <= 8,
            n == len / w,
            w * n <= len,
            len == data@.len(),
            out@.len() == i,
            forall|k: int|
                0 <= k < i ==> (#[trigger] out@[k]).number() == words_decoded(
                    T::signed(),
                    T::width(),
                    data@,
                )[k],
        decreases n - i,
    {
        assert(0 <= i * w && i * w + w <= w * n) by (nonlinear_arith)
            requires
                0 <= i < n,
                w >= 0,
        ;
        out.push(T::read_be(data, i * w));
        i += 1;
    }
    assert(numbers(out@) =~= words_decoded(T::signed(), T::width(), data@));
    out
}

/// Append the bytes of values.
pub fn encode_into<T: BigEndian>(values: &[T], out: &mut Vec<u8>)
    ensures
        final(out)@ == old(out)@ + words_encoded(T::signed(), T::width(), numbers(values@)),
{
    let ghost all = numbers(values@);
    let mut i: usize = 0;
    assert(all.take(0) =~= Seq::empty());
    assert(out@ =~= old(out)@ + words_encoded(T::signed(), T::width(), all.take(0)));
    while i < values.len()
        invariant
            i <= values@.len(),
            all == numbers(values@),
            out@ == old(out)@ + words_encoded(T::signed(), T::width(), all.take(i as int)),
        decreases values@.len() - i,
    {
        values[i].push_be(out);
        proof {
            assert(all.take(i + 1).drop_last() =~= all.take(i as int));
            assert(out@ =~= old(out)@ + words_encoded(T::signed(), T::width(), all.take(i + 1)));
        }
        i += 1;
    }
    assert(all.take(i as int) =~= all);
}

} // verus!
