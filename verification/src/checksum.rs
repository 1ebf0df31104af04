//! The ones-complement checksum of the FITS checksum convention.
//!
//! Data is summed as 32-bit big-endian words with end-around carry. The
//! DATASUM keyword stores the sum of the data unit as a decimal string. The
//! CHECKSUM keyword stores an ASCII-encoded complement such that the sum of the
//! whole HDU (header + data) is all ones.
use crate::casts;
use crate::error::{Error, Result};
use crate::header;
use crate::header::Header;
use crate::keyword;
use crate::keyword::{HeaderValue, KeywordView, ValueView};
use crate::text;
use vstd::prelude::*;

verus! {

/// All ones: the modulus of 32-bit ones-complement arithmetic.
pub const ALL_ONES: u32 = 0xFFFF_FFFF;

/// The big-endian value of four bytes.
pub open spec fn be_word(b0: u8, b1: u8, b2: u8, b3: u8) -> nat {
    (b0 * 0x100_0000 + b1 * 0x1_0000 + b2 * 0x100 + b3) as nat
}

/// Byte `i` of `data` continued by zeros without end.
pub open spec fn byte_or_zero(data: Seq<u8>, i: int) -> u8 {
    if 0 <= i < data.len() {
        data[i]
    } else {
        0
    }
}

/// Sum of the 32-bit big-endian words of `data`; a trailing partial word is
/// zero-padded on the right.
pub open spec fn word_sum(data: Seq<u8>) -> nat
    decreases data.len(),
{
    if data.len() == 0 {
        0
    } else {
        be_word(
            byte_or_zero(data, 0),
            byte_or_zero(data, 1),
            byte_or_zero(data, 2),
            byte_or_zero(data, 3),
        ) + word_sum(data.skip(if data.len() < 4 {
            data.len() as int
        } else {
            4
        }))
    }
}

/// The canonical ones-complement form of `n`: `n` modulo `2^32 - 1`, where a
/// non-zero multiple of the modulus is all ones rather than zero.
pub open spec fn ones_fold(n: nat) -> u32 {
    if n == 0 {
        0
    } else {
        (1 + (n - 1) % 0xFFFF_FFFF) as u32
    }
}

/// The checksum of a byte sequence.
pub open spec fn checksum_of(data: Seq<u8>) -> u32 {
    ones_fold(word_sum(data))
}

proof fn lemma_fold_step(x: nat, q: nat)
    requires
        x > 0,
    ensures
        ones_fold((x + q * 0xFFFF_FFFF) as nat) == ones_fold(x),
{
    let m = 0xFFFF_FFFFint;
    assert((x + q * m - 1) % m == (x - 1) % m) by (nonlinear_arith)
        requires
            m == 0xFFFF_FFFFint,
    {
        vstd::arithmetic::div_mod::lemma_mod_multiples_vanish(q as int, x - 1, m);
        assert(m * q + (x - 1) == x + q * m - 1);
    }
}

/// Folding one addend first does not change the folded sum.
pub proof fn ones_fold_absorbs(x: nat, y: nat)
    ensures
        ones_fold((ones_fold(x) + y) as nat) == ones_fold(x + y),
        ones_fold(x) == 0 <==> x == 0,
        x <= 0xFFFF_FFFF ==> ones_fold(x) == x,
{
    if x > 0 {
        let m = 0xFFFF_FFFFint;
        let q = ((x - 1) / m) as nat;
        vstd::arithmetic::div_mod::lemma_fundamental_div_mod(x - 1, m);
        assert(x == ones_fold(x) + q * m) by {
            assert(m * q == q * m) by (nonlinear_arith);
        }
        lemma_fold_step((ones_fold(x) + y) as nat, q);
    }
}

/// The words of a concatenation are the words of its parts, when the first part
/// ends on a word boundary.
pub proof fn word_sum_concat(a: Seq<u8>, b: Seq<u8>)
    requires
        a.len() % 4 == 0,
    ensures
        word_sum(a + b) == word_sum(a) + word_sum(b),
    decreases a.len(),
{
    if a.len() == 0 {
        assert(a + b =~= b);
    } else {
        assert((a + b).skip(4) =~= a.skip(4) + b);
        word_sum_concat(a.skip(4), b);
    }
}

/// The sum of a single word.
proof fn lemma_word_sum_one(w: Seq<u8>)
    requires
        w.len() == 4,
    ensures
        word_sum(w) == be_word(w[0], w[1], w[2], w[3]),
{
    assert(w.skip(4) =~= Seq::empty());
    assert(word_sum(w.skip(4)) == 0);
}

/// A checksum of a word-aligned first part accumulated with the rest is the
/// checksum of the whole.
pub proof fn checksum_accumulates(a: Seq<u8>, b: Seq<u8>)
    requires
        a.len() % 4 == 0,
    ensures
        ones_fold((checksum_of(a) + checksum_of(b)) as nat) == checksum_of(a + b),
{
    word_sum_concat(a, b);
    ones_fold_absorbs(word_sum(a), checksum_of(b) as nat);
    ones_fold_absorbs(word_sum(b), word_sum(a));
}

/// Zero bytes appended to the data leave the checksum as it is.
pub proof fn checksum_ignores_zero_padding(data: Seq<u8>, n: nat)
    ensures
        checksum_of(data + Seq::new(n, |i: int| 0u8)) == checksum_of(data),
{
    lemma_word_sum_zero_padding(data, n);
}

proof fn lemma_word_sum_zero_padding(data: Seq<u8>, n: nat)
    ensures
        word_sum(data + Seq::new(n, |i: int| 0u8)) == word_sum(data),
    decreases data.len() + n,
{
    let z = Seq::new(n, |i: int| 0u8);
    let w = data + z;
    if data.len() >= 4 {
        assert(w.skip(4) =~= data.skip(4) + z);
        lemma_word_sum_zero_padding(data.skip(4), n);
    } else if w.len() > 0 {
        let k: int = if w.len() < 4 {
            w.len() as int
        } else {
            4
        };
        let left = (w.len() - k) as nat;
        assert(w.skip(k) =~= Seq::<u8>::empty() + Seq::new(left, |i: int| 0u8));
        lemma_word_sum_zero_padding(Seq::empty(), left);
        if data.len() > 0 {
            assert(data.skip(data.len() as int) =~= Seq::empty());
        }
    }
}

/// Reduce a 64-bit sum to a 32-bit ones-complement value by end-around carry.
///
/// The result is `sum mod (2^32 - 1)` in the canonical ones-complement form
/// where a non-zero multiple of `2^32 - 1` maps to `0xFFFF_FFFF` rather than
/// `0`.
fn fold32(sum: u64) -> (r: u64)
    ensures
        r == ones_fold(sum as nat),
{
    let mut s: u64 = sum;
    while s > 0xFFFF_FFFF
        invariant
            ones_fold(s as nat) == ones_fold(sum as nat),
        decreases s,
    {
        let ghost before = s;
        s = s % 0x1_0000_0000 + s / 0x1_0000_0000;
        proof {
            lemma_fold_step(s as nat, (before / 0x1_0000_0000) as nat);
        }
    }
    proof {
        ones_fold_absorbs(s as nat, 0);
    }
    s
}

/// Fold end-around carries from the hi/lo accumulators until both are 16-bit.
fn fold_carries(hi: u32, lo: u32) -> (r: (u32, u32))
    requires
        hi <= 0x7FFF_FFFF,
        lo <= 0x7FFF_FFFF,
    ensures
        r.0 <= 0xFFFF,
        r.1 <= 0xFFFF,
        r.0 * 0x1_0000 + r.1 == ones_fold((hi * 0x1_0000 + lo) as nat),
{
    let ghost total = (hi * 0x1_0000 + lo) as nat;
    let mut hi: u32 = hi;
    let mut lo: u32 = lo;
    loop
        invariant
            hi <= 0x7FFF_FFFF,
            lo <= 0x7FFF_FFFF,
            ones_fold((hi * 0x1_0000 + lo) as nat) == ones_fold(total),
        ensures
            hi <= 0xFFFF,
            lo <= 0xFFFF,
        decreases hi + lo,
    {
        let hicarry: u32 = hi / 0x1_0000;
        let locarry: u32 = lo / 0x1_0000;
        if hicarry == 0 && locarry == 0 {
            break;
        }
        hi = hi % 0x1_0000 + locarry;
        lo = lo % 0x1_0000 + hicarry;
        proof {
            lemma_fold_step((hi * 0x1_0000 + lo) as nat, hicarry as nat);
        }
    }
    proof {
        ones_fold_absorbs((hi * 0x1_0000 + lo) as nat, 0);
    }
    (hi, lo)
}

/// Ones-complement addition of two 32-bit values.
pub fn ones_complement_add(a: u32, b: u32) -> (r: u32)
    ensures
        r == ones_fold((a + b) as nat),
{
    let hi: u32 = a / 0x1_0000 + b / 0x1_0000;
    let lo: u32 = a % 0x1_0000 + b % 0x1_0000;
    let (h, l) = fold_carries(hi, lo);
    h * 0x1_0000 + l
}

/// The four bytes at `i` as a big-endian word.
fn word_at(data: &[u8], i: usize) -> (r: u32)
    requires
        i + 4 <= data@.len(),
    ensures
        r == be_word(data@[i as int], data@[i + 1], data@[i + 2], data@[i + 3]),
{
    data[i] as u32 * 0x100_0000 + data[i + 1] as u32 * 0x1_0000 + data[i + 2] as u32 * 0x100
        + data[i + 3] as u32
}

/// The folded sum of `sum` and the whole words of `data` from `start` on.
fn sum_words(data: &[u8], start: usize, sum: u64) -> (r: u64)
    requires
        start <= data@.len(),
        sum <= 0xFFFF_FFFF,
    ensures
        ({
            let rest = data@.skip(start as int);
            r == ones_fold((sum + word_sum(rest.take(rest.len() - rest.len() % 4))) as nat)
        }),
{
    let ghost rest = data@.skip(start as int);
    let mut acc: u64 = sum;
    let mut i: usize = start;
    let n: usize = data.len();
    proof {
        assert(rest.take(0) =~= Seq::empty());
    }
    while n - i >= 4
        invariant
            start <= i <= n,
            n == data@.len(),
            rest == data@.skip(start as int),
            (i - start) % 4 == 0,
            acc <= 0x7FFF_FFFF_FFFF_FFFF,
            ones_fold(acc as nat) == ones_fold((sum + word_sum(rest.take(i - start))) as nat),
        decreases n - i,
    {
        let ghost before = acc;
        let w: u32 = word_at(data, i);
        acc = acc + w as u64;
        proof {
            let done = rest.take(i - start);
            let one = rest.subrange(i - start, i - start + 4);
            assert(rest.take(i + 4 - start) =~= done + one);
            word_sum_concat(done, one);
            lemma_word_sum_one(one);
            ones_fold_absorbs(before as nat, w as nat);
            ones_fold_absorbs((sum + word_sum(done)) as nat, w as nat);
        }
        if acc > 0x7FFF_FFFF_FFFF_FFFF {
            proof {
                ones_fold_absorbs(acc as nat, 0);
            }
            acc = fold32(acc);
        }
        i += 4;
    }
    assert(i - start == rest.len() - rest.len() % 4);
    fold32(acc)
}

/// Incremental FITS checksum over a byte stream.
///
/// Feed bytes in any chunking with [`update`](Self::update); the result of
/// [`finish`](Self::finish) is identical to [`checksum`] over the concatenated
/// input. Partial 32-bit words at chunk boundaries are carried across calls.
#[derive(Debug)]
pub struct Checksum {
    /// Running sum, kept below 2^32 between chunks by [`fold32`].
    sum: u64,
    /// Bytes of an incomplete trailing word from the previous `update`.
    pending: [u8; 4],
    npending: usize,
}

impl Checksum {
    #[verifier::type_invariant]
    spec fn in_range(self) -> bool {
        self.npending < 4 && self.sum <= 0xFFFF_FFFF
    }

    /// Whether feeding exactly `data` leads to this state: the whole words are
    /// in the sum, the bytes after them are pending.
    pub closed spec fn absorbed(self, data: Seq<u8>) -> bool {
        let whole = data.len() - data.len() % 4;
        &&& self.npending == data.len() % 4
        &&& self.sum == ones_fold(word_sum(data.take(whole)))
        &&& self.pending@.take(self.npending as int) == data.skip(whole)
    }

    proof fn lemma_absorbed(self, whole: Seq<u8>, tail: Seq<u8>)
        requires
            whole.len() % 4 == 0,
            tail.len() < 4,
            self.npending == tail.len(),
            self.sum == ones_fold(word_sum(whole)),
            self.pending@.take(tail.len() as int) == tail,
        ensures
            self.absorbed(whole + tail),
    {
        let data = whole + tail;
        assert(data.take(whole.len() as int) =~= whole);
        assert(data.skip(whole.len() as int) =~= tail);
    }

    pub fn new() -> (r: Self)
        ensures
            r.absorbed(Seq::empty()),
    {
        let r = Checksum { sum: 0, pending: [0u8; 4], npending: 0 };
        proof {
            let e = Seq::<u8>::empty();
            assert(r.pending@.take(0) =~= e);
            r.lemma_absorbed(e, e);
            assert(e + e =~= e);
        }
        r
    }

    proof fn lemma_update(before: Self, now: Self, data: Seq<u8>, words: Seq<u8>, tail: Seq<u8>)
        requires
            before.npending < 4,
            before.pending@.take(before.npending as int) + data == words + tail,
            words.len() % 4 == 0,
            tail.len() < 4,
            now.npending == tail.len(),
            now.pending@.take(tail.len() as int) == tail,
            now.sum == ones_fold((before.sum + word_sum(words)) as nat),
        ensures
            forall|fed: Seq<u8>| #[trigger] before.absorbed(fed) ==> now.absorbed(fed + data),
    {
        assert forall|fed: Seq<u8>| #[trigger] before.absorbed(fed) implies now.absorbed(
            fed + data,
        ) by {
            let whole = fed.take(fed.len() - fed.len() % 4);
            let pend = before.pending@.take(before.npending as int);
            word_sum_concat(whole, words);
            ones_fold_absorbs(word_sum(whole), word_sum(words));
            now.lemma_absorbed(whole + words, tail);
            assert(fed =~= whole + pend);
            assert(fed + data =~= whole + (pend + data));
            assert(fed + data =~= (whole + words) + tail);
        }
    }

    /// Add `data` to the running sum.
    #[verifier::rlimit(40)]
    pub fn update(&mut self, data: &[u8])
        ensures
            forall|fed: Seq<u8>| #[trigger]
                old(self).absorbed(fed) ==> final(self).absorbed(fed + data@),
    {
        proof {
            use_type_invariant(&*self);
        }
        let ghost before = *self;
        let ghost joined = self.pending@.take(self.npending as int) + data@;
        let mut sum: u64 = self.sum;
        let mut pending: [u8; 4] = self.pending;
        let mut npending: usize = self.npending;
        let mut i: usize = 0;
        let ghost np0 = npending;
        if npending > 0 {
            while npending < 4 && i < data.len()
                invariant
                    i <= data@.len(),
                    npending <= 4,
                    npending == np0 + i,
                    joined == before.pending@.take(np0 as int) + data@,
                    joined.len() == np0 + data@.len(),
                    pending@.take(npending as int) == joined.take(npending as int),
                decreases data@.len() - i,
            {
                pending[npending] = data[i];
                npending += 1;
                i += 1;
                assert(pending@.take(npending as int) =~= joined.take(npending as int));
            }
            if npending < 4 {
                *self = Checksum { sum, pending, npending };
                proof {
                    assert(joined.take(npending as int) =~= joined);
                    assert(joined =~= Seq::empty() + joined);
                    ones_fold_absorbs(before.sum as nat, 0);
                    Self::lemma_update(before, *self, data@, Seq::empty(), joined);
                }
                return ;
            }
            sum = fold32(sum + word_at(pending.as_slice(), 0) as u64);
            npending = 0;
        }
        let ghost head = joined.take(np0 + i);
        proof {
            if np0 > 0 {
                assert(head =~= pending@);
                lemma_word_sum_one(head);
            } else {
                assert(head =~= Seq::empty());
                ones_fold_absorbs(sum as nat, 0);
            }
            assert(sum == ones_fold((before.sum + word_sum(head)) as nat));
        }
        let tail: usize = (data.len() - i) % 4;
        let from: usize = data.len() - tail;
        let total: u64 = sum_words(data, i, sum);
        while npending < tail
            invariant
                npending <= tail < 4,
                from + tail == data@.len(),
                data@.len() <= usize::MAX,
                forall|j: int| 0 <= j < npending ==> pending@[j] == data@[from + j],
            decreases tail - npending,
        {
            pending[npending] = data[from + npending];
            npending += 1;
        }
        *self = Checksum { sum: total, pending, npending };
        proof {
            let rest = data@.skip(i as int);
            let body = rest.take(rest.len() - rest.len() % 4);
            let end = data@.skip(from as int);
            assert(pending@.take(npending as int) =~= end);
            assert(joined =~= (head + body) + end);
            word_sum_concat(head, body);
            ones_fold_absorbs((before.sum + word_sum(head)) as nat, word_sum(body));
            Self::lemma_update(before, *self, data@, head + body, end);
        }
    }

    /// Finish the sum, zero-padding any trailing partial word.
    pub fn finish(&self) -> (r: u32)
        ensures
            forall|fed: Seq<u8>| #[trigger] self.absorbed(fed) ==> r == checksum_of(fed),
    {
        proof {
            use_type_invariant(self);
        }
        let mut sum: u64 = self.sum;
        let mut word: [u8; 4] = [0u8; 4];
        let mut i: usize = 0;
        while i < self.npending
            invariant
                i <= self.npending < 4,
                forall|j: int| 0 <= j < i ==> word@[j] == self.pending@[j],
                forall|j: int| i <= j < 4 ==> word@[j] == 0,
            decreases self.npending - i,
        {
            word[i] = self.pending[i];
            i += 1;
        }
        if self.npending > 0 {
            sum = fold32(sum + word_at(word.as_slice(), 0) as u64);
        }
        proof {
            assert forall|fed: Seq<u8>| #[trigger] self.absorbed(fed) implies sum == checksum_of(
                fed,
            ) by {
                let whole = fed.take(fed.len() - fed.len() % 4);
                let tail = fed.skip(fed.len() - fed.len() % 4);
                word_sum_concat(whole, tail);
                assert(fed =~= whole + tail);
                ones_fold_absorbs(word_sum(whole), word_sum(tail));
                ones_fold_absorbs(word_sum(fed), 0);
                if tail.len() > 0 {
                    assert(tail.skip(tail.len() as int) =~= Seq::empty());
                    reveal_with_fuel(word_sum, 2);
                    assert forall|j: int| 0 <= j < 4 implies word@[j] == byte_or_zero(tail, j) by {
                        assert(self.pending@.take(self.npending as int) == tail);
                        if j < tail.len() {
                            assert(tail[j] == self.pending@.take(self.npending as int)[j]);
                        }
                    }
                }
            }
        }
        sum as u32
    }
}

impl Clone for Checksum {
    fn clone(&self) -> (r: Self)
        ensures
            r == *self,
    {
        proof {
            use_type_invariant(self);
        }
        Checksum { sum: self.sum, pending: self.pending, npending: self.npending }
    }
}

impl Default for Checksum {
    fn default() -> (r: Self)
        ensures
            r.absorbed(Seq::empty()),
    {
        Checksum::new()
    }
}

/// Compute the ones-complement checksum of a byte buffer.
///
/// Treats the data as a sequence of 32-bit big-endian words summed with
/// end-around carry. A trailing partial word is zero-padded on the right, which
/// is exactly what the FITS block padding would contribute.
pub fn checksum(data: &[u8]) -> (r: u32)
    ensures
        r == checksum_of(data@),
{
    let mut acc = Checksum::new();
    acc.update(data);
    assert(Seq::<u8>::empty() + data@ =~= data@);
    acc.finish()
}

/// Accumulate a checksum: ones-complement add `new_data` checksum into `existing`.
pub fn checksum_accumulate(existing: u32, new_data: &[u8]) -> (r: u32)
    ensures
        r == ones_fold((existing + checksum_of(new_data@)) as nat),
{
    let new_sum: u32 = checksum(new_data);
    ones_complement_add(existing, new_sum)
}

/// Compute DATASUM for a data byte buffer (should be block-padded).
pub fn datasum(data: &[u8]) -> (r: u32)
    ensures
        r == checksum_of(data@),
{
    checksum(data)
}

/// Verify the CHECKSUM of an HDU given its serialized header and data bytes.
///
/// Returns true if the ones-complement sum of all bytes is all ones (or zero,
/// when every byte is zero).
pub fn verify_hdu(header_bytes: &[u8], data_bytes: &[u8]) -> (r: bool)
    ensures
        r == ({
            let sum = ones_fold((checksum_of(header_bytes@) + checksum_of(data_bytes@)) as nat);
            sum == ALL_ONES || sum == 0
        }),
{
    let sum: u32 = checksum_accumulate(checksum(header_bytes), data_bytes);
    sum == ALL_ONES || sum == 0
}

/// Punctuation between the digits and letters of ASCII.
pub open spec fn excluded(c: int) -> bool {
    0x3a <= c <= 0x40 || 0x5b <= c <= 0x60
}

/// The least number of steps by which `a` goes up and `b` goes down until
/// neither is punctuation.
pub open spec fn least_shift(a: int, b: int) -> int
    decreases 0x80 - a,
{
    if a < 0x80 && (excluded(a) || excluded(b)) {
        1 + least_shift(a + 1, b - 1)
    } else {
        0
    }
}

/// Byte `i` of a 32-bit value, most significant first.
pub open spec fn value_byte(value: u32, i: int) -> int {
    if i == 0 {
        value as int / 0x100_0000
    } else if i == 1 {
        value as int / 0x1_0000 % 0x100
    } else if i == 2 {
        value as int / 0x100 % 0x100
    } else {
        value as int % 0x100
    }
}

/// The four characters of one byte: its quarter (the remainder goes to the
/// first), offset to the digits, each pair moved apart until it is alphanumeric.
#[verifier::opaque]
pub open spec fn encoded_char(byte: int, j: int) -> int {
    let q = byte / 4 + 0x30;
    let r = byte % 4;
    if j == 0 {
        q + r + least_shift(q + r, q)
    } else if j == 1 {
        q - least_shift(q + r, q)
    } else if j == 2 {
        q + least_shift(q, q)
    } else {
        q - least_shift(q, q)
    }
}

/// The 16 ASCII codes that stand for a value: character `j` of byte `i` is at
/// `4 * j + i`, and the whole is rotated right by one.
pub open spec fn encoded(value: u32) -> Seq<u8> {
    Seq::new(
        16,
        |k: int| encoded_char(value_byte(value, rotated(k) % 4), rotated(k) / 4) as u8,
    )
}

/// The position before `k` in a cycle of 16.
pub open spec fn rotated(k: int) -> int {
    if k == 0 {
        15
    } else {
        k - 1
    }
}

/// The value of 16 ASCII codes: the rotation undone, each code taken relative
/// to `'0'`, summed as four words.
pub open spec fn decoded(codes: Seq<u8>) -> u32 {
    checksum_of(relative_codes(codes))
}

/// 16 codes with the rotation undone, each taken relative to `'0'`.
pub open spec fn relative_codes(codes: Seq<u8>) -> Seq<u8> {
    Seq::new(
        16,
        |i: int|
            codes[if i == 15 {
                0
            } else {
                i + 1
            }].wrapping_sub(0x30),
    )
}

/// The value or its ones complement.
pub open spec fn complement_if(value: u32, complement: bool) -> u32 {
    if complement {
        (ALL_ONES - value) as u32
    } else {
        value
    }
}

/// An ASCII digit or letter.
pub open spec fn alphanumeric(c: int) -> bool {
    0x30 <= c <= 0x39 || 0x41 <= c <= 0x5a || 0x61 <= c <= 0x7a
}

proof fn lemma_least_shift(a: int, b: int)
    requires
        0x30 <= b <= 0x6f,
        b <= a <= b + 3,
    ensures
        0 <= least_shift(a, b) <= 7,
        alphanumeric(a + least_shift(a, b)),
        alphanumeric(b - least_shift(a, b)),
{
    reveal_with_fuel(least_shift, 9);
}

proof fn lemma_least_shift_nonnegative(a: int, b: int)
    ensures
        least_shift(a, b) >= 0,
    decreases 0x80 - a,
{
    if a < 0x80 && (excluded(a) || excluded(b)) {
        lemma_least_shift_nonnegative(a + 1, b - 1);
    }
}

proof fn lemma_encoded_char(byte: int)
    requires
        0 <= byte < 0x100,
    ensures
        forall|j: int| 0 <= j < 4 ==> alphanumeric(#[trigger] encoded_char(byte, j)),
        encoded_char(byte, 0) + encoded_char(byte, 1) + encoded_char(byte, 2) + encoded_char(byte, 3)
            == byte + 4 * 0x30,
{
    reveal(encoded_char);
    let q = byte / 4 + 0x30;
    lemma_least_shift(q + byte % 4, q);
    lemma_least_shift(q, q);
}

/// Move a pair of characters apart until neither is punctuation.
fn settle(first: u8, second: u8) -> (r: (u8, u8))
    requires
        0x30 <= second <= 0x6f,
        second <= first <= second + 3,
    ensures
        r.0 == first + least_shift(first as int, second as int),
        r.1 == second - least_shift(first as int, second as int),
{
    let mut a: u8 = first;
    let mut b: u8 = second;
    proof {
        lemma_least_shift(first as int, second as int);
    }
    while (a >= 0x3a && a <= 0x40) || (a >= 0x5b && a <= 0x60) || (b >= 0x3a && b <= 0x40) || (b
        >= 0x5b && b <= 0x60)
        invariant
            a + least_shift(a as int, b as int) == first + least_shift(first as int, second as int),
            b - least_shift(a as int, b as int) == second - least_shift(
                first as int,
                second as int,
            ),
            0 <= least_shift(first as int, second as int) <= 7,
            0 <= least_shift(a as int, b as int) <= 7,
            first <= 0x72,
            second >= 0x30,
        decreases least_shift(a as int, b as int),
    {
        a = a + 1;
        b = b - 1;
        proof {
            lemma_least_shift_nonnegative(a as int, b as int);
        }
    }
    (a, b)
}

/// Encode a 32-bit checksum as a 16-character ASCII string.
///
/// If `complement` is true, encodes `!sum` (used for CHECKSUM keyword).
/// If false, encodes `sum` directly.
pub fn encode_checksum(sum: u32, complement: bool) -> (r: String)
    ensures
        r@ == text::chars_of(encoded(complement_if(sum, complement))),
{
    let value: u32 = if complement {
        ALL_ONES - sum
    } else {
        sum
    };
    let mut result: [u8; 16] = [0u8; 16];
    let mut i: usize = 0;
    while i < 4
        invariant
            i <= 4,
            value == complement_if(sum, complement),
            forall|k: int|
                0 <= k < 16 && rotated(k) % 4 < i ==> result@[k] == encoded(value)[k],
        decreases 4 - i,
    {
        let byte: u32 = if i == 0 {
            value / 0x100_0000
        } else if i == 1 {
            value / 0x1_0000 % 0x100
        } else if i == 2 {
            value / 0x100 % 0x100
        } else {
            value % 0x100
        };
        assert(byte == value_byte(value, i as int));
        proof {
            lemma_encoded_char(byte as int);
        }
        let quotient: u8 = (byte / 4 + 0x30) as u8;
        let remainder: u8 = (byte % 4) as u8;
        let (c0, c1) = settle(quotient + remainder, quotient);
        let (c2, c3) = settle(quotient, quotient);
        proof {
            reveal(encoded_char);
        }
        result[i + 1] = c0;
        result[i + 5] = c1;
        result[i + 9] = c2;
        result[(i + 13) % 16] = c3;
        assert forall|k: int|
            0 <= k < 16 && rotated(k) % 4 < i + 1 implies result@[k] == encoded(value)[k] by {
            let p = rotated(k);
            if p % 4 == i {
                assert(p == i || p == i + 4 || p == i + 8 || p == i + 12);
            }
        }
        i += 1;
    }
    assert(result@ =~= encoded(value));
    text::string_of(result.as_slice())
}

/// Decode a 16-character ASCII checksum string back to a 32-bit value.
///
/// If `complement` is true, returns the complement of the decoded value.
pub fn decode_checksum(ascii: &str, complement: bool) -> (r: u32)
    requires
        text::bytes_of(ascii@).len() >= 16,
    ensures
        r == complement_if(decoded(text::bytes_of(ascii@)), complement),
{
    let bytes = ascii.as_bytes();
    let mut cbuf: [u8; 16] = [0u8; 16];
    let mut i: usize = 0;
    while i < 16
        invariant
            i <= 16,
            bytes@.len() >= 16,
            forall|k: int|
                0 <= k < i ==> #[trigger] cbuf@[k] == bytes@[if k == 15 { 0 } else { k + 1 }].wrapping_sub(0x30),
        decreases 16 - i,
    {
        cbuf[i] = bytes[(i + 1) % 16].wrapping_sub(0x30);
        i += 1;
    }
    let sum: u32 = checksum(cbuf.as_slice());
    assert(cbuf@ =~= relative_codes(bytes@));
    if complement {
        ALL_ONES - sum
    } else {
        sum
    }
}

/// Every encoded character is an ASCII digit or letter.
pub proof fn encoded_is_alphanumeric(value: u32)
    ensures
        encoded(value).len() == 16,
        forall|k: int| 0 <= k < 16 ==> alphanumeric(#[trigger] encoded(value)[k] as int),
        text::all_ascii(encoded(value)),
{
    assert forall|k: int| 0 <= k < 16 implies alphanumeric(#[trigger] encoded(value)[k] as int) by {
        lemma_encoded_char(value_byte(value, rotated(k) % 4));
    }
}

/// The sum of 16 bytes as four words.
proof fn lemma_word_sum_16(s: Seq<u8>)
    requires
        s.len() == 16,
    ensures
        word_sum(s) == be_word(s[0], s[1], s[2], s[3]) + be_word(s[4], s[5], s[6], s[7]) + be_word(
            s[8],
            s[9],
            s[10],
            s[11],
        ) + be_word(s[12], s[13], s[14], s[15]),
{
    let a = s.subrange(0, 4);
    let b = s.subrange(4, 8);
    let c = s.subrange(8, 12);
    let d = s.subrange(12, 16);
    assert(s =~= a + b + c + d);
    word_sum_concat(a + b + c, d);
    word_sum_concat(a + b, c);
    word_sum_concat(a, b);
    lemma_word_sum_one(a);
    lemma_word_sum_one(b);
    lemma_word_sum_one(c);
    lemma_word_sum_one(d);
}

proof fn lemma_value_bytes(value: u32)
    ensures
        value == value_byte(value, 0) * 0x100_0000 + value_byte(value, 1) * 0x1_0000 + value_byte(
            value,
            2,
        ) * 0x100 + value_byte(value, 3),
{
}

/// Code `m` of an encoded value with the rotation undone, relative to `'0'`.
spec fn relative_code(value: u32, m: int) -> int {
    encoded_char(value_byte(value, m % 4), m / 4) - 0x30
}

proof fn lemma_relative_codes(value: u32)
    ensures
        forall|m: int| 0 <= m < 16 ==> 0 <= #[trigger] relative_code(value, m) <= 0x4a,
        forall|i: int|
            0 <= i < 4 ==> #[trigger] value_byte(value, i) == relative_code(value, i)
                + relative_code(value, i + 4) + relative_code(value, i + 8) + relative_code(
                value,
                i + 12,
            ),
{
    assert forall|m: int| 0 <= m < 16 implies 0 <= #[trigger] relative_code(value, m) <= 0x4a by {
        lemma_encoded_char(value_byte(value, m % 4));
    }
    assert forall|i: int| 0 <= i < 4 implies #[trigger] value_byte(value, i) == relative_code(
        value,
        i,
    ) + relative_code(value, i + 4) + relative_code(value, i + 8) + relative_code(
        value,
        i + 12,
    ) by {
        lemma_encoded_char(value_byte(value, i));
    }
}

/// The words of an encoded value, each code relative to `'0'`, sum to the value.
#[verifier::spinoff_prover]
#[verifier::rlimit(40)]
proof fn lemma_encoded_sum(value: u32)
    ensures
        word_sum(relative_codes(encoded(value))) == value,
{
    let s = relative_codes(encoded(value));
    lemma_word_sum_16(s);
    lemma_relative_codes(value);
    assert forall|m: int| 0 <= m < 16 implies #[trigger] s[m] == relative_code(value, m) by {
        let k = if m == 15 {
            0
        } else {
            m + 1
        };
        assert(rotated(k) == m);
        assert(0 <= relative_code(value, m) <= 0x4a);
    }
    lemma_value_bytes(value);
    assert(value_byte(value, 0) == s[0] + s[4] + s[8] + s[12]);
    assert(value_byte(value, 1) == s[1] + s[5] + s[9] + s[13]);
    assert(value_byte(value, 2) == s[2] + s[6] + s[10] + s[14]);
    assert(value_byte(value, 3) == s[3] + s[7] + s[11] + s[15]);
}

/// Decoding what `encode_checksum` made gives back the value, with the
/// complement on both sides or on neither.
pub proof fn decode_inverts_encode(value: u32, complement: bool)
    ensures
        ({
            let chars = text::chars_of(encoded(complement_if(value, complement)));
            complement_if(decoded(text::bytes_of(chars)), complement) == value
        }),
{
    let v = complement_if(value, complement);
    encoded_is_alphanumeric(v);
    text::lemma_chars_bytes(encoded(v));
    lemma_encoded_sum(v);
    ones_fold_absorbs(v as nat, 0);
}

/// A header with DATASUM set and CHECKSUM set to zeros.
pub open spec fn zeroed(h: Seq<KeywordView>, dsum: u32) -> Seq<KeywordView> {
    header::with_set(
        header::with_set(
            h,
            "DATASUM"@,
            ValueView::Text(text::decimal(dsum as int)),
            Some("data unit checksum"@),
        ),
        "CHECKSUM"@,
        ValueView::Text("0000000000000000"@),
        Some("HDU checksum"@),
    )
}

/// The value that CHECKSUM encodes: the complement of the sum of the header with
/// CHECKSUM set to zeros and of the data.
pub open spec fn stamp_value(h: Seq<KeywordView>, dsum: u32) -> u32 {
    complement_if(
        ones_fold((checksum_of(header::header_bytes(zeroed(h, dsum))) + dsum) as nat),
        true,
    )
}

/// A header with DATASUM and CHECKSUM set.
pub open spec fn stamped(h: Seq<KeywordView>, dsum: u32) -> Seq<KeywordView> {
    header::with_set(
        zeroed(h, dsum),
        "CHECKSUM"@,
        ValueView::Text(text::chars_of(encoded(stamp_value(h, dsum)))),
        Some("HDU checksum"@),
    )
}

/// Compute and insert DATASUM and CHECKSUM keywords into a header.
///
/// `data_bytes` should be the block-padded data for this HDU.
/// Returns the serialized header bytes (for use by the caller).
pub fn stamp_hdu(header: &mut Header, data_bytes: &[u8]) -> (r: Result<Vec<u8>>)
    ensures
        final(header)@ == stamped(old(header)@, checksum_of(data_bytes@)),
        r is Ok,
        r->Ok_0@ == header::header_bytes(final(header)@),
{
    let dsum: u32 = datasum(data_bytes);
    stamp_hdu_with_datasum(header, dsum)
}

/// Insert DATASUM and CHECKSUM keywords into a header given a precomputed
/// data-unit checksum (see [`datasum`] / [`Checksum`]).
///
/// Returns the serialized header bytes (for use by the caller).
pub fn stamp_hdu_with_datasum(header: &mut Header, dsum: u32) -> (r: Result<Vec<u8>>)
    ensures
        final(header)@ == stamped(old(header)@, dsum),
        r is Ok,
        r->Ok_0@ == header::header_bytes(final(header)@),
{
    header.set(
        "DATASUM",
        HeaderValue::String(text::decimal_u64(dsum as u64)),
        Some("data unit checksum"),
    );
    // Set CHECKSUM to zeros initially
    header.set(
        "CHECKSUM",
        HeaderValue::String("0000000000000000".to_owned()),
        Some("HDU checksum"),
    );
    let header_bytes: Vec<u8> = header.to_bytes();
    let hsum: u32 = checksum(header_bytes.as_slice());
    let total: u32 = ones_complement_add(hsum, dsum);
    // Encode complement so that re-checksum of HDU yields all-ones
    let code: String = encode_checksum(total, true);
    header.set("CHECKSUM", HeaderValue::String(code), Some("HDU checksum"));
    Ok(header.to_bytes())
}

/// The data sum that a header stores, if it stores one: the DATASUM text as an
/// unsigned 64-bit number, of which the low 32 bits count.
pub open spec fn stored_datasum(h: Seq<KeywordView>) -> Option<int> {
    match header::string_of(h, "DATASUM"@) {
        None => None,
        Some(s) => match text::unsigned_of(s) {
            None => None,
            Some(v) => if v <= u64::MAX {
                Some(v % 0x1_0000_0000)
            } else {
                None
            },
        },
    }
}

/// The sum of the serialized header and of the data.
pub open spec fn hdu_sum(h: Seq<KeywordView>, data: Seq<u8>) -> u32 {
    ones_fold((checksum_of(header::header_bytes(h)) + checksum_of(data)) as nat)
}

/// Whether a header that holds CHECKSUM does not sum to all ones with the data.
pub open spec fn checksum_fails(h: Seq<KeywordView>, data: Seq<u8>) -> bool {
    header::position(h, "CHECKSUM"@) < h.len() && hdu_sum(h, data) != ALL_ONES && hdu_sum(h, data)
        != 0
}

/// Whether a header stores a data sum that is not that of the data.
pub open spec fn datasum_fails(h: Seq<KeywordView>, data: Seq<u8>) -> bool {
    stored_datasum(h) matches Some(v) && v != 0 && v != checksum_of(data)
}

/// Verify CHECKSUM/DATASUM on an HDU that was read from a file.
///
/// Reconstructs the header + data bytes and checks the ones-complement sum.
/// Returns Ok(()) if valid or no checksum keywords present, Err on mismatch.
pub fn verify_from_header(header: &Header, data_bytes: &[u8]) -> (r: Result<()>)
    ensures
        match r {
            Ok(_) => !datasum_fails(header@, data_bytes@) && !checksum_fails(
                header@,
                data_bytes@,
            ),
            Err(e) => if datasum_fails(header@, data_bytes@) {
                e == (Error::ChecksumMismatch {
                    expected: stored_datasum(header@)->0 as u32,
                    actual: checksum_of(data_bytes@),
                })
            } else {
                checksum_fails(header@, data_bytes@) && e == (Error::ChecksumMismatch {
                    expected: ALL_ONES,
                    actual: hdu_sum(header@, data_bytes@),
                })
            },
        },
{
    let computed: u32 = datasum(data_bytes);
    match verify_datasum_value(header, computed) {
        Ok(_) => {},
        Err(e) => return Err(e),
    }
    if header.find("CHECKSUM").is_some() {
        let header_bytes: Vec<u8> = header.to_bytes();
        if !verify_hdu(header_bytes.as_slice(), data_bytes) {
            let sum: u32 = checksum_accumulate(checksum(header_bytes.as_slice()), data_bytes);
            return Err(Error::ChecksumMismatch { expected: ALL_ONES, actual: sum });
        }
    }
    Ok(())
}

/// Verify a precomputed data-unit checksum against the header's DATASUM
/// keyword. Returns Ok(()) if it matches, if DATASUM is absent/unparseable,
/// or if the stored value is 0.
pub fn verify_datasum_value(header: &Header, computed: u32) -> (r: Result<()>)
    ensures
        match (r, stored_datasum(header@)) {
            (Ok(_), None) => true,
            (Ok(_), Some(v)) => v == 0 || v == computed,
            (Err(e), Some(v)) => v != 0 && v != computed && e == (Error::ChecksumMismatch {
                expected: v as u32,
                actual: computed,
            }),
            (Err(_), None) => false,
        },
{
    match header.get_string("DATASUM") {
        Some(s) => {
            let chars: Vec<char> = text::char_vec(s);
            match text::parse_u64(chars.as_slice()) {
                Some(v) => {
                    let stored: u32 = casts::u32_of_u64(v);
                    if stored != 0 && computed != stored {
                        return Err(
                            Error::ChecksumMismatch { expected: stored, actual: computed },
                        );
                    }
                },
                None => {},
            }
        },
        None => {},
    }
    Ok(())
}

/// The 20 bytes of a CHECKSUM card from its value indicator to its closing quote.
spec fn value_field(codes: Seq<u8>) -> Seq<u8> {
    seq![0x3du8, 0x20, 0x27] + codes + seq![0x27u8]
}

proof fn lemma_value_field_sum(codes: Seq<u8>, zeros: Seq<u8>)
    requires
        codes.len() == 16,
        zeros.len() == 16,
        forall|i: int| 0 <= i < 16 ==> codes[i] >= 0x30,
        forall|i: int| 0 <= i < 16 ==> zeros[i] == 0x30,
    ensures
        word_sum(value_field(codes)) == word_sum(value_field(zeros)) + word_sum(
            relative_codes(codes),
        ),
        value_field(codes).len() == 20,
        value_field(zeros).len() == 20,
{
    lemma_value_field_words(codes);
    lemma_value_field_words(zeros);
    let s = relative_codes(codes);
    lemma_word_sum_16(s);
    assert forall|i: int| 0 <= i < 16 implies #[trigger] s[i] == codes[if i == 15 {
        0
    } else {
        i + 1
    }] - 0x30 by {}
}

proof fn lemma_value_field_words(c: Seq<u8>)
    requires
        c.len() == 16,
    ensures
        word_sum(value_field(c)) == be_word(0x3d, 0x20, 0x27, c[0]) + be_word(
            c[1],
            c[2],
            c[3],
            c[4],
        ) + be_word(c[5], c[6], c[7], c[8]) + be_word(c[9], c[10], c[11], c[12]) + be_word(
            c[13],
            c[14],
            c[15],
            0x27,
        ),
{
    let f = value_field(c);
    let a = f.subrange(0, 4);
    let b = f.subrange(4, 20);
    assert(f =~= a + b);
    word_sum_concat(a, b);
    lemma_word_sum_one(a);
    lemma_word_sum_16(b);
}

proof fn lemma_no_quotes(s: Seq<u8>)
    requires
        forall|i: int| 0 <= i < s.len() ==> s[i] != 0x27,
    ensures
        keyword::doubled_quotes(s) == s,
    decreases s.len(),
{
    if s.len() > 0 {
        lemma_no_quotes(s.drop_last());
        assert(s =~= s.drop_last().push(s.last()));
    } else {
        assert(keyword::doubled_quotes(s) =~= s);
    }
}

/// The card of CHECKSUM with a value of 16 characters.
proof fn lemma_checksum_card(k: KeywordView, codes: Seq<u8>) -> (parts: (Seq<u8>, Seq<u8>))
    requires
        text::same_ignoring_case(k.name, "CHECKSUM"@),
        codes.len() == 16,
        forall|i: int| 0 <= i < 16 ==> 0x30 <= #[trigger] codes[i] < 0x80,
        k.value == Some(ValueView::Text(text::chars_of(codes))),
        k.comment == Some("HDU checksum"@),
    ensures
        parts.0 == keyword::fixed(text::bytes_of(k.name), 8),
        parts.1 == card_tail(),
        keyword::cards_of(k) == seq![parts.0 + value_field(codes) + parts.1],
{
    reveal_strlit("CHECKSUM");
    reveal_strlit("END");
    assert(text::ascii_upper(k.name).len() == 8);
    assert(text::ascii_upper("CHECKSUM"@).len() == 8);
    assert(k.name != "END"@);
    text::lemma_chars_bytes(codes);
    lemma_no_quotes(codes);
    let front = keyword::fixed(text::bytes_of(k.name), 8);
    let line = keyword::commented(
        keyword::whole_string(keyword::valued_start(k.name), codes),
        k.comment,
    );
    let card = keyword::card_of(line);
    assert(keyword::cards_of(k) =~= seq![card]);
    assert(line =~= front + value_field(codes) + (seq![0x20u8, 0x2f, 0x20] + text::bytes_of(
        "HDU checksum"@,
    )));
    assert(card =~= front + value_field(codes) + card_tail());
    (front, card_tail())
}

/// What follows the value on a CHECKSUM card.
spec fn card_tail() -> Seq<u8> {
    keyword::fixed(seq![0x20u8, 0x2f, 0x20] + text::bytes_of("HDU checksum"@), 52)
}

/// Changing one keyword of a header changes the sum of its cards by the change of
/// that keyword's cards.
proof fn lemma_cards_changed(a: Seq<KeywordView>, b: Seq<KeywordView>, k: int)
    requires
        a.len() == b.len(),
        0 <= k < a.len(),
        forall|i: int| 0 <= i < a.len() && i != k ==> a[i] == b[i],
        keyword::cards_of(a[k]).len() == keyword::cards_of(b[k]).len(),
    ensures
        header::all_cards(a).len() == header::all_cards(b).len(),
        word_sum(header::all_cards(b)) + word_sum(header::joined(keyword::cards_of(a[k])))
            == word_sum(header::all_cards(a)) + word_sum(
            header::joined(keyword::cards_of(b[k])),
        ),
    decreases a.len(),
{
    let n = a.len() - 1;
    header::lemma_all_cards_len(a.drop_last());
    header::lemma_all_cards_len(b.drop_last());
    header::lemma_cards(a.last());
    header::lemma_cards(b.last());
    header::lemma_joined_len(keyword::cards_of(a.last()));
    header::lemma_joined_len(keyword::cards_of(b.last()));
    word_sum_concat(
        header::all_cards(a.drop_last()),
        header::joined(keyword::cards_of(a.last())),
    );
    word_sum_concat(
        header::all_cards(b.drop_last()),
        header::joined(keyword::cards_of(b.last())),
    );
    if k == n {
        assert(a.drop_last() =~= b.drop_last());
    } else {
        lemma_cards_changed(a.drop_last(), b.drop_last(), k);
    }
}

proof fn lemma_header_sum(h: Seq<KeywordView>)
    ensures
        word_sum(header::header_bytes(h)) == word_sum(header::all_cards(h)) + word_sum(
            header::header_bytes(h).skip(header::all_cards(h).len() as int),
        ),
{
    let all = header::all_cards(h);
    let bytes = header::header_bytes(h);
    header::lemma_all_cards_len(h);
    assert(bytes =~= all + bytes.skip(all.len() as int));
    word_sum_concat(all, bytes.skip(all.len() as int));
}

proof fn lemma_header_tails(a: Seq<KeywordView>, b: Seq<KeywordView>)
    requires
        header::all_cards(a).len() == header::all_cards(b).len(),
    ensures
        header::header_bytes(a).skip(header::all_cards(a).len() as int) == header::header_bytes(
            b,
        ).skip(header::all_cards(b).len() as int),
{
    assert(header::header_bytes(a).skip(header::all_cards(a).len() as int)
        =~= header::header_bytes(b).skip(header::all_cards(b).len() as int));
}

/// The sum of a stamped header is that of the header with CHECKSUM set to zeros and
/// of the value that CHECKSUM encodes.
proof fn lemma_stamped_sum(h: Seq<KeywordView>, dsum: u32)
    ensures
        word_sum(header::header_bytes(stamped(h, dsum))) == word_sum(
            header::header_bytes(zeroed(h, dsum)),
        ) + stamp_value(h, dsum),
{
    let a = zeroed(h, dsum);
    let b = stamped(h, dsum);
    let v = stamp_value(h, dsum);
    let name = "CHECKSUM"@;
    reveal_strlit("CHECKSUM");
    reveal_strlit("0000000000000000");
    assert(vstd::utf8::is_ascii_chars(name));
    header::lookup_after_set(
        header::with_set(
            h,
            "DATASUM"@,
            ValueView::Text(text::decimal(dsum as int)),
            Some("data unit checksum"@),
        ),
        name,
        ValueView::Text("0000000000000000"@),
        Some("HDU checksum"@),
    );
    let k = header::position(a, name);
    header::lemma_position(a, name);
    assert(k < a.len());
    lemma_zeroed_keyword(h, dsum);
    let zeros = Seq::new(16, |i: int| 0x30u8);
    let codes = encoded(v);
    assert(text::chars_of(zeros) =~= "0000000000000000"@);
    encoded_is_alphanumeric(v);
    assert forall|i: int| 0 <= i < 16 implies 0x30 <= #[trigger] codes[i] < 0x80 by {
        assert(alphanumeric(codes[i] as int));
    }
    let (pa, ta) = lemma_checksum_card(a[k], zeros);
    let (pb, tb) = lemma_checksum_card(b[k], codes);
    lemma_value_field_sum(codes, zeros);
    lemma_card_sum(pa, value_field(zeros), ta);
    lemma_card_sum(pb, value_field(codes), tb);
    lemma_encoded_sum(v);
    lemma_cards_changed(a, b, k);
    lemma_joined_one(pa + value_field(zeros) + ta);
    lemma_joined_one(pb + value_field(codes) + tb);
    lemma_header_sum(a);
    lemma_header_sum(b);
    lemma_header_tails(a, b);
}

proof fn lemma_joined_one(card: Seq<u8>)
    ensures
        header::joined(seq![card]) == card,
{
    assert(seq![card].drop_last() =~= Seq::empty());
    assert(header::joined(seq![card]) == header::joined(Seq::empty()) + card);
    assert(header::joined(seq![card]) =~= card);
}

proof fn lemma_card_sum(p: Seq<u8>, m: Seq<u8>, t: Seq<u8>)
    requires
        p.len() == 8,
        m.len() == 20,
    ensures
        word_sum(p + m + t) == word_sum(p) + word_sum(m) + word_sum(t),
{
    word_sum_concat(p + m, t);
    word_sum_concat(p, m);
}

/// Where CHECKSUM is after it was set to zeros, and what is there.
proof fn lemma_zeroed_keyword(h: Seq<KeywordView>, dsum: u32)
    ensures
        ({
            let a = zeroed(h, dsum);
            let k = header::position(a, "CHECKSUM"@);
            &&& k < a.len()
            &&& a[k].value == Some(ValueView::Text("0000000000000000"@))
            &&& a[k].comment == Some("HDU checksum"@)
            &&& text::same_ignoring_case(a[k].name, "CHECKSUM"@)
        }),
{
    reveal_strlit("CHECKSUM");
    let name = "CHECKSUM"@;
    let g = header::with_set(
        h,
        "DATASUM"@,
        ValueView::Text(text::decimal(dsum as int)),
        Some("data unit checksum"@),
    );
    let a = zeroed(h, dsum);
    let k = header::position(g, name);
    header::lemma_position(g, name);
    header::lemma_upper_twice(name);
    header::lemma_position_is(a, name, k);
}

/// A stamped header and its data verify: their sum is all ones.
pub proof fn stamped_hdu_verifies(h: Seq<KeywordView>, data: Seq<u8>)
    ensures
        ones_fold(
            (checksum_of(header::header_bytes(stamped(h, checksum_of(data)))) + checksum_of(data))
                as nat,
        ) == ALL_ONES,
{
    let dsum = checksum_of(data);
    let before = word_sum(header::header_bytes(zeroed(h, dsum)));
    let v = stamp_value(h, dsum);
    lemma_stamped_sum(h, dsum);
    ones_fold_absorbs(before, dsum as nat);
    ones_fold_absorbs((before + v) as nat, dsum as nat);
    ones_fold_absorbs((before + dsum) as nat, v as nat);
    assert(before + v + dsum == before + dsum + v);
    ones_fold_absorbs(ALL_ONES as nat, 0);
}

/// A stamped header stores the data sum it was stamped with.
pub proof fn stamped_datasum(h: Seq<KeywordView>, dsum: u32)
    ensures
        stored_datasum(stamped(h, dsum)) == Some(dsum as int),
{
    reveal_strlit("CHECKSUM");
    reveal_strlit("DATASUM");
    let name = "DATASUM"@;
    let value = ValueView::Text(text::decimal(dsum as int));
    let g = header::with_set(h, name, value, Some("data unit checksum"@));
    header::lookup_after_set(h, name, value, Some("data unit checksum"@));
    assert(text::ascii_upper(name).len() == 7);
    assert(text::ascii_upper("CHECKSUM"@).len() == 8);
    header::lookup_of_other_after_set(
        g,
        "CHECKSUM"@,
        ValueView::Text("0000000000000000"@),
        Some("HDU checksum"@),
        name,
    );
    header::lookup_of_other_after_set(
        zeroed(h, dsum),
        "CHECKSUM"@,
        ValueView::Text(text::chars_of(encoded(stamp_value(h, dsum)))),
        Some("HDU checksum"@),
        name,
    );
    text::decimal_round_trip(dsum as int);
    text::lemma_decimal_nat(dsum as nat);
    assert(text::is_digit(text::decimal(dsum as int)[0]));
}

/// A header that was stamped for its data passes both tests of [`verify_from_header`].
pub proof fn stamped_header_passes(h: Seq<KeywordView>, data: Seq<u8>)
    ensures
        !datasum_fails(stamped(h, checksum_of(data)), data),
        !checksum_fails(stamped(h, checksum_of(data)), data),
{
    stamped_hdu_verifies(h, data);
    stamped_datasum(h, checksum_of(data));
}

/// A header without checksum keywords passes both tests of [`verify_from_header`],
/// whatever the data.
pub proof fn unstamped_header_passes(h: Seq<KeywordView>, data: Seq<u8>)
    requires
        header::position(h, "DATASUM"@) == h.len(),
        header::position(h, "CHECKSUM"@) == h.len(),
    ensures
        !datasum_fails(h, data),
        !checksum_fails(h, data),
{
}

/// The weight of a byte in its word.
spec fn byte_weight(i: int) -> int {
    if i % 4 == 0 {
        0x100_0000
    } else if i % 4 == 1 {
        0x1_0000
    } else if i % 4 == 2 {
        0x100
    } else {
        1
    }
}

proof fn lemma_changed_sum(data: Seq<u8>, i: int, b: u8)
    requires
        0 <= i < data.len(),
    ensures
        word_sum(data.update(i, b)) == word_sum(data) + (b - data[i]) * byte_weight(i),
    decreases data.len(),
{
    let other = data.update(i, b);
    let n = if data.len() < 4 {
        data.len() as int
    } else {
        4
    };
    if i < 4 {
        assert(other.skip(n) =~= data.skip(n));
        assert(i % 4 == i);
        assert(forall|k: int| 0 <= k < 4 && k != i ==> byte_or_zero(other, k) == byte_or_zero(data, k));
        assert(byte_or_zero(other, i) == b && byte_or_zero(data, i) == data[i]);
        if i == 0 {
        } else if i == 1 {
        } else if i == 2 {
        } else {
            assert(i == 3);
        }
    } else {
        assert(other.skip(4) =~= data.skip(4).update(i - 4, b));
        lemma_changed_sum(data.skip(4), i - 4, b);
        assert(byte_weight(i - 4) == byte_weight(i));
        assert(forall|k: int| 0 <= k < 4 ==> byte_or_zero(other, k) == byte_or_zero(data, k));
    }
}

/// Sums that fold to the same number differ by a multiple of the modulus.
proof fn lemma_same_fold(x: nat, y: nat) -> (q: int)
    requires
        ones_fold(x) == ones_fold(y),
    ensures
        x - y == q * 0xFFFF_FFFF,
{
    let m = 0xFFFF_FFFFint;
    if x == 0 || y == 0 {
        ones_fold_absorbs(x, 0);
        ones_fold_absorbs(y, 0);
        0
    } else {
        vstd::arithmetic::div_mod::lemma_fundamental_div_mod(x - 1, m);
        vstd::arithmetic::div_mod::lemma_fundamental_div_mod(y - 1, m);
        (x - 1) / m - (y - 1) / m
    }
}

/// A single byte that is changed behind the stamp is noticed: the sum of the HDU is no longer
/// all ones, and the stored data sum, unless it is zero, is not that of the data.
pub proof fn changed_byte_is_noticed(h: Seq<KeywordView>, data: Seq<u8>, i: int, b: u8)
    requires
        0 <= i < data.len(),
        b != data[i],
    ensures
        checksum_of(data.update(i, b)) != checksum_of(data),
        hdu_sum(stamped(h, checksum_of(data)), data.update(i, b)) != ALL_ONES,
        hdu_sum(stamped(h, checksum_of(data)), data.update(i, b)) != 0,
        checksum_of(data) != 0 ==> datasum_fails(
            stamped(h, checksum_of(data)),
            data.update(i, b),
        ),
{
    let other = data.update(i, b);
    let d = (b - data[i]) * byte_weight(i);
    lemma_changed_sum(data, i, b);
    assert(d != 0 && -0xFF00_0000 <= d <= 0xFF00_0000);
    if checksum_of(other) == checksum_of(data) {
        let q = lemma_same_fold(word_sum(other), word_sum(data));
        assert(q * 0xFFFF_FFFF == d);
    }
    let x = word_sum(header::header_bytes(stamped(h, checksum_of(data))));
    let y = word_sum(data);
    let z = word_sum(other);
    stamped_hdu_verifies(h, data);
    lemma_folded_sum(x, y);
    lemma_folded_sum(x, z);
    ones_fold_absorbs(ALL_ONES as nat, 0);
    ones_fold_absorbs(x + y, 0);
    ones_fold_absorbs(x + z, 0);
    let p = lemma_same_fold(x + y, ALL_ONES as nat);
    if ones_fold(x + z) == ALL_ONES {
        let q = lemma_same_fold(x + z, ALL_ONES as nat);
        assert((q - p) * 0xFFFF_FFFF == d);
    }
    if ones_fold(x + z) == 0 {
        assert(x + y == -d);
        assert((p + 1) * 0xFFFF_FFFF == -d);
    }
    stamped_datasum(h, checksum_of(data));
}

proof fn lemma_folded_sum(x: nat, y: nat)
    ensures
        ones_fold((ones_fold(x) + ones_fold(y)) as nat) == ones_fold(x + y),
{
    ones_fold_absorbs(x, ones_fold(y) as nat);
    ones_fold_absorbs(y, x);
}

} // verus!
