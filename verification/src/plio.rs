//! PLIO_1 decoding: the pixel-list run-length code of integer masks.
//!
//! A tile is a line list of 16-bit instruction words, each an opcode in the high
//! four bits and data in the low twelve, that spell out non-negative pixels from
//! a running high value:
//!
//! * 0 — `data` zeros
//! * 1 — set the high value from this word and the next, which is skipped
//! * 2, 3 — raise or lower the high value by `data`
//! * 4 — `data` pixels at the high value
//! * 5 — `data` pixels, zeros but for the last, which is at the high value
//! * 6, 7 — raise or lower the high value by `data`, then one pixel at it
//! * others — nothing
use crate::casts;
use crate::error::{Error, ErrorView, Result};
use vstd::prelude::*;

verus! {

/// A line-list word as an unsigned number.
pub open spec fn unsigned(word: i16) -> int {
    if word < 0 {
        word + 0x1_0000
    } else {
        word as int
    }
}

/// `n` pixels of value `v`.
pub open spec fn run_of(v: i32, n: nat) -> Seq<i32> {
    Seq::new(n, |i: int| v)
}

/// The high value as a pixel.
pub open spec fn pixel(pv: int) -> i32 {
    casts::signed_residue(pv, 0x1_0000_0000) as i32
}

/// What one instruction does, with `left > 0` pixels still to come: the pixels
/// that it gives and the high value after it.
pub open spec fn step(word: i16, next: int, left: nat, pv: int) -> (Seq<i32>, int) {
    let op = unsigned(word) / 4096;
    let data = unsigned(word) % 4096;
    let n = (if data < left {
        data
    } else {
        left as int
    }) as nat;
    if op == 0 {
        (run_of(0, n), pv)
    } else if op == 1 {
        (Seq::empty(), next * 4096 + data)
    } else if op == 2 {
        (Seq::empty(), pv + data)
    } else if op == 3 {
        (Seq::empty(), pv - data)
    } else if op == 4 {
        (run_of(pixel(pv), n), pv)
    } else if op == 5 {
        if 0 < data <= left {
            (run_of(0, (data - 1) as nat).push(pixel(pv)), pv)
        } else {
            (run_of(0, n), pv)
        }
    } else if op == 6 {
        (seq![pixel(pv + data)], pv + data)
    } else if op == 7 {
        (seq![pixel(pv - data)], pv - data)
    } else {
        (Seq::empty(), pv)
    }
}

/// The last `left` pixels of a tile, from the instruction at `ip` on (counted
/// from zero; the list ends before `end`). `None` where a high-value instruction
/// lacks its second word.
pub open spec fn pixels_from(words: Seq<i16>, ip: nat, end: int, left: nat, pv: int) -> Option<
    Seq<i32>,
>
    decreases words.len() - ip,
{
    if left == 0 || ip >= end || ip >= words.len() {
        Some(run_of(0, left))
    } else if unsigned(words[ip as int]) / 4096 == 1 && ip + 1 >= words.len() {
        None
    } else {
        let two = unsigned(words[ip as int]) / 4096 == 1;
        let (px, pv2) = step(words[ip as int], unsigned(words[ip as int + 1]), left, pv);
        match pixels_from(
            words,
            if two {
                ip + 2
            } else {
                ip + 1
            },
            end,
            (left - px.len()) as nat,
            pv2,
        ) {
            None => None,
            Some(rest) => Some(px + rest),
        }
    }
}

/// Where the instructions start and end: a short list has its length in the
/// third word, a long one has its start in the second and its length in the
/// fourth and fifth.
pub open spec fn list_bounds(words: Seq<i16>) -> (nat, int) {
    if words[2] > 0 {
        (3, words[2] as int)
    } else {
        (unsigned(words[1]) as nat, unsigned(words[4]) * 0x8000 + unsigned(words[3]))
    }
}

/// The pixels that a line list spells; `None` where it is too short.
pub open spec fn plio_decoded(words: Seq<i16>, nvals: nat) -> Option<Seq<i32>> {
    if nvals == 0 {
        Some(Seq::empty())
    } else if words.len() < 3 || words[2] <= 0 && words.len() < 5 {
        None
    } else {
        let (first, end) = list_bounds(words);
        pixels_from(words, first, end, nvals, 1)
    }
}

/// Why a line list does not spell its pixels.
pub open spec fn plio_fault(words: Seq<i16>) -> ErrorView {
    ErrorView::CompressionError(
        if words.len() < 3 {
            "PLIO_1 line list too short (need >= 3 header words)"@
        } else if words[2] <= 0 && words.len() < 5 {
            "PLIO_1 long-form line list too short"@
        } else {
            "PLIO_1 truncated high-value instruction"@
        },
    )
}

fn unsigned_word(word: i16) -> (r: u32)
    ensures
        r == unsigned(word),
        r < 0x1_0000,
{
    if word < 0 {
        (word as i32 + 0x1_0000) as u32
    } else {
        word as u32
    }
}

fn push_run(out: &mut Vec<i32>, v: i32, n: usize)
    ensures
        final(out)@ == old(out)@ + run_of(v, n as nat),
{
    let mut i: usize = 0;
    while i < n
        invariant
            i <= n,
            out@ == old(out)@ + run_of(v, i as nat),
        decreases n - i,
    {
        out.push(v);
        i += 1;
        assert(out@ =~= old(out)@ + run_of(v, i as nat));
    }
}

/// Decompress a PLIO_1 (pixel-list RLE) tile into `nvals` `i32` values.
///
/// `words` is the line-list instruction stream. Pixels are non-negative; any
/// pixels not explicitly written are zero.
pub fn plio_decompress(words: &[i16], nvals: usize) -> (r: Result<Vec<i32>>)
    ensures
        match r {
            Ok(v) => plio_decoded(words@, nvals as nat) == Some(v@) && v@.len() == nvals,
            Err(e) => e@ == plio_fault(words@) && plio_decoded(words@, nvals as nat) is None,
        },
{
    let mut out: Vec<i32> = Vec::new();
    if nvals == 0 {
        assert(out@ =~= Seq::empty());
        return Ok(out);
    }
    let len: usize = words.len();
    if len < 3 {
        return Err(
            Error::CompressionError(
                "PLIO_1 line list too short (need >= 3 header words)".to_owned(),
            ),
        );
    }
    if words[2] <= 0 && len < 5 {
        return Err(Error::CompressionError("PLIO_1 long-form line list too short".to_owned()));
    }
    let mut ip: usize;
    let end: u64;
    if words[2] > 0 {
        ip = 3;
        end = words[2] as u64;
    } else {
        ip = unsigned_word(words[1]) as usize;
        end = unsigned_word(words[4]) as u64 * 0x8000 + unsigned_word(words[3]) as u64;
    }
    let mut pv: i64 = 1;
    let mut steps: u64 = 0;
    let ghost whole = pixels_from(words@, ip as nat, end as int, nvals as nat, 1);
    proof {
        assert(whole == plio_decoded(words@, nvals as nat));
        if let Some(t) = whole {
            assert(out@ + t =~= t);
        }
    }
    while out.len() < nvals && (ip as u64) < end && ip < len
        invariant
            len == words@.len(),
            out@.len() <= nvals,
            end <= 0x1_0000_0000,
            steps <= ip,
            -0x2000 * (steps + 1) - 0x1000_0000 <= pv <= 0x2000 * (steps + 1) + 0x1000_0000,
            len >= 3,
            words@[2] <= 0 ==> len >= 5,
            whole == plio_decoded(words@, nvals as nat),
            whole == match pixels_from(
                words@,
                ip as nat,
                end as int,
                (nvals - out@.len()) as nat,
                pv as int,
            ) {
                None => None,
                Some(t) => Some(out@ + t),
            },
        decreases len - ip,
    {
        let ghost before = out@;
        let ghost pv0 = pv;
        let ghost ip0 = ip;
        let left: usize = nvals - out.len();
        let ghost next = unsigned(words@[ip + 1]);
        let word: u32 = unsigned_word(words[ip]);
        let op: u32 = word / 4096;
        let data: u32 = word % 4096;
        let n: usize = if (data as usize) < left {
            data as usize
        } else {
            left
        };
        if op == 1 && ip + 1 >= len {
            return Err(Error::CompressionError("PLIO_1 truncated high-value instruction".to_owned()));
        }
        if op == 0 {
            push_run(&mut out, 0, n);
        } else if op == 1 {
            pv = unsigned_word(words[ip + 1]) as i64 * 4096 + data as i64;
            ip += 1;
        } else if op == 2 {
            pv += data as i64;
        } else if op == 3 {
            pv -= data as i64;
        } else if op == 4 {
            push_run(&mut out, casts::i32_of_i64(pv), n);
        } else if op == 5 {
            if data > 0 && data as usize <= left {
                push_run(&mut out, 0, data as usize - 1);
                out.push(casts::i32_of_i64(pv));
            } else {
                push_run(&mut out, 0, n);
            }
        } else if op == 6 {
            pv += data as i64;
            out.push(casts::i32_of_i64(pv));
        } else if op == 7 {
            pv -= data as i64;
            out.push(casts::i32_of_i64(pv));
        }
        ip += 1;
        steps += 1;
        proof {
            let (px, pv2) = step(words@[ip0 as int], next, left as nat, pv0 as int);
            assert(pv2 == pv);
            assert(out@ =~= before + px);
            if let Some(t) = pixels_from(
                words@,
                ip as nat,
                end as int,
                (nvals - out@.len()) as nat,
                pv as int,
            ) {
                assert(before + (px + t) =~= out@ + t);
            }
        }
    }
    let left: usize = nvals - out.len();
    push_run(&mut out, 0, left);
    Ok(out)
}

/// A number below 2^16 as a line-list word.
pub open spec fn word_of(u: int) -> i16 {
    if u < 0x8000 {
        u as i16
    } else {
        (u - 0x1_0000) as i16
    }
}

/// A part of a mask.
pub enum MaskPart {
    /// Pixels outside the mask.
    Blank { count: int },
    /// Pixels of one value.
    Run { value: int, count: int },
    /// Pixels outside the mask, and behind them one pixel.
    Last { value: int, count: int },
    /// One pixel.
    One { value: int },
    /// Nothing: a word with one of the codes that have no meaning.
    Idle { word: int },
}

/// A part that one instruction can count, with a value that a high value can have.
pub open spec fn part_valid(part: MaskPart) -> bool {
    match part {
        MaskPart::Blank { count } => 0 <= count < 0x1000,
        MaskPart::Run { value, count } => 0 <= count < 0x1000 && 0 <= value < 0x1000_0000,
        MaskPart::Last { value, count } => 0 < count < 0x1000 && 0 <= value < 0x1000_0000,
        MaskPart::One { value } => 0 <= value < 0x1000_0000,
        MaskPart::Idle { word } => 0x8000 <= word < 0x1_0000,
    }
}

/// The pixels of a part of a mask.
pub open spec fn part_pixels(part: MaskPart) -> Seq<i32> {
    match part {
        MaskPart::Blank { count } => Seq::new(count as nat, |i: int| 0i32),
        MaskPart::Run { value, count } => Seq::new(count as nat, |i: int| value as i32),
        MaskPart::Last { value, count } => Seq::new(
            count as nat,
            |i: int|
                if i == count - 1 {
                    value as i32
                } else {
                    0i32
                },
        ),
        MaskPart::One { value } => seq![value as i32],
        MaskPart::Idle { .. } => Seq::empty(),
    }
}

/// The high value behind a part of a mask.
pub open spec fn high_behind(part: MaskPart, high: int) -> int {
    match part {
        MaskPart::Blank { .. } => high,
        MaskPart::Run { value, .. } => value,
        MaskPart::Last { value, .. } => value,
        MaskPart::One { value } => value,
        MaskPart::Idle { .. } => high,
    }
}

/// The words that bring the high value to a value: none, a step of at most twelve bits up
/// or down, or the value itself in two words.
pub open spec fn high_words(value: int, high: int) -> Seq<i16> {
    if value == high {
        Seq::empty()
    } else if high < value < high + 0x1000 {
        seq![word_of(0x2000 + value - high)]
    } else if high - 0x1000 < value < high {
        seq![word_of(0x3000 + high - value)]
    } else {
        seq![word_of(0x1000 + value % 0x1000), word_of(value / 0x1000)]
    }
}

/// The words of a part of a mask.
pub open spec fn part_words(part: MaskPart, high: int) -> Seq<i16> {
    match part {
        MaskPart::Blank { count } => seq![word_of(count)],
        MaskPart::Run { value, count } => high_words(value, high).push(word_of(0x4000 + count)),
        MaskPart::Last { value, count } => high_words(value, high).push(word_of(0x5000 + count)),
        MaskPart::One { value } => if high <= value < high + 0x1000 {
            seq![word_of(0x6000 + value - high)]
        } else if high - 0x1000 < value < high {
            seq![word_of(0x7000 + high - value)]
        } else {
            high_words(value, high).push(word_of(0x4001))
        },
        MaskPart::Idle { word } => seq![word_of(word)],
    }
}

/// The pixels of a mask.
pub open spec fn mask_pixels(parts: Seq<MaskPart>) -> Seq<i32>
    decreases parts.len(),
{
    if parts.len() == 0 {
        Seq::empty()
    } else {
        part_pixels(parts[0]) + mask_pixels(parts.skip(1))
    }
}

/// The instructions of a mask.
pub open spec fn mask_words(parts: Seq<MaskPart>, high: int) -> Seq<i16>
    decreases parts.len(),
{
    if parts.len() == 0 {
        Seq::empty()
    } else {
        part_words(parts[0], high) + mask_words(parts.skip(1), high_behind(parts[0], high))
    }
}

/// A line list of instructions behind a header of three words.
pub open spec fn short_list(body: Seq<i16>) -> Seq<i16> {
    seq![0i16, 0, word_of((3 + body.len()) as int)] + body
}

/// A line list of instructions behind a header of seven words.
pub open spec fn long_list(body: Seq<i16>) -> Seq<i16> {
    let n = 7 + body.len() as int;
    seq![0i16, 7, -100i16, word_of(n % 0x8000), word_of(n / 0x8000), 0, 0] + body
}

/// The first `n` of some pixels, with zeros behind them where there are fewer.
pub open spec fn first_pixels(pixels: Seq<i32>, n: nat) -> Seq<i32> {
    Seq::new(
        n,
        |i: int|
            if i < pixels.len() {
                pixels[i]
            } else {
                0
            },
    )
}

proof fn lemma_word(u: int)
    requires
        0 <= u < 0x1_0000,
    ensures
        unsigned(word_of(u)) == u,
{
}

proof fn lemma_pixel(v: int)
    requires
        0 <= v < 0x1000_0000,
    ensures
        pixel(v) == v as i32,
        pixel(v) == v,
{
    casts::lemma_signed_residue_small(v, 0x1_0000_0000);
}

/// The instruction at `ip` is carried out, and reading goes on behind it.
proof fn lemma_step(words: Seq<i16>, ip: nat, end: int, left: nat, high: int, u: int)
    requires
        ip < end <= words.len(),
        0 <= u < 0x1_0000,
        words[ip as int] == word_of(u),
        u / 4096 != 1,
    ensures
        left > 0 ==> ({
            let (px, high2) = step(words[ip as int], unsigned(words[ip as int + 1]), left, high);
            &&& px.len() <= left
            &&& pixels_from(words, ip, end, left, high) == match pixels_from(
                words,
                ip + 1,
                end,
                (left - px.len()) as nat,
                high2,
            ) {
                None => None,
                Some(rest) => Some(px + rest),
            }
        }),
{
    lemma_word(u);
}

/// The words that set the high value set it.
proof fn lemma_high(words: Seq<i16>, ip: nat, end: int, left: nat, high: int, value: int)
    requires
        left > 0,
        0 <= value < 0x1000_0000,
        0 <= high < 0x1000_0000,
        ip + high_words(value, high).len() <= end <= words.len(),
        forall|i: int|
            0 <= i < high_words(value, high).len() ==> #[trigger] words[ip + i] == high_words(
                value,
                high,
            )[i],
    ensures
        pixels_from(words, ip, end, left, high) == pixels_from(
            words,
            (ip + high_words(value, high).len()) as nat,
            end,
            left,
            value,
        ),
{
    let w = high_words(value, high);
    if value != high {
        assert(words[ip as int + 0] == w[0]);
        if w.len() == 2 {
            lemma_word(0x1000 + value % 0x1000);
            lemma_word(value / 0x1000);
            assert(words[ip as int + 1] == w[1]);
            assert(value == (value / 0x1000) * 0x1000 + value % 0x1000);
        } else if high < value {
            lemma_word(0x2000 + value - high);
        } else {
            lemma_word(0x3000 + high - value);
        }
        let (px, high2) = step(words[ip as int], unsigned(words[ip as int + 1]), left, high);
        assert(high2 == value);
        match pixels_from(words, (ip + w.len()) as nat, end, left, value) {
            Some(rest) => {
                assert(px + rest =~= rest);
            },
            None => {},
        }
    }
}

/// The instruction of a part, with the high value set, spells its pixels, or as many as are
/// still to come.
proof fn lemma_spelled(
    words: Seq<i16>,
    ip: nat,
    end: int,
    left: nat,
    high: int,
    u: int,
    px: Seq<i32>,
    high2: int,
)
    requires
        left > 0,
        ip < end <= words.len(),
        0 <= u < 0x1_0000,
        words[ip as int] == word_of(u),
        0 <= high < 0x1000_0000,
        0 <= high2 < 0x1000_0000,
        ({
            let data = u % 4096;
            ||| u / 4096 == 0 && high2 == high && px == part_pixels(
                MaskPart::Blank { count: data },
            )
            ||| u / 4096 == 4 && high2 == high && px == part_pixels(
                MaskPart::Run { value: high, count: data },
            )
            ||| u / 4096 == 5 && data > 0 && high2 == high && px == part_pixels(
                MaskPart::Last { value: high, count: data },
            )
            ||| u / 4096 == 6 && high2 == high + data && px == part_pixels(
                MaskPart::One { value: high2 },
            )
            ||| u / 4096 == 7 && high2 == high - data && px == part_pixels(
                MaskPart::One { value: high2 },
            )
            ||| u / 4096 >= 8 && high2 == high && px == part_pixels(MaskPart::Idle { word: u })
        }),
    ensures
        px.len() <= left ==> pixels_from(words, ip, end, left, high) == match pixels_from(
            words,
            ip + 1,
            end,
            (left - px.len()) as nat,
            high2,
        ) {
            None => None,
            Some(rest) => Some(px + rest),
        },
        px.len() >= left ==> pixels_from(words, ip, end, left, high) == Some(
            px.take(left as int),
        ),
{
    lemma_word(u);
    lemma_pixel(high);
    lemma_pixel(high2);
    lemma_step(words, ip, end, left, high, u);
    let (qx, high3) = step(words[ip as int], unsigned(words[ip as int + 1]), left, high);
    assert(high3 == high2);
    if px.len() <= left {
        assert(qx =~= px);
    } else {
        assert(qx =~= px.take(left as int));
    }
    if px.len() >= left {
        assert(qx =~= px.take(left as int));
        assert(qx + run_of(0, 0) =~= qx);
    }
}

/// What is spelled from the start of a part on.
proof fn lemma_part(words: Seq<i16>, ip: nat, end: int, left: nat, high: int, part: MaskPart)
    requires
        left > 0,
        part_valid(part),
        0 <= high < 0x1000_0000,
        ip + part_words(part, high).len() <= end <= words.len(),
        words.subrange(ip as int, ip as int + part_words(part, high).len()) == part_words(part, high),
    ensures
        0 <= high_behind(part, high) < 0x1000_0000,
        part_pixels(part).len() <= left ==> pixels_from(words, ip, end, left, high)
            == match pixels_from(
            words,
            (ip + part_words(part, high).len()) as nat,
            end,
            (left - part_pixels(part).len()) as nat,
            high_behind(part, high),
        ) {
            None => None,
            Some(rest) => Some(part_pixels(part) + rest),
        },
        part_pixels(part).len() >= left ==> pixels_from(words, ip, end, left, high) == Some(
            part_pixels(part).take(left as int),
        ),
{
    let w = part_words(part, high);
    let sub = words.subrange(ip as int, ip as int + w.len());
    assert forall|i: int| 0 <= i < w.len() implies #[trigger] words[ip + i] == w[i] by {
        assert(sub[i] == words[ip + i]);
    }
    let px = part_pixels(part);
    let last = (ip + w.len() - 1) as nat;
    assert(words[ip + (w.len() - 1)] == w[w.len() - 1]);
    match part {
        MaskPart::Blank { count } => {
            lemma_spelled(words, ip, end, left, high, count, px, high);
        },
        MaskPart::Idle { word } => {
            lemma_spelled(words, ip, end, left, high, word, px, high);
        },
        MaskPart::Run { value, count } => {
            let hw = high_words(value, high);
            assert forall|i: int| 0 <= i < hw.len() implies #[trigger] words[ip + i] == hw[i] by {
                assert(words[ip + i] == w[i]);
            }
            lemma_high(words, ip, end, left, high, value);
            lemma_spelled(words, last, end, left, value, 0x4000 + count, px, value);
        },
        MaskPart::Last { value, count } => {
            let hw = high_words(value, high);
            assert forall|i: int| 0 <= i < hw.len() implies #[trigger] words[ip + i] == hw[i] by {
                assert(words[ip + i] == w[i]);
            }
            lemma_high(words, ip, end, left, high, value);
            lemma_spelled(words, last, end, left, value, 0x5000 + count, px, value);
        },
        MaskPart::One { value } => {
            if high <= value < high + 0x1000 {
                lemma_spelled(words, ip, end, left, high, 0x6000 + value - high, px, value);
            } else if high - 0x1000 < value < high {
                lemma_spelled(words, ip, end, left, high, 0x7000 + high - value, px, value);
            } else {
                let hw = high_words(value, high);
                assert forall|i: int| 0 <= i < hw.len() implies #[trigger] words[ip + i]
                    == hw[i] by {
                    assert(words[ip + i] == w[i]);
                }
                lemma_high(words, ip, end, left, high, value);
                assert(px =~= part_pixels(MaskPart::Run { value, count: 1 }));
                lemma_spelled(words, last, end, left, value, 0x4001, px, value);
            }
        },
    }
}

/// The instructions of a mask spell its pixels.
proof fn lemma_mask(words: Seq<i16>, ip: nat, left: nat, high: int, parts: Seq<MaskPart>)
    requires
        forall|k: int| 0 <= k < parts.len() ==> part_valid(#[trigger] parts[k]),
        0 <= high < 0x1000_0000,
        ip <= words.len(),
        words.skip(ip as int) == mask_words(parts, high),
    ensures
        pixels_from(words, ip, words.len() as int, left, high) == Some(
            first_pixels(mask_pixels(parts), left),
        ),
    decreases parts.len(),
{
    let all = mask_pixels(parts);
    if left == 0 {
        assert(run_of(0, 0) =~= first_pixels(all, 0));
    } else if parts.len() == 0 {
        assert(words.skip(ip as int).len() == 0);
        assert(run_of(0, left) =~= first_pixels(all, left));
    } else {
        let w = part_words(parts[0], high);
        let next = mask_words(parts.skip(1), high_behind(parts[0], high));
        assert(words.skip(ip as int) == w + next);
        assert(words.skip(ip as int).len() == words.len() - ip);
        assert(words.subrange(ip as int, ip as int + w.len()) =~= w) by {
            assert forall|i: int| 0 <= i < w.len() implies words[ip + i] == w[i] by {
                assert(words.skip(ip as int)[i] == words[ip + i]);
            }
        }
        lemma_part(words, ip, words.len() as int, left, high, parts[0]);
        let px = part_pixels(parts[0]);
        if px.len() < left {
            assert(words.skip((ip + w.len()) as int) =~= next) by {
                assert forall|i: int| 0 <= i < next.len() implies words[ip as int + w.len() + i]
                    == next[i] by {
                    assert(words.skip(ip as int)[w.len() as int + i] == words[ip as int + w.len() + i]);
                }
            }
            assert forall|k: int| 0 <= k < parts.skip(1).len() implies part_valid(
                #[trigger] parts.skip(1)[k],
            ) by {
                assert(parts.skip(1)[k] == parts[k + 1]);
            }
            let rest = (left - px.len()) as nat;
            lemma_mask(
                words,
                (ip + w.len()) as nat,
                rest,
                high_behind(parts[0], high),
                parts.skip(1),
            );
            assert(px + first_pixels(mask_pixels(parts.skip(1)), rest) =~= first_pixels(all, left));
        } else {
            assert(px.take(left as int) =~= first_pixels(all, left));
        }
    }
}

/// A mask that is written as a line list is decoded as it was: its parts give their pixels
/// one behind the other, what is missing is zero, and what is too much is dropped. The
/// instructions are counted in a header of three words, or in one of seven.
pub proof fn plio_round_trip(parts: Seq<MaskPart>, n: nat)
    requires
        forall|k: int| 0 <= k < parts.len() ==> part_valid(#[trigger] parts[k]),
    ensures
        mask_words(parts, 1).len() <= 0x7ffc ==> plio_decoded(short_list(mask_words(parts, 1)), n)
            == Some(first_pixels(mask_pixels(parts), n)),
        mask_words(parts, 1).len() <= 0x7fff_0000 ==> plio_decoded(
            long_list(mask_words(parts, 1)),
            n,
        ) == Some(first_pixels(mask_pixels(parts), n)),
{
    let body = mask_words(parts, 1);
    let pixels = mask_pixels(parts);
    assert(Seq::<i32>::empty() =~= first_pixels(pixels, 0));
    if body.len() <= 0x7ffc {
        let words = short_list(body);
        assert(words.skip(3) =~= body);
        assert(words[2] == 3 + body.len());
        lemma_mask(words, 3, n, 1, parts);
    }
    if body.len() <= 0x7fff_0000 {
        let words = long_list(body);
        let m = 7 + body.len() as int;
        lemma_word(m % 0x8000);
        lemma_word(m / 0x8000);
        assert(words.skip(7) =~= body);
        assert(words[2] == -100);
        assert(words[1] == 7);
        assert(words[3] == word_of(m % 0x8000));
        assert(words[4] == word_of(m / 0x8000));
        assert((m / 0x8000) * 0x8000 + m % 0x8000 == m);
        lemma_mask(words, 7, n, 1, parts);
    }
}

} // verus!
