//! Subtractive dithering of quantized floating-point tiles: which element of the
//! fixed pseudo-random sequence goes with which pixel, and which pixels have none.
use crate::tile_compress::Quantize;
use vstd::prelude::*;

verus! {

/// Length of the fixed pseudo-random sequence.
pub const N_RANDOM: usize = 10000;

/// Sentinel quantized value flagging an undefined (NaN) pixel.
pub const NULL_VALUE: i64 = -2_147_483_647;

/// Sentinel quantized value flagging an exact-zero pixel under
/// `SUBTRACTIVE_DITHER_2`.
pub const ZERO_VALUE: i64 = -2_147_483_646;

/// The numerator of element `k` (from one) of the pseudo-random sequence: the
/// Park–Miller minimal-standard generator, whose modulus is the denominator.
pub open spec fn seed(k: nat) -> nat
    decreases k,
{
    if k == 0 {
        1
    } else {
        16807 * seed((k - 1) as nat) % 2147483647
    }
}

proof fn lemma_seed_bound(k: nat)
    ensures
        seed(k) < 2147483647,
{
}

/// The numerators of the pseudo-random sequence. Element `i` of the sequence is the
/// quotient of numerator `i` and 2147483647.
pub fn random_seeds() -> (r: Vec<u32>)
    ensures
        r@.len() == N_RANDOM,
        forall|i: int| 0 <= i < N_RANDOM ==> #[trigger] r@[i] == seed((i + 1) as nat),
{
    let mut out: Vec<u32> = Vec::new();
    let mut last: u64 = 1;
    let mut i: usize = 0;
    while i < N_RANDOM
        invariant
            i <= N_RANDOM,
            last == seed(i as nat),
            out@.len() == i,
            forall|k: int| 0 <= k < i ==> #[trigger] out@[k] == seed((k + 1) as nat),
        decreases N_RANDOM - i,
    {
        proof {
            lemma_seed_bound(i as nat);
            lemma_seed_bound((i + 1) as nat);
        }
        last = 16807 * last % 2147483647;
        out.push(last as u32);
        i += 1;
    }
    out
}

/// Whether `starts` gives, for each element of the sequence, an element of it: the one at
/// which a run that the former starts begins. Which one it is, the caller says: the format
/// has 500 times the former, rounded down, and elements are floating-point numbers.
pub open spec fn starts_valid(starts: Seq<usize>) -> bool {
    &&& starts.len() == N_RANDOM
    &&& forall|i: int| 0 <= i < starts.len() ==> #[trigger] starts[i] < N_RANDOM
}

/// The element of the sequence that starts a tile.
pub open spec fn first_seed(tile_index: int, zdither0: int) -> int {
    (tile_index + zdither0 - 1) % 10000
}

/// The elements of the sequence for `n` pixels that follow: each pixel takes the next
/// element; behind the last element a new run starts.
pub open spec fn indices_from(starts: Seq<usize>, iseed: int, next: int, n: nat) -> Seq<usize>
    decreases n,
{
    if n == 0 {
        Seq::empty()
    } else if next + 1 < 10000 {
        seq![next as usize] + indices_from(starts, iseed, next + 1, (n - 1) as nat)
    } else {
        let iseed2 = (iseed + 1) % 10000;
        seq![next as usize] + indices_from(starts, iseed2, starts[iseed2] as int, (n - 1) as nat)
    }
}

/// The elements of the sequence for the pixels of a tile.
pub open spec fn tile_indices(
    starts: Seq<usize>,
    tile_index: int,
    zdither0: int,
    n: nat,
) -> Seq<usize> {
    let iseed = first_seed(tile_index, zdither0);
    indices_from(starts, iseed, starts[iseed] as int, n)
}

/// The elements of the pseudo-random sequence for the `n` pixels of a tile. `starts`
/// says where each run through the sequence starts.
pub fn dither_indices(starts: &[usize], tile_index: usize, zdither0: i64, n: usize) -> (r: Vec<
    usize,
>)
    requires
        starts_valid(starts@),
    ensures
        r@ == tile_indices(starts@, tile_index as int, zdither0 as int, n as nat),
        r@.len() == n,
        forall|i: int| 0 <= i < n ==> #[trigger] r@[i] < N_RANDOM,
{
    let sum: i128 = tile_index as i128 + zdither0 as i128 - 1;
    let folded: i128 = if sum >= 0 {
        sum % 10000
    } else {
        let back: i128 = (-sum) % 10000;
        if back == 0 {
            0
        } else {
            10000 - back
        }
    };
    proof {
        if sum < 0 {
            let q = (-sum) / 10000;
            assert(-sum == 10000 * q + (-sum) % 10000);
            if (-sum) % 10000 == 0 {
                assert(sum == 10000 * (-q));
            } else {
                assert(sum == 10000 * (-q - 1) + (10000 - (-sum) % 10000));
            }
        }
        assert(folded == first_seed(tile_index as int, zdither0 as int));
    }
    let mut iseed: usize = folded as usize;
    let mut next: usize = starts[iseed];
    let ghost whole = tile_indices(starts@, tile_index as int, zdither0 as int, n as nat);
    let mut out: Vec<usize> = Vec::new();
    let mut i: usize = 0;
    assert(out@ + whole =~= whole);
    while i < n
        invariant
            i <= n,
            starts_valid(starts@),
            iseed < N_RANDOM,
            next < N_RANDOM,
            out@.len() == i,
            forall|k: int| 0 <= k < i ==> #[trigger] out@[k] < N_RANDOM,
            whole == out@ + indices_from(
                starts@,
                iseed as int,
                next as int,
                (n - i) as nat,
            ),
        decreases n - i,
    {
        let ghost before = out@;
        let ghost here = next;
        out.push(next);
        next += 1;
        if next == N_RANDOM {
            iseed += 1;
            if iseed == N_RANDOM {
                iseed = 0;
            }
            next = starts[iseed];
        }
        i += 1;
        proof {
            let rest = indices_from(starts@, iseed as int, next as int, (n - i) as nat);
            assert(before + (seq![here] + rest) =~= out@ + rest);
        }
    }
    assert(out@ + Seq::<usize>::empty() =~= out@);
    out
}

/// What becomes of one quantized pixel.
#[derive(Debug, Clone, Copy, PartialEq, Eq)]
pub enum PixelPlan {
    /// The pixel is undefined.
    Blank,
    /// The pixel is exactly zero.
    Zero,
    /// The pixel is the scaled quantized value.
    Plain(i64),
    /// The pixel is the scaled quantized value less the element of the sequence with
    /// this index, plus a half.
    Dithered(i64, usize),
}

/// What becomes of a quantized pixel: the sentinel values first, then dithering.
pub open spec fn plan_of(method: Quantize, q: i64, blank: Option<i64>, index: usize) -> PixelPlan {
    if blank == Some(q) {
        PixelPlan::Blank
    } else if method == Quantize::SubtractiveDither2 && q == ZERO_VALUE {
        PixelPlan::Zero
    } else if method.dithers() {
        PixelPlan::Dithered(q, index)
    } else {
        PixelPlan::Plain(q)
    }
}

/// Decide what becomes of each quantized pixel of a tile.
pub fn unquantize_plan(
    method: Quantize,
    q: &[i64],
    blank: Option<i64>,
    tile_index: usize,
    zdither0: Option<i64>,
    starts: &[usize],
) -> (r: Vec<PixelPlan>)
    requires
        starts_valid(starts@),
    ensures
        r@.len() == q@.len(),
        ({
            let seed0 = match zdither0 {
                Some(s) => s as int,
                None => 1,
            };
            let index = tile_indices(starts@, tile_index as int, seed0, q@.len());
            forall|i: int|
                0 <= i < q@.len() ==> #[trigger] r@[i] == plan_of(method, q@[i], blank, index[i])
        }),
{
    let seed0: i64 = match zdither0 {
        Some(s) => s,
        None => 1,
    };
    let n: usize = q.len();
    let index: Vec<usize> = dither_indices(starts, tile_index, seed0, n);
    let mut out: Vec<PixelPlan> = Vec::new();
    let mut i: usize = 0;
    while i < n
        invariant
            i <= n,
            n == q@.len(),
            n == index@.len(),
            out@.len() == i,
            forall|k: int|
                0 <= k < i ==> #[trigger] out@[k] == plan_of(method, q@[k], blank, index@[k]),
        decreases n - i,
    {
        let v: i64 = q[i];
        let is_blank: bool = match blank {
            Some(b) => b == v,
            None => false,
        };
        let plan: PixelPlan = if is_blank {
            PixelPlan::Blank
        } else {
            match method {
                Quantize::SubtractiveDither2 => if v == ZERO_VALUE {
                    PixelPlan::Zero
                } else {
                    PixelPlan::Dithered(v, index[i])
                },
                Quantize::SubtractiveDither1 => PixelPlan::Dithered(v, index[i]),
                Quantize::NoDither => PixelPlan::Plain(v),
            }
        };
        out.push(plan);
        i += 1;
    }
    out
}

/// What becomes of one pixel that is quantized.
#[derive(Debug, Clone, Copy, PartialEq, Eq)]
pub enum QuantizePlan {
    /// The pixel is not a number.
    Null,
    /// The pixel is an exact zero that is kept.
    Zero,
    /// The pixel is scaled and rounded.
    Plain,
    /// The pixel is scaled, the element of the sequence with this index is added less a
    /// half, and the sum is rounded.
    Dithered(usize),
}

/// Whether a bit pattern is not a number: all exponent bits are set, and the fraction is
/// not zero.
pub open spec fn not_a_number(bits: u64, wide: bool) -> bool {
    if wide {
        bits as int / 0x10_0000_0000_0000 % 0x800 == 0x7ff && bits as int % 0x10_0000_0000_0000
            != 0
    } else {
        bits as int / 0x80_0000 % 0x100 == 0xff && bits as int % 0x80_0000 != 0
    }
}

/// Whether a bit pattern is a zero of either sign.
pub open spec fn is_zero(bits: u64, wide: bool) -> bool {
    if wide {
        bits as int % 0x8000_0000_0000_0000 == 0
    } else {
        bits as int % 0x8000_0000 == 0
    }
}

/// What becomes of a pixel: undefined pixels first, then exact zeros, then dithering.
pub open spec fn quantize_plan_of(
    method: Quantize,
    bits: u64,
    wide: bool,
    index: usize,
) -> QuantizePlan {
    if not_a_number(bits, wide) {
        QuantizePlan::Null
    } else if method == Quantize::SubtractiveDither2 && is_zero(bits, wide) {
        QuantizePlan::Zero
    } else if method.dithers() {
        QuantizePlan::Dithered(index)
    } else {
        QuantizePlan::Plain
    }
}

/// Decide what becomes of each pixel of a tile that is quantized; the pixels are bit
/// patterns of 64 bits (`wide`) or 32.
pub fn quantize_plan(
    method: Quantize,
    tile: &[u64],
    wide: bool,
    tile_index: usize,
    zdither0: Option<i64>,
    starts: &[usize],
) -> (r: Vec<QuantizePlan>)
    requires
        starts_valid(starts@),
    ensures
        r@.len() == tile@.len(),
        ({
            let seed0 = match zdither0 {
                Some(s) => s as int,
                None => 1,
            };
            let index = tile_indices(starts@, tile_index as int, seed0, tile@.len());
            forall|i: int|
                0 <= i < tile@.len() ==> #[trigger] r@[i] == quantize_plan_of(
                    method,
                    tile@[i],
                    wide,
                    index[i],
                )
        }),
{
    let seed0: i64 = match zdither0 {
        Some(s) => s,
        None => 1,
    };
    let n: usize = tile.len();
    let index: Vec<usize> = dither_indices(starts, tile_index, seed0, n);
    let mut out: Vec<QuantizePlan> = Vec::new();
    let mut i: usize = 0;
    while i < n
        invariant
            i <= n,
            n == tile@.len(),
            n == index@.len(),
            out@.len() == i,
            forall|k: int|
                0 <= k < i ==> #[trigger] out@[k] == quantize_plan_of(
                    method,
                    tile@[k],
                    wide,
                    index@[k],
                ),
        decreases n - i,
    {
        let bits: u64 = tile[i];
        let nan: bool = if wide {
            bits / 0x10_0000_0000_0000 % 0x800 == 0x7ff && bits % 0x10_0000_0000_0000 != 0
        } else {
            bits / 0x80_0000 % 0x100 == 0xff && bits % 0x80_0000 != 0
        };
        let zero: bool = if wide {
            bits % 0x8000_0000_0000_0000 == 0
        } else {
            bits % 0x8000_0000 == 0
        };
        let plan: QuantizePlan = if nan {
            QuantizePlan::Null
        } else {
            match method {
                Quantize::SubtractiveDither2 => if zero {
                    QuantizePlan::Zero
                } else {
                    QuantizePlan::Dithered(index[i])
                },
                Quantize::SubtractiveDither1 => QuantizePlan::Dithered(index[i]),
                Quantize::NoDither => QuantizePlan::Plain,
            }
        };
        out.push(plan);
        i += 1;
    }
    out
}

/// The quantized value of a pixel, whose scaled value was rounded to `q`.
pub open spec fn sample_of(plan: QuantizePlan, q: i64) -> i64 {
    match plan {
        QuantizePlan::Null => NULL_VALUE,
        QuantizePlan::Zero => ZERO_VALUE,
        _ => q,
    }
}

/// The quantized values of a tile from what becomes of its pixels and the rounded values.
pub fn quantized_samples(plans: &[QuantizePlan], rounded: &[i64]) -> (r: Vec<i64>)
    requires
        plans@.len() == rounded@.len(),
    ensures
        r@.len() == plans@.len(),
        forall|i: int| 0 <= i < r@.len() ==> #[trigger] r@[i] == sample_of(plans@[i], rounded@[i]),
{
    let mut out: Vec<i64> = Vec::new();
    let mut i: usize = 0;
    while i < plans.len()
        invariant
            i <= plans@.len(),
            plans@.len() == rounded@.len(),
            out@.len() == i,
            forall|k: int|
                0 <= k < i ==> #[trigger] out@[k] == sample_of(plans@[k], rounded@[k]),
        decreases plans@.len() - i,
    {
        let v: i64 = match plans[i] {
            QuantizePlan::Null => NULL_VALUE,
            QuantizePlan::Zero => ZERO_VALUE,
            _ => rounded[i],
        };
        out.push(v);
        i += 1;
    }
    out
}

/// Decoding takes each pixel as encoding did: undefined pixels and exact zeros come back
/// as such, and any other with the same element of the sequence, unless its rounded value
/// is one of those that flag them.
pub proof fn decoding_follows_encoding(
    method: Quantize,
    bits: u64,
    wide: bool,
    index: usize,
    q: i64,
)
    requires
        q != NULL_VALUE,
        method == Quantize::SubtractiveDither2 ==> q != ZERO_VALUE,
    ensures
        ({
            let plan = quantize_plan_of(method, bits, wide, index);
            plan_of(method, sample_of(plan, q), Some(NULL_VALUE), index) == match plan {
                QuantizePlan::Null => PixelPlan::Blank,
                QuantizePlan::Zero => PixelPlan::Zero,
                QuantizePlan::Plain => PixelPlan::Plain(q),
                QuantizePlan::Dithered(i) => PixelPlan::Dithered(q, i),
            }
        }),
{
}

/// The numerators of the pseudo-random sequence are the powers of 16807 modulo the prime
/// 2147483647.
pub proof fn seeds_are_powers(k: nat)
    ensures
        seed(k) == vstd::arithmetic::power::pow(16807, k) % 2147483647,
    decreases k,
{
    if k == 0 {
        vstd::arithmetic::power::lemma_pow0(16807);
    } else {
        let m = (k - 1) as nat;
        seeds_are_powers(m);
        reveal(vstd::arithmetic::power::pow);
        let p = vstd::arithmetic::power::pow(16807, m);
        vstd::arithmetic::div_mod::lemma_mul_mod_noop_right(16807, p, 2147483647);
    }
}

/// How many of the first `n` pixels take the last element of the sequence.
pub open spec fn runs_ended(index: Seq<usize>, n: int) -> int
    decreases n,
{
    if n <= 0 {
        0
    } else {
        runs_ended(index, n - 1) + (if index[n - 1] == 9999 {
            1int
        } else {
            0
        })
    }
}

proof fn lemma_runs_shift(first: usize, rest: Seq<usize>, n: int)
    requires
        0 <= n <= rest.len(),
    ensures
        runs_ended(seq![first] + rest, n + 1) == runs_ended(rest, n) + (if first == 9999 {
            1int
        } else {
            0
        }),
    decreases n,
{
    let all = seq![first] + rest;
    if n == 0 {
        assert(all[0] == first);
        assert(runs_ended(all, 0) == 0);
    } else {
        lemma_runs_shift(first, rest, n - 1);
        assert(all[n] == rest[n - 1]);
    }
}

proof fn lemma_indices(starts: Seq<usize>, iseed: int, next: int, n: nat, i: int)
    requires
        starts_valid(starts),
        0 <= iseed < 10000,
        0 <= next < 10000,
    ensures
        indices_from(starts, iseed, next, n).len() == n,
        n > 0 ==> indices_from(starts, iseed, next, n)[0] == next,
        0 <= i && i + 1 < n ==> ({
            let index = indices_from(starts, iseed, next, n);
            &&& index[i] < 9999 ==> index[i + 1] == index[i] + 1
            &&& index[i] >= 9999 ==> index[i] == 9999 && index[i + 1] == starts[(iseed + runs_ended(
                index,
                i + 1,
            )) % 10000]
        }),
    decreases n,
{
    if n > 0 {
        let m = (n - 1) as nat;
        let ended = next + 1 >= 10000;
        let iseed2 = if ended {
            (iseed + 1) % 10000
        } else {
            iseed
        };
        let next2 = if ended {
            starts[iseed2] as int
        } else {
            next + 1
        };
        if ended {
            assert(starts[iseed2] < N_RANDOM);
        }
        let rest = indices_from(starts, iseed2, next2, m);
        let index = indices_from(starts, iseed, next, n);
        assert(index == seq![next as usize] + rest);
        lemma_indices(starts, iseed2, next2, m, i - 1);
        if 0 <= i && i + 1 < n {
            assert(index[i + 1] == rest[i]);
            lemma_runs_shift(next as usize, rest, i);
            if i == 0 {
                assert(runs_ended(rest, 0) == 0);
            } else {
                assert(index[i] == rest[i - 1]);
                let r = runs_ended(rest, i);
                if ended {
                    vstd::arithmetic::div_mod::lemma_add_mod_noop_right(r, iseed + 1, 10000);
                }
            }
        }
    }
}

/// The pixels of a tile take the elements of the sequence one after the other. The first of
/// them is where the run of element `tile_index + zdither0 - 1` starts; behind the last element
/// of the sequence, the run of the next element starts.
pub proof fn pixels_take_turns(
    starts: Seq<usize>,
    tile_index: int,
    zdither0: int,
    n: nat,
    i: int,
)
    requires
        starts_valid(starts),
        0 <= i < n,
    ensures
        ({
            let index = tile_indices(starts, tile_index, zdither0, n);
            let first = (tile_index + zdither0 - 1) % 10000;
            &&& index.len() == n
            &&& index[0] == starts[first]
            &&& i + 1 < n && index[i] < 9999 ==> index[i + 1] == index[i] + 1
            &&& i + 1 < n && index[i] >= 9999 ==> index[i + 1] == starts[(first + runs_ended(
                index,
                i + 1,
            )) % 10000]
        }),
{
    let iseed = first_seed(tile_index, zdither0);
    assert(0 <= iseed < 10000);
    assert(starts[iseed] < N_RANDOM);
    lemma_indices(starts, iseed, starts[iseed] as int, n, i);
}

/// A bit pattern of a floating-point number: the sign, the biased exponent and the fraction.
pub open spec fn pattern(negative: bool, exponent: int, fraction: int, wide: bool) -> int {
    if wide {
        (if negative {
            0x8000_0000_0000_0000int
        } else {
            0
        }) + exponent * 0x10_0000_0000_0000 + fraction
    } else {
        (if negative {
            0x8000_0000int
        } else {
            0
        }) + exponent * 0x80_0000 + fraction
    }
}

/// A pixel whose exponent bits are all set and whose fraction is not zero is not a number, and
/// becomes undefined. A zero of either sign is kept by the second dithering method. All others
/// are scaled: dithered by the two dithering methods, and plain without dithering.
pub proof fn patterns_are_planned(
    bits: u64,
    negative: bool,
    exponent: int,
    fraction: int,
    wide: bool,
    index: usize,
)
    requires
        bits == pattern(negative, exponent, fraction, wide),
        0 <= exponent < if wide {
            0x800int
        } else {
            0x100
        },
        0 <= fraction < if wide {
            0x10_0000_0000_0000int
        } else {
            0x80_0000
        },
    ensures
        ({
            let nan = exponent == (if wide {
                0x7ffint
            } else {
                0xff
            }) && fraction != 0;
            let zero = exponent == 0 && fraction == 0;
            &&& quantize_plan_of(Quantize::NoDither, bits, wide, index) == if nan {
                QuantizePlan::Null
            } else {
                QuantizePlan::Plain
            }
            &&& quantize_plan_of(Quantize::SubtractiveDither1, bits, wide, index) == if nan {
                QuantizePlan::Null
            } else {
                QuantizePlan::Dithered(index)
            }
            &&& quantize_plan_of(Quantize::SubtractiveDither2, bits, wide, index) == if nan {
                QuantizePlan::Null
            } else if zero {
                QuantizePlan::Zero
            } else {
                QuantizePlan::Dithered(index)
            }
        }),
{
    let x = bits as int;
    if wide {
        let s = if negative {
            0x800int
        } else {
            0
        };
        assert(x == (s + exponent) * 0x10_0000_0000_0000 + fraction);
        assert(x / 0x10_0000_0000_0000 == s + exponent);
        assert(x % 0x10_0000_0000_0000 == fraction);
        assert((s + exponent) % 0x800 == exponent);
        assert(x % 0x8000_0000_0000_0000 == exponent * 0x10_0000_0000_0000 + fraction);
    } else {
        let s = if negative {
            0x100int
        } else {
            0
        };
        assert(x == (s + exponent) * 0x80_0000 + fraction);
        assert(x / 0x80_0000 == s + exponent);
        assert(x % 0x80_0000 == fraction);
        assert((s + exponent) % 0x100 == exponent);
        assert(x % 0x8000_0000 == exponent * 0x80_0000 + fraction);
    }
}

/// The two least numbers of 32 bits but one flag undefined pixels and exact zeros; any other
/// pixel has its rounded value.
pub proof fn flags_of_samples(q: i64, index: usize)
    ensures
        sample_of(QuantizePlan::Null, q) == i32::MIN + 1,
        sample_of(QuantizePlan::Zero, q) == i32::MIN + 2,
        sample_of(QuantizePlan::Plain, q) == q,
        sample_of(QuantizePlan::Dithered(index), q) == q,
{
}

} // verus!
