//! Integer conversions that keep the low bits.
use vstd::prelude::*;

verus! {

/// The number in `-m/2 .. m/2` that is congruent to `x` modulo `m`.
pub open spec fn signed_residue(x: int, m: int) -> int {
    if x % m < m / 2 {
        x % m
    } else {
        x % m - m
    }
}

/// A number within the range is its own signed residue.
pub proof fn lemma_signed_residue_small(v: int, m: int)
    requires
        m > 0,
        m % 2 == 0,
        -m <= 2 * v < m,
    ensures
        signed_residue(v, m) == v,
{
    if v >= 0 {
        vstd::arithmetic::div_mod::lemma_small_mod(v as nat, m as nat);
    } else {
        vstd::arithmetic::div_mod::lemma_small_mod((v + m) as nat, m as nat);
        vstd::arithmetic::div_mod::lemma_mod_add_multiples_vanish(v, m);
    }
}

/// A number at most one turn away is moved by one turn.
pub proof fn lemma_signed_residue_turn(x: int, m: int)
    requires
        m > 0,
        m % 2 == 0,
        -3 * m <= 2 * x < 3 * m,
    ensures
        signed_residue(x, m) == if 2 * x >= m {
            x - m
        } else if 2 * x < -m {
            x + m
        } else {
            x
        },
{
    if 2 * x >= m {
        vstd::arithmetic::div_mod::lemma_mod_add_multiples_vanish(x - m, m);
        lemma_signed_residue_small(x - m, m);
    } else if 2 * x < -m {
        vstd::arithmetic::div_mod::lemma_mod_add_multiples_vanish(x, m);
        lemma_signed_residue_small(x + m, m);
    } else {
        lemma_signed_residue_small(x, m);
    }
}

proof fn lemma_i64_casts(x: i64)
    by (bit_vector)
    ensures
        x >= 0 ==> x as u64 == x,
        x < 0 ==> x as u64 == x + 0x1_0000_0000_0000_0000,
        x as u8 == (x as u64) % 0x100,
        (x as u64) % 0x1_0000 < 0x8000 ==> x as i16 == (x as u64) % 0x1_0000,
        (x as u64) % 0x1_0000 >= 0x8000 ==> x as i16 == (x as u64) % 0x1_0000 - 0x1_0000,
        (x as u64) % 0x1_0000_0000 < 0x8000_0000 ==> x as i32 == (x as u64) % 0x1_0000_0000,
        (x as u64) % 0x1_0000_0000 >= 0x8000_0000 ==> x as i32 == (x as u64) % 0x1_0000_0000
            - 0x1_0000_0000,
{
}

proof fn lemma_u64_casts(x: u64)
    by (bit_vector)
    ensures
        x < 0x8000_0000_0000_0000 ==> x as i64 == x,
        x >= 0x8000_0000_0000_0000 ==> x as i64 == x - 0x1_0000_0000_0000_0000,
        x as u32 == x % 0x1_0000_0000,
        x as u8 == x % 0x100,
{
}

/// The low 64 bits as an unsigned number.
pub fn u64_of_i64(x: i64) -> (r: u64)
    ensures
        r == x as int % 0x1_0000_0000_0000_0000,
        r == if x < 0 {
            x + 0x1_0000_0000_0000_0000
        } else {
            x as int
        },
{
    proof {
        lemma_i64_casts(x);
    }
    x as u64
}

/// The 64 bits as a signed number.
pub fn i64_of_u64(x: u64) -> (r: i64)
    ensures
        r == signed_residue(x as int, 0x1_0000_0000_0000_0000),
{
    proof {
        lemma_u64_casts(x);
    }
    x as i64
}

/// The low 32 bits.
pub fn u32_of_u64(x: u64) -> (r: u32)
    ensures
        r == x % 0x1_0000_0000,
{
    proof {
        lemma_u64_casts(x);
    }
    x as u32
}

/// The low 32 bits as a signed number.
pub fn i32_of_i64(x: i64) -> (r: i32)
    ensures
        r == signed_residue(x as int, 0x1_0000_0000),
{
    proof {
        lemma_i64_casts(x);
        vstd::arithmetic::div_mod::lemma_mod_multiples_vanish(0x1_0000_0000, x as int, 0x1_0000_0000);
    }
    x as i32
}

/// The low 16 bits as a signed number.
pub fn i16_of_i64(x: i64) -> (r: i16)
    ensures
        r == signed_residue(x as int, 0x1_0000),
{
    proof {
        lemma_i64_casts(x);
        vstd::arithmetic::div_mod::lemma_mod_multiples_vanish(0x1_0000_0000_0000, x as int, 0x1_0000);
    }
    x as i16
}

/// The low 8 bits as an unsigned number.
pub fn u8_of_i64(x: i64) -> (r: u8)
    ensures
        r == x as int % 0x100,
{
    proof {
        lemma_i64_casts(x);
        vstd::arithmetic::div_mod::lemma_mod_multiples_vanish(0x100_0000_0000_0000, x as int, 0x100);
    }
    x as u8
}

/// A 64-bit integer as a size: in two's complement where it does not fit.
pub open spec fn size_of(v: int) -> usize {
    (v as i64) as usize
}

/// A 64-bit integer as a size.
pub fn usize_of_i64(v: i64) -> (r: usize)
    ensures
        r == size_of(v as int),
        0 <= v <= usize::MAX ==> r == v,
{
    #[verifier::truncate]
    (v as usize)
}

} // verus!
