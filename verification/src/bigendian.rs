//! Big-endian integers of one to eight bytes.
use crate::casts;
use vstd::prelude::*;

verus! {

/// `256^n`.
pub open spec fn byte_power(n: nat) -> nat
    decreases n,
{
    if n == 0 {
        1
    } else {
        0x100 * byte_power((n - 1) as nat)
    }
}

/// The number that bytes spell, most significant first.
pub open spec fn be_value(s: Seq<u8>) -> nat
    decreases s.len(),
{
    if s.len() == 0 {
        0
    } else {
        0x100 * be_value(s.drop_last()) + s.last() as nat
    }
}

/// The low `n` bytes of a number, most significant first.
pub open spec fn be_digits(v: nat, n: nat) -> Seq<u8>
    decreases n,
{
    if n == 0 {
        Seq::empty()
    } else {
        be_digits(v / 0x100, (n - 1) as nat).push((v % 0x100) as u8)
    }
}

/// The two's-complement number that bytes spell.
pub open spec fn be_signed(s: Seq<u8>) -> int {
    casts::signed_residue(be_value(s) as int, byte_power(s.len()) as int)
}

/// The `n` bytes of a two's-complement number.
pub open spec fn be_signed_digits(v: int, n: nat) -> Seq<u8> {
    be_digits((v % byte_power(n) as int) as nat, n)
}

pub proof fn lemma_byte_powers()
    ensures
        byte_power(0) == 1,
        byte_power(1) == 0x100,
        byte_power(2) == 0x1_0000,
        byte_power(3) == 0x100_0000,
        byte_power(4) == 0x1_0000_0000,
        byte_power(5) == 0x100_0000_0000,
        byte_power(6) == 0x1_0000_0000_0000,
        byte_power(7) == 0x100_0000_0000_0000,
        byte_power(8) == 0x1_0000_0000_0000_0000,
{
    reveal_with_fuel(byte_power, 9);
}

proof fn lemma_byte_power_positive(n: nat)
    ensures
        byte_power(n) > 0,
    decreases n,
{
    if n > 0 {
        lemma_byte_power_positive((n - 1) as nat);
    }
}

proof fn lemma_byte_power_adds(a: nat, b: nat)
    ensures
        byte_power(a + b) == byte_power(a) * byte_power(b),
    decreases a,
{
    if a > 0 {
        let c = (a - 1) as nat;
        lemma_byte_power_adds(c, b);
        assert((a + b - 1) as nat == c + b);
        assert(0x100 * (byte_power(c) * byte_power(b)) == (0x100 * byte_power(c)) * byte_power(b))
            by (nonlinear_arith);
    } else {
        assert(byte_power(a) * byte_power(b) == byte_power(b)) by (nonlinear_arith)
            requires
                byte_power(a) == 1,
        ;
    }
}

pub proof fn lemma_be_digits_len(v: nat, n: nat)
    ensures
        be_digits(v, n).len() == n,
    decreases n,
{
    if n > 0 {
        lemma_be_digits_len(v / 0x100, (n - 1) as nat);
    }
}

pub proof fn lemma_be_value_bound(s: Seq<u8>)
    ensures
        be_value(s) < byte_power(s.len()),
    decreases s.len(),
{
    if s.len() > 0 {
        lemma_be_value_bound(s.drop_last());
    }
}

/// Reading back the bytes of a number gives it modulo the power of 256.
pub proof fn be_value_of_digits(v: nat, n: nat)
    ensures
        be_value(be_digits(v, n)) == v % byte_power(n),
    decreases n,
{
    lemma_be_digits_len(v, n);
    if n == 0 {
        assert(v % 1 == 0);
    } else {
        let m = (n - 1) as nat;
        be_value_of_digits(v / 0x100, m);
        lemma_byte_power_positive(m);
        assert(be_digits(v, n).drop_last() =~= be_digits(v / 0x100, m));
        vstd::arithmetic::div_mod::lemma_mod_breakdown(v as int, 0x100, byte_power(m) as int);
    }
}

/// The bytes of the number that bytes spell are those bytes.
pub proof fn be_digits_of_value(s: Seq<u8>)
    ensures
        be_digits(be_value(s), s.len()) == s,
    decreases s.len(),
{
    if s.len() > 0 {
        be_digits_of_value(s.drop_last());
        assert(s =~= s.drop_last().push(s.last()));
    }
}

/// A two's-complement number within the range of its bytes is read back as it is.
pub proof fn be_signed_round_trip(v: int, n: nat)
    requires
        n > 0,
        -byte_power(n) <= 2 * v < byte_power(n),
    ensures
        be_signed(be_signed_digits(v, n)) == v,
{
    let m = byte_power(n) as int;
    lemma_byte_power_positive(n);
    let u = (v % m) as nat;
    be_value_of_digits(u, n);
    lemma_be_digits_len(u, n);
    vstd::arithmetic::div_mod::lemma_small_mod(u, m as nat);
    assert(m % 2 == 0) by {
        assert(byte_power(n) == 0x100 * byte_power((n - 1) as nat));
    }
    casts::lemma_signed_residue_small(v, m);
    assert(u as int % m == v % m);
}

/// Append the low `n` bytes of a number, most significant first.
pub fn push_be(out: &mut Vec<u8>, v: u64, n: usize)
    requires
        n <= 8,
    ensures
        final(out)@ == old(out)@ + be_digits(v as nat, n as nat),
    decreases n,
{
    if n > 0 {
        push_be(out, v / 0x100, n - 1);
        out.push((v % 0x100) as u8);
        assert(out@ =~= old(out)@ + be_digits(v as nat, n as nat));
    } else {
        assert(out@ =~= old(out)@ + be_digits(v as nat, n as nat));
    }
}

/// Append the `n` bytes of a two's-complement number.
pub fn push_be_signed(out: &mut Vec<u8>, v: i64, n: usize)
    requires
        1 <= n <= 8,
    ensures
        final(out)@ == old(out)@ + be_signed_digits(v as int, n as nat),
{
    let u: u64 = casts::u64_of_i64(v);
    proof {
        lemma_digits_of_residue(v as int, u as nat, n as nat);
    }
    push_be(out, u, n);
}

/// The low bytes of a number do not depend on higher ones.
proof fn lemma_digits_mod(v: nat, n: nat)
    ensures
        be_digits(v % byte_power(n), n) == be_digits(v, n),
{
    be_value_of_digits(v, n);
    lemma_be_digits_len(v, n);
    be_digits_of_value(be_digits(v, n));
}

proof fn lemma_digits_of_residue(v: int, u: nat, n: nat)
    requires
        1 <= n <= 8,
        u == v % 0x1_0000_0000_0000_0000,
    ensures
        be_digits(u, n) == be_signed_digits(v, n),
{
    lemma_byte_powers();
    lemma_digits_mod(u, n);
    let m = byte_power(n) as int;
    let k = byte_power((8 - n) as nat) as int;
    lemma_byte_power_adds(n, (8 - n) as nat);
    lemma_byte_power_positive(n);
    lemma_byte_power_positive((8 - n) as nat);
    vstd::arithmetic::div_mod::lemma_mod_mod(v, m, k);
}

/// The number that `n` bytes at `pos` spell.
pub fn read_be(data: &[u8], pos: usize, n: usize) -> (r: u64)
    requires
        n <= 8,
        pos + n <= data@.len(),
    ensures
        r == be_value(data@.subrange(pos as int, pos + n)),
        r < byte_power(n as nat),
{
    let mut v: u64 = 0;
    let mut i: usize = 0;
    let len: usize = data.len();
    proof {
        lemma_byte_powers();
        assert(data@.subrange(pos as int, pos as int) =~= Seq::empty());
    }
    while i < n
        invariant
            i <= n <= 8,
            pos + n <= data@.len(),
            len == data@.len(),
            v == be_value(data@.subrange(pos as int, pos + i)),
        decreases n - i,
    {
        proof {
            let s = data@.subrange(pos as int, pos + i + 1);
            assert(s.drop_last() =~= data@.subrange(pos as int, pos + i));
            lemma_be_value_bound(s);
            lemma_byte_powers();
        }
        v = v * 0x100 + data[pos + i] as u64;
        i += 1;
    }
    proof {
        lemma_be_value_bound(data@.subrange(pos as int, pos + n));
    }
    v
}

/// The two's-complement number that `n` bytes at `pos` spell.
pub fn read_be_signed(data: &[u8], pos: usize, n: usize) -> (r: i64)
    requires
        1 <= n <= 8,
        pos + n <= data@.len(),
    ensures
        r == be_signed(data@.subrange(pos as int, pos + n)),
        -byte_power(n as nat) <= 2 * r < byte_power(n as nat),
{
    let u: u64 = read_be(data, pos, n);
    let ghost m = byte_power(n as nat) as int;
    proof {
        lemma_byte_powers();
        vstd::arithmetic::div_mod::lemma_small_mod(u as nat, m as nat);
        assert(n == 1 || n == 2 || n == 3 || n == 4 || n == 5 || n == 6 || n == 7 || n == 8);
    }
    if n == 8 {
        return casts::i64_of_u64(u);
    }
    let mut half: u64 = 0x80;
    let mut i: usize = 1;
    while i < n
        invariant
            1 <= i <= n < 8,
            2 * half == byte_power(i as nat),
            half <= 0x80_0000_0000_0000,
        decreases n - i,
    {
        proof {
            lemma_byte_powers();
            assert(i == 1 || i == 2 || i == 3 || i == 4 || i == 5 || i == 6);
        }
        half = half * 0x100;
        i += 1;
    }
    if u < half {
        u as i64
    } else {
        u as i64 - half as i64 - half as i64
    }
}

/// Bytes in front of others count as many times more as there are numbers of the others.
pub proof fn be_value_joined(a: Seq<u8>, b: Seq<u8>)
    ensures
        be_value(a + b) == be_value(a) * byte_power(b.len()) + be_value(b),
    decreases b.len(),
{
    if b.len() == 0 {
        assert(a + b =~= a);
        assert(be_value(a) * 1 == be_value(a));
    } else {
        let m = (b.len() - 1) as nat;
        assert((a + b).drop_last() =~= a + b.drop_last());
        be_value_joined(a, b.drop_last());
        let x = be_value(a);
        let y = byte_power(m);
        assert(0x100 * (x * y) == x * (0x100 * y)) by (nonlinear_arith);
    }
}

/// A single byte is a number without a sign, or in two's complement.
pub proof fn byte_values(b: u8)
    ensures
        be_value(seq![b]) == b,
        be_signed(seq![b]) == (if b < 0x80 {
            b as int
        } else {
            b - 0x100
        }),
{
    let s = seq![b];
    assert(s.drop_last() =~= Seq::empty());
    lemma_byte_powers();
    assert(be_value(Seq::empty()) == 0);
}

} // verus!
