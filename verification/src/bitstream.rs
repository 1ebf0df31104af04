//! Bit sequences, most significant bit first, and the reader and writer that
//! move them to and from bytes.
use crate::error::{Error, ErrorView, Result};
use vstd::arithmetic::power2;
use vstd::prelude::*;

verus! {

/// The error for a stream that ends before its values do.
pub open spec fn rice_end() -> ErrorView {
    ErrorView::CompressionError("RICE: unexpected end of stream"@)
}

/// The low `n` bits of `v`, most significant first.
pub open spec fn nat_bits(v: nat, n: nat) -> Seq<bool>
    decreases n,
{
    if n == 0 {
        Seq::empty()
    } else {
        nat_bits(v / 2, (n - 1) as nat).push(v % 2 == 1)
    }
}

/// The number that a bit sequence spells, most significant first.
pub open spec fn bits_nat(s: Seq<bool>) -> nat
    decreases s.len(),
{
    if s.len() == 0 {
        0
    } else {
        2 * bits_nat(s.drop_last()) + (if s.last() {
            1nat
        } else {
            0nat
        })
    }
}

/// The bits of a byte sequence.
pub open spec fn byte_bits(data: Seq<u8>) -> Seq<bool>
    decreases data.len(),
{
    if data.len() == 0 {
        Seq::empty()
    } else {
        byte_bits(data.drop_last()) + nat_bits(data.last() as nat, 8)
    }
}

/// A run of `n` zero bits.
pub open spec fn zero_bits(n: nat) -> Seq<bool> {
    Seq::new(n, |i: int| false)
}

pub proof fn lemma_pow2_step(n: nat)
    ensures
        power2::pow2(n + 1) == 2 * power2::pow2(n),
        power2::pow2(n) > 0,
{
    power2::lemma_pow2_unfold(n + 1);
    power2::lemma_pow2_pos(n);
}

pub proof fn lemma_nat_bits_len(v: nat, n: nat)
    ensures
        nat_bits(v, n).len() == n,
    decreases n,
{
    if n > 0 {
        lemma_nat_bits_len(v / 2, (n - 1) as nat);
    }
}

/// Spelling out the low bits of a number and reading them back gives the number
/// modulo the power of two.
pub proof fn lemma_bits_nat_of_nat_bits(v: nat, n: nat)
    ensures
        bits_nat(nat_bits(v, n)) == v % power2::pow2(n),
        nat_bits(v, n).len() == n,
        nat_bits(v, n) == nat_bits(v % power2::pow2(n), n),
    decreases n,
{
    lemma_nat_bits_len(v, n);
    if n == 0 {
        power2::lemma2_to64();
        assert(power2::pow2(0) == 1);
        assert(v % 1 == 0);
    } else {
        let m = (n - 1) as nat;
        let h = v / 2;
        lemma_bits_nat_of_nat_bits(h, m);
        lemma_pow2_step(m);
        assert(nat_bits(v, n).drop_last() =~= nat_bits(h, m));
        let p = power2::pow2(m) as int;
        vstd::arithmetic::div_mod::lemma_mod_breakdown(v as int, 2, p);
        assert(v as int % (2 * p) == 2 * ((v as int / 2) % p) + v as int % 2);
        let w = v % power2::pow2(n);
        assert(w / 2 == h % power2::pow2(m) && w % 2 == v % 2);
    }
}

pub proof fn lemma_bits_nat_bound(s: Seq<bool>)
    ensures
        bits_nat(s) < power2::pow2(s.len()),
    decreases s.len(),
{
    if s.len() == 0 {
        power2::lemma2_to64();
    } else {
        lemma_bits_nat_bound(s.drop_last());
        lemma_pow2_step((s.len() - 1) as nat);
    }
}

pub proof fn lemma_bits_nat_concat(a: Seq<bool>, b: Seq<bool>)
    ensures
        bits_nat(a + b) == bits_nat(a) * power2::pow2(b.len()) + bits_nat(b),
    decreases b.len(),
{
    if b.len() == 0 {
        assert(a + b =~= a);
        power2::lemma2_to64();
        assert(bits_nat(a) * power2::pow2(b.len()) == bits_nat(a)) by (nonlinear_arith)
            requires
                power2::pow2(b.len()) == 1,
        ;
    } else {
        let c = b.drop_last();
        assert((a + b).drop_last() =~= a + c);
        lemma_bits_nat_concat(a, c);
        lemma_pow2_step(c.len());
        assert(2 * (bits_nat(a) * power2::pow2(c.len())) == bits_nat(a) * (2 * power2::pow2(c.len())))
            by (nonlinear_arith);
    }
}

/// The bits of `v * 2^m + w` are those of `v` followed by those of `w`.
proof fn lemma_nat_bits_concat(v: nat, n: nat, w: nat, m: nat)
    requires
        w < power2::pow2(m),
    ensures
        nat_bits(v * power2::pow2(m) + w, n + m) == nat_bits(v, n) + nat_bits(w, m),
    decreases m,
{
    if m == 0 {
        power2::lemma2_to64();
        assert(power2::pow2(0) == 1);
        assert(v * power2::pow2(m) + w == v) by (nonlinear_arith)
            requires
                power2::pow2(m) == 1,
                w == 0,
        ;
        assert(nat_bits(v, n) + nat_bits(w, m) =~= nat_bits(v, n));
    } else {
        let k = (m - 1) as nat;
        lemma_pow2_step(k);
        let x = v * power2::pow2(m) + w;
        assert(v * power2::pow2(m) == 2 * (v * power2::pow2(k))) by (nonlinear_arith)
            requires
                power2::pow2(m) == 2 * power2::pow2(k),
        ;
        lemma_nat_bits_concat(v, n, w / 2, k);
        assert(x / 2 == v * power2::pow2(k) + w / 2);
        assert(x % 2 == w % 2);
        assert((n + m - 1) as nat == n + k);
        assert(nat_bits(v, n) + nat_bits(w, m) =~= (nat_bits(v, n) + nat_bits(w / 2, k)).push(
            w % 2 == 1,
        ));
    }
}

proof fn lemma_byte_bits_len(data: Seq<u8>)
    ensures
        byte_bits(data).len() == 8 * data.len(),
    decreases data.len(),
{
    if data.len() > 0 {
        lemma_byte_bits_len(data.drop_last());
        lemma_nat_bits_len(data.last() as nat, 8);
    }
}

/// The eight bits of byte `i`.
proof fn lemma_byte_bits_at(data: Seq<u8>, i: int)
    requires
        0 <= i < data.len(),
    ensures
        byte_bits(data).len() == 8 * data.len(),
        byte_bits(data).subrange(8 * i, 8 * i + 8) == nat_bits(data[i] as nat, 8),
    decreases data.len(),
{
    lemma_byte_bits_len(data);
    lemma_byte_bits_len(data.drop_last());
    lemma_nat_bits_len(data.last() as nat, 8);
    if i < data.len() - 1 {
        lemma_byte_bits_at(data.drop_last(), i);
        assert(byte_bits(data).subrange(8 * i, 8 * i + 8) =~= byte_bits(data.drop_last()).subrange(
            8 * i,
            8 * i + 8,
        ));
    } else {
        assert(byte_bits(data).subrange(8 * i, 8 * i + 8) =~= nat_bits(data[i] as nat, 8));
    }
}

proof fn lemma_byte_bits_push(data: Seq<u8>, b: u8)
    ensures
        byte_bits(data.push(b)) == byte_bits(data) + nat_bits(b as nat, 8),
{
    assert(data.push(b).drop_last() =~= data);
}

/// `2^n` for the small shifts of a bit buffer.
pub fn power_of_two(n: u32) -> (r: u64)
    requires
        n < 64,
    ensures
        r == power2::pow2(n as nat),
        r >= 1,
{
    proof {
        power2::lemma_pow2_pos(n as nat);
        power2::lemma2_to64();
        power2::lemma2_to64_rest();
        if n < 63 {
            power2::lemma_pow2_strictly_increases(n as nat, 63);
        }
        vstd::bits::lemma_u64_shl_is_mul(1, n as u64);
    }
    1u64 << n
}

/// Splitting a buffered value at `shift` bits splits its bits there.
proof fn lemma_split(s: Seq<bool>, keep: nat)
    requires
        keep <= s.len(),
    ensures
        ({
            let cut = (s.len() - keep) as int;
            &&& bits_nat(s) / power2::pow2(keep) == bits_nat(s.take(cut))
            &&& bits_nat(s) % power2::pow2(keep) == bits_nat(s.skip(cut))
            &&& power2::pow2(keep) > 0
        }),
{
    let cut = (s.len() - keep) as int;
    let a = s.take(cut);
    let b = s.skip(cut);
    assert(s =~= a + b);
    lemma_bits_nat_concat(a, b);
    lemma_bits_nat_bound(b);
    power2::lemma_pow2_pos(keep);
    vstd::arithmetic::div_mod::lemma_fundamental_div_mod_converse(
        bits_nat(s) as int,
        power2::pow2(keep) as int,
        bits_nat(a) as int,
        bits_nat(b) as int,
    );
}

/// An MSB-first bit reader over a byte slice.
pub struct BitReader<'a> {
    data: &'a [u8],
    byte_pos: usize,
    /// Number of bits of the current byte not yet read.
    bits_in_buf: u32,
    /// Those bits, as a number.
    buffer: u32,
}

impl<'a> BitReader<'a> {
    #[verifier::type_invariant]
    spec fn buffered(self) -> bool {
        &&& self.byte_pos <= self.data@.len()
        &&& self.bits_in_buf <= 8
        &&& self.bits_in_buf <= 8 * self.byte_pos
        &&& self.buffer == bits_nat(
            byte_bits(self.data@).subrange(
                8 * self.byte_pos - self.bits_in_buf,
                8 * self.byte_pos,
            ),
        )
    }

    /// The bits not yet read.
    pub closed spec fn rest(self) -> Seq<bool> {
        byte_bits(self.data@).skip(8 * self.byte_pos - self.bits_in_buf)
    }

    pub fn new(data: &'a [u8]) -> (r: Self)
        ensures
            r.rest() == byte_bits(data@),
    {
        proof {
            assert(byte_bits(data@).subrange(0, 0) =~= Seq::empty());
            assert(byte_bits(data@).skip(0) =~= byte_bits(data@));
        }
        BitReader { data, byte_pos: 0, bits_in_buf: 0, buffer: 0 }
    }

    /// Bring the next byte into the empty buffer; false at the end of the data.
    fn refill(&mut self) -> (r: bool)
        ensures
            final(self).rest() == old(self).rest(),
            r <==> old(self).rest().len() > 0,
            r ==> 1 <= final(self).bits_in_buf <= 8,
    {
        proof {
            use_type_invariant(&*self);
            lemma_byte_bits_len(self.data@);
        }
        if self.bits_in_buf > 0 {
            return true;
        }
        if self.byte_pos >= self.data.len() {
            return false;
        }
        let b: u8 = self.data[self.byte_pos];
        proof {
            lemma_byte_bits_at(self.data@, self.byte_pos as int);
            lemma_bits_nat_of_nat_bits(b as nat, 8);
            power2::lemma2_to64();
        }
        *self =
        BitReader {
            data: self.data,
            byte_pos: self.byte_pos + 1,
            bits_in_buf: 8,
            buffer: b as u32,
        };
        true
    }

    /// Take `take` bits out of the buffer.
    fn take_buffered(&mut self, take: u32) -> (r: u32)
        requires
            take <= old(self).bits_in_buf,
        ensures
            take <= old(self).rest().len(),
            r == bits_nat(old(self).rest().take(take as int)),
            final(self).rest() == old(self).rest().skip(take as int),
    {
        proof {
            use_type_invariant(&*self);
            lemma_byte_bits_len(self.data@);
        }
        let keep: u32 = self.bits_in_buf - take;
        let unit: u32 = power_of_two(keep) as u32;
        let ghost all = byte_bits(self.data@);
        let ghost start = 8 * self.byte_pos - self.bits_in_buf;
        let ghost buf = all.subrange(start, 8 * self.byte_pos);
        proof {
            power2::lemma2_to64();
            if keep < 8 {
                power2::lemma_pow2_strictly_increases(keep as nat, 8);
            }
            lemma_split(buf, keep as nat);
            assert(buf.take(take as int) =~= self.rest().take(take as int));
            assert(buf.skip(take as int) =~= all.subrange(start + take, 8 * self.byte_pos));
            assert(self.rest().skip(take as int) =~= all.skip(start + take));
        }
        let r: u32 = self.buffer / unit;
        let left: u32 = self.buffer % unit;
        *self =
        BitReader { data: self.data, byte_pos: self.byte_pos, bits_in_buf: keep, buffer: left };
        r
    }

    /// Read `n` bits (0..=32) MSB-first as an unsigned value.
    pub fn read_bits(&mut self, n: u32) -> (r: Result<u32>)
        requires
            n <= 32,
        ensures
            match r {
                Ok(v) => n <= old(self).rest().len() && v == bits_nat(
                    old(self).rest().take(n as int),
                ) && final(self).rest() == old(self).rest().skip(n as int),
                Err(e) => e@ == rice_end() && n > old(self).rest().len(),
            },
    {
        let ghost start = self.rest();
        let mut result: u64 = 0;
        let mut need: u32 = n;
        proof {
            assert(start.take(0) =~= Seq::empty());
            assert(start.skip(0) =~= start);
            power2::lemma2_to64();
        }
        while need > 0
            invariant
                need <= n <= 32,
                start == old(self).rest(),
                n - need <= start.len(),
                self.rest() == start.skip(n - need),
                result == bits_nat(start.take(n - need)),
                result < 0x1_0000_0000,
            decreases need,
        {
            if !self.refill() {
                return Err(Error::CompressionError("RICE: unexpected end of stream".to_owned()));
            }
            let take: u32 = if need < self.bits_in_buf {
                need
            } else {
                self.bits_in_buf
            };
            let ghost done = start.take(n - need);
            let ghost piece = self.rest().take(take as int);
            let bits: u32 = self.take_buffered(take);
            let unit: u64 = power_of_two(take);
            proof {
                lemma_bits_nat_concat(done, piece);
                assert(start.take(n - need + take) =~= done + piece);
                assert(start.skip(n - need).skip(take as int) =~= start.skip(n - need + take));
                lemma_bits_nat_bound(done + piece);
                power2::lemma2_to64();
                if n - need + take < 32 {
                    power2::lemma_pow2_strictly_increases(
                        (n - need + take) as nat,
                        32,
                    );
                }
            }
            result = result * unit + bits as u64;
            need -= take;
        }
        Ok(result as u32)
    }

    /// Drop what is left of the current byte.
    pub fn align(&mut self)
        ensures
            final(self).rest() == old(self).rest().skip(old(self).rest().len() as int % 8),
    {
        proof {
            use_type_invariant(&*self);
            lemma_byte_bits_len(self.data@);
        }
        let left: u32 = if self.bits_in_buf == 8 {
            0
        } else {
            self.bits_in_buf
        };
        proof {
            assert(self.rest().len() as int % 8 == left) by {
                assert(self.rest().len() == 8 * (self.data@.len() - self.byte_pos) + self.bits_in_buf);
            }
        }
        self.take_buffered(left);
    }

    /// Count and consume leading zero bits, then consume the terminating one-bit.
    /// Returns the number of zero bits seen. A run that ends the data, or one
    /// that is too long to count, is an error.
    pub fn count_leading_zeros(&mut self) -> (r: Result<u32>)
        ensures
            match r {
                Ok(c) => c < u32::MAX && c < old(self).rest().len() && old(self).rest()[c as int] && (forall|i: int|
                    0 <= i < c ==> !old(self).rest()[i]) && final(self).rest() == old(self).rest().skip(c + 1),
                Err(e) => e@ == rice_end() && forall|i: int|
                    0 <= i < old(self).rest().len() && i < u32::MAX ==> !old(self).rest()[i],
            },
    {
        let ghost start = self.rest();
        let mut count: u32 = 0;
        proof {
            assert(start.skip(0) =~= start);
        }
        loop
            invariant
                start == old(self).rest(),
                count <= start.len(),
                self.rest() == start.skip(count as int),
                forall|i: int| 0 <= i < count ==> !start[i],
            decreases u32::MAX - count,
        {
            if count == u32::MAX || !self.refill() {
                return Err(Error::CompressionError("RICE: unexpected end of stream".to_owned()));
            }
            let ghost one = self.rest().take(1);
            let top: u32 = self.take_buffered(1);
            proof {
                assert(one[0] == start[count as int]);
                assert(one.drop_last() =~= Seq::empty());
                assert(bits_nat(one.drop_last()) == 0);
                assert(start.skip(count as int).skip(1) =~= start.skip(count + 1));
            }
            if top == 1 {
                return Ok(count);
            }
            count += 1;
        }
    }
}

/// MSB-first bit writer (the inverse of [`BitReader`]).
pub struct BitWriterEnc {
    bytes: Vec<u8>,
    /// The last `bits_in_buf` bits written, as a number; fewer than a byte.
    buffer: u64,
    bits_in_buf: u32,
}

impl BitWriterEnc {
    #[verifier::type_invariant]
    spec fn buffered(self) -> bool {
        self.bits_in_buf < 8 && self.buffer < power2::pow2(self.bits_in_buf as nat)
    }

    /// The bits written so far.
    pub closed spec fn bits(self) -> Seq<bool> {
        byte_bits(self.bytes@) + nat_bits(self.buffer as nat, self.bits_in_buf as nat)
    }

    pub fn new() -> (r: Self)
        ensures
            r.bits() == Seq::<bool>::empty(),
    {
        proof {
            power2::lemma2_to64();
        }
        let r = BitWriterEnc { bytes: Vec::new(), buffer: 0, bits_in_buf: 0 };
        assert(r.bits() =~= Seq::<bool>::empty());
        r
    }

    /// Write the low `n` bits of `val` (0..=32) MSB-first.
    pub fn write_bits(&mut self, val: u32, n: u32)
        requires
            n <= 32,
        ensures
            final(self).bits() == old(self).bits() + nat_bits(val as nat, n as nat),
    {
        proof {
            use_type_invariant(&*self);
        }
        let unit: u64 = power_of_two(n);
        let low: u64 = val as u64 % unit;
        let mut pending: u32 = self.bits_in_buf + n;
        proof {
            lemma_bits_nat_of_nat_bits(val as nat, n as nat);
            lemma_nat_bits_concat(
                self.buffer as nat,
                self.bits_in_buf as nat,
                low as nat,
                n as nat,
            );
            power2::lemma2_to64();
            power2::lemma_pow2_adds(self.bits_in_buf as nat, n as nat);
            if pending < 39 {
                power2::lemma_pow2_strictly_increases(pending as nat, 39);
            }
            power2::lemma2_to64_rest();
            let b = self.buffer as int;
            let p = power2::pow2(self.bits_in_buf as nat) as int;
            let u = power2::pow2(n as nat) as int;
            assert(b * u + low < p * u) by (nonlinear_arith)
                requires
                    0 <= b < p,
                    0 <= low < u,
            ;
        }
        let mut buffer: u64 = self.buffer * unit + low;
        let mut bytes: Vec<u8> = Vec::new();
        std::mem::swap(&mut bytes, &mut self.bytes);
        let ghost target = old(self).bits() + nat_bits(val as nat, n as nat);
        assert(byte_bits(bytes@) + nat_bits(buffer as nat, pending as nat) =~= target);
        while pending >= 8
            invariant
                pending < 40,
                buffer < power2::pow2(pending as nat),
                byte_bits(bytes@) + nat_bits(buffer as nat, pending as nat) == target,
            decreases pending,
        {
            let keep: u32 = pending - 8;
            let unit: u64 = power_of_two(keep);
            let ghost prev = bytes@;
            let byte: u64 = buffer / unit;
            let left: u64 = buffer % unit;
            proof {
                power2::lemma2_to64();
                power2::lemma_pow2_adds(8, keep as nat);
                assert(byte < 256) by (nonlinear_arith)
                    requires
                        buffer < 256 * unit,
                        unit > 0,
                        byte == buffer / unit,
                ;
                vstd::arithmetic::div_mod::lemma_fundamental_div_mod(buffer as int, unit as int);
                assert(unit * byte == byte * unit) by (nonlinear_arith);
                lemma_nat_bits_concat(byte as nat, 8, left as nat, keep as nat);
                lemma_byte_bits_push(prev, byte as u8);
            }
            bytes.push(byte as u8);
            buffer = left;
            pending = keep;
            assert(byte_bits(bytes@) + nat_bits(buffer as nat, pending as nat) =~= target);
        }
        *self = BitWriterEnc { bytes, buffer, bits_in_buf: pending };
    }

    /// Write `count` zero bits then a single one bit (the unary part of a Rice code).
    pub fn write_unary(&mut self, count: u32)
        ensures
            final(self).bits() == old(self).bits() + zero_bits(count as nat).push(true),
    {
        let mut remaining: u32 = count;
        let ghost start = self.bits();
        assert(start + zero_bits(0) =~= start);
        while remaining >= 24
            invariant
                remaining <= count,
                self.bits() == start + zero_bits((count - remaining) as nat),
            decreases remaining,
        {
            self.write_bits(0, 24);
            proof {
                lemma_zero_bits(24);
            }
            remaining -= 24;
            assert(self.bits() =~= start + zero_bits((count - remaining) as nat));
        }
        self.write_bits(1, remaining + 1);
        proof {
            lemma_zero_bits(remaining as nat);
        }
        assert(self.bits() =~= start + zero_bits(count as nat).push(true));
    }

    /// Flush any partial byte (zero-padded on the low side) and return the
    /// encoded bytes.
    pub fn finish(self) -> (r: Vec<u8>)
        ensures
            byte_bits(r@) == self.bits() + zero_bits((8 * r@.len() - self.bits().len()) as nat),
            self.bits().len() <= 8 * r@.len() < self.bits().len() + 8,
    {
        proof {
            use_type_invariant(&self);
        }
        let mut w = self;
        let ghost start = w.bits();
        proof {
            lemma_byte_bits_len(w.bytes@);
            lemma_nat_bits_len(w.buffer as nat, w.bits_in_buf as nat);
        }
        if w.bits_in_buf > 0 {
            let pad: u32 = 8 - w.bits_in_buf;
            w.write_bits(0, pad);
            proof {
                lemma_zero_bits(pad as nat);
                use_type_invariant(&w);
                lemma_byte_bits_len(w.bytes@);
                lemma_nat_bits_len(w.buffer as nat, w.bits_in_buf as nat);
                assert(w.bits().len() == 8 * w.bytes@.len() + w.bits_in_buf);
            }
        }
        proof {
            assert(w.bits() =~= byte_bits(w.bytes@));
            assert(w.bits() =~= start + zero_bits((8 * w.bytes@.len() - start.len()) as nat));
        }
        w.bytes
    }
}

/// The bits of zero, and of one behind zeros.
proof fn lemma_zero_bits(n: nat)
    ensures
        nat_bits(0, n) == zero_bits(n),
        nat_bits(1, n + 1) == zero_bits(n).push(true),
    decreases n,
{
    if n > 0 {
        lemma_zero_bits((n - 1) as nat);
        assert(nat_bits(0, n) =~= zero_bits(n));
    } else {
        assert(nat_bits(0, n) =~= zero_bits(n));
    }
    assert(nat_bits(1, n + 1) =~= nat_bits(0, n).push(true));
}

/// The bits of a number come from the highest to the lowest.
pub proof fn bits_by_weight(v: nat, n: nat, i: int)
    requires
        0 <= i < n,
    ensures
        nat_bits(v, n).len() == n,
        nat_bits(v, n)[i] == (v as int / power2::pow2((n - 1 - i) as nat) as int % 2 == 1),
    decreases n,
{
    lemma_nat_bits_len(v, n);
    lemma_nat_bits_len(v / 2, (n - 1) as nat);
    power2::lemma2_to64();
    if i < n - 1 {
        bits_by_weight(v / 2, (n - 1) as nat, i);
        let k = (n - 2 - i) as nat;
        lemma_pow2_step(k);
        vstd::arithmetic::div_mod::lemma_div_denominator(
            v as int,
            2,
            power2::pow2(k) as int,
        );
    } else {
        assert(v as int / 1 == v);
    }
}

/// Each byte of a stream gives eight bits, the highest first.
pub proof fn bits_of_bytes(data: Seq<u8>, i: int, j: int)
    requires
        0 <= i < data.len(),
        0 <= j < 8,
    ensures
        byte_bits(data).len() == 8 * data.len(),
        byte_bits(data)[8 * i + j] == (data[i] as int / power2::pow2((7 - j) as nat) as int % 2
            == 1),
    decreases data.len(),
{
    let front = data.drop_last();
    lemma_nat_bits_len(data.last() as nat, 8);
    bits_by_weight(data.last() as nat, 8, j);
    if i < front.len() {
        bits_of_bytes(front, i, j);
        assert(front[i] == data[i]);
    } else {
        if front.len() > 0 {
            bits_of_bytes(front, 0, 0);
        }
        assert(byte_bits(front).len() == 8 * front.len());
    }
    assert(byte_bits(data) == byte_bits(front) + nat_bits(data.last() as nat, 8));
}

} // verus!
