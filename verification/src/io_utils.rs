//! Block-aligned reading and writing of byte buffers.
use crate::error::{Error, ErrorView, Result};
use crate::types::BLOCK_SIZE;
use vstd::prelude::*;

verus! {

/// `n` rounded up to a multiple of the block size.
pub open spec fn padded(n: int) -> int {
    (n + BLOCK_SIZE - 1) / (BLOCK_SIZE as int) * BLOCK_SIZE
}

/// `data` followed by as many `fill` bytes as reach the next block boundary.
pub open spec fn padded_with(data: Seq<u8>, fill: u8) -> Seq<u8> {
    data + Seq::new((padded(data.len() as int) - data.len()) as nat, |i: int| fill)
}

/// Rounding up gives the least block multiple that is not below `n`.
pub proof fn padded_is_least_multiple(n: int)
    requires
        n >= 0,
    ensures
        padded(n) % (BLOCK_SIZE as int) == 0,
        n <= padded(n) < n + BLOCK_SIZE,
        padded(n) == 0 <==> n == 0,
{
}

/// A position in a byte buffer that is read from front to back.
pub struct ByteReader<'a> {
    data: &'a [u8],
    pos: usize,
}

impl<'a> ByteReader<'a> {
    #[verifier::type_invariant]
    spec fn in_bounds(self) -> bool {
        self.pos <= self.data@.len()
    }

    /// The whole buffer.
    pub closed spec fn bytes(self) -> Seq<u8> {
        self.data@
    }

    /// Bytes consumed so far.
    pub closed spec fn offset(self) -> nat {
        self.pos as nat
    }

    /// Bytes not yet consumed.
    pub open spec fn rest(self) -> Seq<u8> {
        self.bytes().skip(self.offset() as int)
    }

    pub fn new(data: &'a [u8]) -> (r: Self)
        ensures
            r.bytes() == data@,
            r.offset() == 0,
    {
        ByteReader { data, pos: 0 }
    }

    /// Bytes consumed so far.
    pub fn position(&self) -> (r: usize)
        ensures
            r == self.offset(),
            r <= self.bytes().len(),
    {
        proof {
            use_type_invariant(self);
        }
        self.pos
    }

    /// Bytes left to read.
    pub fn remaining(&self) -> (r: usize)
        ensures
            r == self.bytes().len() - self.offset(),
            r == self.rest().len(),
    {
        proof {
            use_type_invariant(self);
        }
        self.data.len() - self.pos
    }

    /// Where a skip over `n` bytes ends: at the end of the buffer at most.
    pub open spec fn offset_after(self, n: int) -> int {
        if self.offset() + n <= self.bytes().len() {
            self.offset() + n
        } else {
            self.bytes().len() as int
        }
    }

    /// Move over the next `n` bytes, to the end of the buffer at most.
    pub fn skip(&mut self, n: usize)
        ensures
            final(self).bytes() == old(self).bytes(),
            final(self).offset() == old(self).offset_after(n as int),
    {
        proof {
            use_type_invariant(&*self);
        }
        if n > self.data.len() - self.pos {
            self.pos = self.data.len();
        } else {
            self.pos = self.pos + n;
        }
    }

    /// Take the next `n` bytes, or `None` if fewer are left (then nothing is
    /// consumed).
    pub fn take(&mut self, n: usize) -> (r: Option<&'a [u8]>)
        ensures
            final(self).bytes() == old(self).bytes(),
            match r {
                Some(s) => n <= old(self).rest().len() && s@ == old(self).rest().take(n as int)
                    && final(self).offset() == old(self).offset() + n,
                None => n > old(self).rest().len() && final(self).offset() == old(self).offset(),
            },
    {
        proof {
            use_type_invariant(&*self);
        }
        if n > self.data.len() - self.pos {
            return None;
        }
        let start: usize = self.pos;
        let s = vstd::slice::slice_subrange(self.data, start, start + n);
        self.pos = start + n;
        proof {
            assert(s@ =~= old(self).rest().take(n as int));
        }
        Some(s)
    }
}

/// The error for input that ends before the bytes that were asked for.
pub open spec fn eof() -> ErrorView {
    ErrorView::Io("failed to fill whole buffer"@)
}

/// The error for input that ends before the bytes that were asked for.
pub fn unexpected_eof() -> (r: Error)
    ensures
        r@ == eof(),
{
    Error::Io("failed to fill whole buffer".to_owned())
}

/// Read exactly `n` bytes of data, then skip padding to next block boundary.
pub fn read_data_block(reader: &mut ByteReader<'_>, n: usize) -> (r: Result<Vec<u8>>)
    ensures
        final(reader).bytes() == old(reader).bytes(),
        match r {
            Ok(v) => padded(n as int) <= old(reader).rest().len() && v@ == old(reader).rest().take(
                n as int,
            ) && final(reader).offset() == old(reader).offset() + padded(n as int),
            Err(e) => e@ == eof() && padded(n as int) > old(reader).rest().len()
                && final(reader).offset() == old(reader).offset(),
        },
{
    if n == 0 {
        assert(old(reader).rest().take(0) =~= Seq::<u8>::empty());
        return Ok(Vec::new());
    }
    let avail: usize = reader.remaining();
    if n > avail || avail - n < padded_gap(n) {
        return Err(unexpected_eof());
    }
    let total: usize = n + padded_gap(n);
    match reader.take(total) {
        Some(s) => {
            let v = vstd::slice::slice_to_vec(vstd::slice::slice_subrange(s, 0, n));
            assert(v@ =~= old(reader).rest().take(n as int));
            Ok(v)
        },
        None => Err(unexpected_eof()),
    }
}

/// Bytes of padding that follow `n` bytes of data.
pub fn padded_gap(n: usize) -> (r: usize)
    ensures
        r == padded(n as int) - n,
        r < BLOCK_SIZE,
{
    let remainder: usize = n % BLOCK_SIZE;
    if remainder == 0 {
        0
    } else {
        BLOCK_SIZE - remainder
    }
}

/// Write data bytes, then pad with zeros to next block boundary.
pub fn write_data_block(out: &mut Vec<u8>, data: &[u8]) -> (r: Result<()>)
    ensures
        r is Ok,
        final(out)@ == old(out)@ + padded_with(data@, 0),
{
    if data.len() == 0 {
        assert(final(out)@ =~= old(out)@ + padded_with(data@, 0));
        return Ok(());
    }
    out.extend_from_slice(data);
    assert(out@ =~= old(out)@ + data@);
    let r = write_padding(out, data.len(), 0);
    assert(out@ =~= old(out)@ + padded_with(data@, 0));
    r
}

/// Write the padding that follows `data_len` bytes of data so the total
/// reaches the next block boundary. `fill` is 0 for images and binary
/// tables, and ASCII blank (0x20) for ASCII tables, per the standard.
pub fn write_padding(out: &mut Vec<u8>, data_len: usize, fill: u8) -> (r: Result<()>)
    requires
        fill == 0 || fill == 0x20,
    ensures
        r is Ok,
        final(out)@ == old(out)@ + Seq::new(
            (padded(data_len as int) - data_len) as nat,
            |i: int| fill,
        ),
{
    let padding: usize = padded_gap(data_len);
    let mut i: usize = 0;
    while i < padding
        invariant
            i <= padding,
            out@ == old(out)@ + Seq::new(i as nat, |j: int| fill),
        decreases padding - i,
    {
        out.push(fill);
        i += 1;
        assert(out@ =~= old(out)@ + Seq::new(i as nat, |j: int| fill));
    }
    Ok(())
}

/// Fill a buffer up to a block boundary.
pub fn write_padding_after(out: &mut Vec<u8>, fill: u8)
    requires
        fill == 0 || fill == 0x20,
    ensures
        final(out)@ == padded_with(old(out)@, fill),
        final(out)@.len() % 2880 == 0,
{
    let n: usize = out.len();
    let _ = write_padding(out, n, fill);
}

/// Skip the block padding that follows `data_len` bytes of data. Input that
/// ends inside the padding is skipped to its end.
pub fn skip_padding(reader: &mut ByteReader<'_>, data_len: usize) -> (r: Result<()>)
    ensures
        r is Ok,
        final(reader).bytes() == old(reader).bytes(),
        final(reader).offset() == old(reader).offset_after(padded(data_len as int) - data_len),
{
    reader.skip(padded_gap(data_len));
    Ok(())
}

/// Skip over `n` data bytes plus padding to next block boundary. Input that
/// ends earlier is skipped to its end.
pub fn skip_data_block(reader: &mut ByteReader<'_>, n: usize) -> (r: Result<()>)
    ensures
        r is Ok,
        final(reader).bytes() == old(reader).bytes(),
        final(reader).offset() == old(reader).offset_after(padded(n as int)),
{
    reader.skip(n);
    reader.skip(padded_gap(n));
    Ok(())
}

/// Pad data with zeros to the next BLOCK_SIZE boundary. Returns the data as-is
/// if already aligned, or an empty vec if input is empty.
pub fn pad_to_block(data: &[u8]) -> (r: Vec<u8>)
    ensures
        r@ == padded_with(data@, 0),
{
    let mut out: Vec<u8> = Vec::new();
    let _ = write_data_block(&mut out, data);
    assert(out@ =~= padded_with(data@, 0));
    out
}

/// Round up to the next multiple of BLOCK_SIZE.
pub fn padded_size(n: usize) -> (r: usize)
    requires
        padded(n as int) <= usize::MAX,
    ensures
        r == padded(n as int),
{
    n + padded_gap(n)
}

/// What `write_data_block` wrote, `read_data_block` reads back, and the reader
/// ends on the next block boundary.
pub proof fn block_round_trip(data: Seq<u8>, after: Seq<u8>)
    ensures
        ({
            let rest = padded_with(data, 0) + after;
            &&& padded(data.len() as int) <= rest.len()
            &&& rest.take(data.len() as int) == data
            &&& rest.skip(padded(data.len() as int)) == after
        }),
{
    let rest = padded_with(data, 0) + after;
    assert(rest.take(data.len() as int) =~= data);
    assert(rest.skip(padded(data.len() as int)) =~= after);
}

} // verus!
