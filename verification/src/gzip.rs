//! GZIP_1 and GZIP_2: gzip members around a DEFLATE body, and the byte shuffle
//! that gathers the bytes of equal significance.
use crate::error;
use crate::error::{Error, ErrorView, Result};
use crate::text;
use vstd::prelude::*;

verus! {

/// What `miniz_oxide::deflate::compress_to_vec` makes of data at a level.
pub uninterp spec fn deflated(data: Seq<u8>, level: u8) -> Seq<u8>;

/// What `miniz_oxide::inflate::decompress_to_vec` makes of a DEFLATE body: its data, or, where
/// the body is not valid, the text that spells the error out.
pub uninterp spec fn inflated(body: Seq<u8>) -> std::result::Result<Seq<u8>, Seq<char>>;

/// `miniz_oxide::deflate::compress_to_vec`: the DEFLATE body of the data at a
/// compression level of 0 to 10, which inflates to the data.
pub assume_specification[ miniz_oxide::deflate::compress_to_vec ](
    input: &[u8],
    level: u8,
) -> (r: Vec<u8>)
    requires
        level <= 10,
    ensures
        r@ == deflated(input@, level),
        inflated(r@) is Ok,
        inflated(r@)->Ok_0 == input@,
;

/// `miniz_oxide::inflate::decompress_to_vec`: the data of a DEFLATE body, or, where the body
/// is not valid, the error as its `Debug` form spells it. Both depend on the body alone.
#[verifier::external_body]
fn inflate(body: &[u8]) -> (r: std::result::Result<Vec<u8>, String>)
    ensures
        match r {
            Ok(v) => inflated(body@) is Ok && inflated(body@)->Ok_0 == v@,
            Err(s) => inflated(body@) is Err && inflated(body@)->Err_0 == s@,
        },
{
    match miniz_oxide::inflate::decompress_to_vec(body) {
        Ok(v) => Ok(v),
        Err(e) => Err(format!("{e:?}")),
    }
}

/// One step of the CRC-32 shift register.
pub open spec fn crc_bit(crc: u32) -> u32 {
    if crc & 1 == 1 {
        (crc >> 1) ^ 0xedb8_8320
    } else {
        crc >> 1
    }
}

/// `n` steps of the CRC-32 shift register.
pub open spec fn crc_bits(crc: u32, n: nat) -> u32
    decreases n,
{
    if n == 0 {
        crc
    } else {
        crc_bit(crc_bits(crc, (n - 1) as nat))
    }
}

/// The CRC-32 register after `data`, each byte fed in its low bits.
pub open spec fn crc_register(data: Seq<u8>) -> u32
    decreases data.len(),
{
    if data.len() == 0 {
        0xffff_ffff
    } else {
        crc_bits(crc_register(data.drop_last()) ^ (data.last() as u32), 8)
    }
}

/// CRC32 (gzip/PNG polynomial) for the gzip member trailer.
pub fn gzip_crc32(data: &[u8]) -> (r: u32)
    ensures
        r == !crc_register(data@),
{
    let mut crc: u32 = 0xffff_ffff;
    let mut i: usize = 0;
    assert(data@.take(0) =~= Seq::empty());
    while i < data.len()
        invariant
            i <= data@.len(),
            crc == crc_register(data@.take(i as int)),
        decreases data@.len() - i,
    {
        let ghost before = crc;
        crc = crc ^ (data[i] as u32);
        let ghost fed = crc;
        let mut k: usize = 0;
        while k < 8
            invariant
                k <= 8,
                crc == crc_bits(fed, k as nat),
            decreases 8 - k,
        {
            crc =
            if crc & 1 == 1 {
                (crc >> 1) ^ 0xedb8_8320
            } else {
                crc >> 1
            };
            k += 1;
        }
        i += 1;
        assert(data@.take(i as int).drop_last() =~= data@.take(i - 1));
    }
    assert(data@.take(i as int) =~= data@);
    !crc
}

/// The four bytes of a number, least significant first.
pub open spec fn le_bytes(v: u32) -> Seq<u8> {
    seq![
        (v % 0x100) as u8,
        (v / 0x100 % 0x100) as u8,
        (v / 0x1_0000 % 0x100) as u8,
        (v / 0x100_0000) as u8,
    ]
}

fn push_le(out: &mut Vec<u8>, v: u32)
    ensures
        final(out)@ == old(out)@ + le_bytes(v),
{
    out.push((v % 0x100) as u8);
    out.push((v / 0x100 % 0x100) as u8);
    out.push((v / 0x1_0000 % 0x100) as u8);
    out.push((v / 0x100_0000) as u8);
    assert(out@ =~= old(out)@ + le_bytes(v));
}

/// The header of a gzip member without optional fields.
pub open spec fn plain_header() -> Seq<u8> {
    seq![0x1fu8, 0x8b, 8, 0, 0, 0, 0, 0, 0, 0xff]
}

/// The gzip member of `raw` with the given DEFLATE body.
pub open spec fn gzip_member(raw: Seq<u8>, body: Seq<u8>) -> Seq<u8> {
    plain_header() + body + le_bytes(!crc_register(raw)) + le_bytes(
        (raw.len() % 0x1_0000_0000) as u32,
    )
}

/// The position behind the first zero byte from `p` on (behind the end where
/// there is none).
pub open spec fn after_nul(src: Seq<u8>, p: int) -> int
    decreases src.len() - p,
{
    if 0 <= p < src.len() && src[p] != 0 {
        after_nul(src, p + 1)
    } else {
        p + 1
    }
}

/// Bit `n` of the flags byte of a gzip header.
pub open spec fn flag(src: Seq<u8>, unit: int) -> bool {
    src[3] as int / unit % 2 == 1
}

/// Where the DEFLATE body of a gzip member starts: behind the fixed header and
/// the optional extra field, name, comment and header CRC.
pub open spec fn body_start(src: Seq<u8>) -> int {
    let p1 = if flag(src, 4) {
        12 + src[10] + 0x100 * src[11]
    } else {
        10
    };
    let p2 = if flag(src, 8) {
        after_nul(src, p1)
    } else {
        p1
    };
    let p3 = if flag(src, 16) {
        after_nul(src, p2)
    } else {
        p2
    };
    if flag(src, 2) {
        p3 + 2
    } else {
        p3
    }
}

/// The DEFLATE body of a gzip member: what lies between its header and its
/// 8-byte trailer; `None` where it is no gzip member.
pub open spec fn gzip_body(src: Seq<u8>) -> Option<Seq<u8>> {
    if src.len() < 18 || src[0] != 0x1f || src[1] != 0x8b || src[2] != 8 || body_start(src) + 8
        > src.len() {
        None
    } else {
        Some(src.subrange(body_start(src), src.len() - 8))
    }
}

/// The data of a gzip member.
pub open spec fn gzip_decoded(src: Seq<u8>) -> Option<Seq<u8>> {
    match gzip_body(src) {
        None => None,
        Some(body) => match inflated(body) {
            Ok(data) => Some(data),
            Err(_) => None,
        },
    }
}

/// Why bytes are no gzip member.
pub open spec fn member_fault(src: Seq<u8>) -> ErrorView {
    ErrorView::CompressionError(
        if src.len() < 18 || src[0] != 0x1f || src[1] != 0x8b {
            "GZIP_1 tile is not a valid gzip member (bad magic)"@
        } else if src[2] != 8 {
            "GZIP_1 unsupported compression method "@ + text::decimal(src[2] as int)
        } else {
            "GZIP_1 truncated gzip header"@
        },
    )
}

/// Why bytes have no data of a gzip member.
pub open spec fn gzip_fault(src: Seq<u8>) -> ErrorView {
    match gzip_body(src) {
        None => member_fault(src),
        Some(body) => match inflated(body) {
            Ok(_) => member_fault(src),
            Err(s) => ErrorView::CompressionError("DEFLATE inflate failed: "@ + s),
        },
    }
}

proof fn lemma_after_nul(src: Seq<u8>, p: int)
    requires
        0 <= p,
    ensures
        p + 1 <= after_nul(src, p),
        p <= src.len() ==> after_nul(src, p) <= src.len() + 1,
        p > src.len() ==> after_nul(src, p) == p + 1,
    decreases src.len() - p,
{
    if p < src.len() && src[p] != 0 {
        lemma_after_nul(src, p + 1);
    }
}

fn skip_past_nul(src: &[u8], start: usize) -> (r: Option<usize>)
    requires
        start <= src@.len(),
    ensures
        match r {
            Some(p) => p == after_nul(src@, start as int) && start < p <= src@.len(),
            None => after_nul(src@, start as int) > src@.len(),
        },
{
    let mut pos: usize = start;
    while pos < src.len() && src[pos] != 0
        invariant
            start <= pos <= src@.len(),
            after_nul(src@, pos as int) == after_nul(src@, start as int),
        decreases src@.len() - pos,
    {
        pos += 1;
    }
    if pos == src.len() {
        None
    } else {
        Some(pos + 1)
    }
}

/// Parse and skip an RFC 1952 gzip member header, returning the DEFLATE body
/// (excluding the 8-byte CRC32+ISIZE trailer). Used by [`gzip_inflate`].
pub fn strip_gzip_wrapper<'a>(src: &'a [u8]) -> (r: Result<&'a [u8]>)
    ensures
        match r {
            Ok(body) => gzip_body(src@) == Some(body@),
            Err(e) => e@ == member_fault(src@) && gzip_body(src@) is None,
        },
{
    let n: usize = src.len();
    if n < 18 || src[0] != 0x1f || src[1] != 0x8b {
        return Err(
            Error::CompressionError("GZIP_1 tile is not a valid gzip member (bad magic)".to_owned()),
        );
    }
    if src[2] != 8 {
        return Err(
            Error::CompressionError(
                error::with_number("GZIP_1 unsupported compression method ", src[2] as u64),
            ),
        );
    }
    let flags: u8 = src[3];
    let mut pos: usize = 10;
    if flags / 4 % 2 == 1 {
        let xlen: usize = src[10] as usize + 0x100 * src[11] as usize;
        pos += 2 + xlen;
    }
    let ghost p1 = pos;
    proof {
        lemma_after_nul(src@, p1 as int);
        lemma_after_nul(src@, after_nul(src@, p1 as int));
    }
    if pos > n {
        return Err(truncated());
    }
    if flags / 8 % 2 == 1 {
        match skip_past_nul(src, pos) {
            Some(p) => pos = p,
            None => return Err(truncated()),
        }
    }
    if flags / 16 % 2 == 1 {
        match skip_past_nul(src, pos) {
            Some(p) => pos = p,
            None => return Err(truncated()),
        }
    }
    let skip: usize = if flags / 2 % 2 == 1 {
        2
    } else {
        0
    };
    if n - pos < 8 + skip {
        return Err(truncated());
    }
    pos += skip;
    let body = vstd::slice::slice_subrange(src, pos, n - 8);
    Ok(body)
}

fn truncated() -> (r: Error)
    ensures
        r@ == ErrorView::CompressionError("GZIP_1 truncated gzip header"@),
{
    Error::CompressionError("GZIP_1 truncated gzip header".to_owned())
}

/// Inflate a `GZIP_1` tile.
///
/// `GZIP_1` tiles are full gzip members (RFC 1952: gzip header + DEFLATE body +
/// CRC32/ISIZE trailer). This routine strips the gzip wrapper and runs a raw
/// DEFLATE inflate over the body.
pub fn gzip_inflate(src: &[u8]) -> (r: Result<Vec<u8>>)
    ensures
        match r {
            Ok(v) => gzip_decoded(src@) == Some(v@),
            Err(e) => e@ == gzip_fault(src@) && gzip_decoded(src@) is None,
        },
{
    let body = match strip_gzip_wrapper(src) {
        Ok(b) => b,
        Err(e) => return Err(e),
    };
    match inflate(body) {
        Ok(v) => Ok(v),
        Err(s) => Err(
            Error::CompressionError("DEFLATE inflate failed: ".to_owned().concat(s.as_str())),
        ),
    }
}

/// Taking the wrapper off a gzip member leaves its body.
pub proof fn gzip_body_of_member(raw: Seq<u8>, body: Seq<u8>)
    ensures
        gzip_body(gzip_member(raw, body)) == Some(body),
{
    let m = gzip_member(raw, body);
    assert(m[0] == 0x1f && m[1] == 0x8b && m[2] == 8 && m[3] == 0);
    assert(m.subrange(10, m.len() - 8) =~= body);
}

/// Wrap raw bytes as a single RFC 1952 gzip member (the inverse of
/// [`strip_gzip_wrapper`] + [`gzip_inflate`]): a fixed 10-byte header, a raw DEFLATE
/// body, and the CRC32 + ISIZE trailer.
pub fn gzip_deflate(raw: &[u8]) -> (r: Vec<u8>)
    ensures
        r@ == gzip_member(raw@, deflated(raw@, 6)),
        gzip_decoded(r@) == Some(raw@),
{
    let body: Vec<u8> = miniz_oxide::deflate::compress_to_vec(raw, 6);
    let mut out: Vec<u8> = vec![0x1f, 0x8b, 8, 0, 0, 0, 0, 0, 0, 0xff];
    assert(out@ =~= plain_header());
    out.extend_from_slice(body.as_slice());
    assert(out@ =~= plain_header() + body@);
    push_le(&mut out, gzip_crc32(raw));
    push_le(&mut out, crate::casts::u32_of_u64(raw.len() as u64));
    proof {
        assert(out@ =~= gzip_member(raw@, body@));
        gzip_body_of_member(raw@, body@);
    }
    out
}

/// The bytes of `raw` in planes of equal significance, for values of `b` bytes.
/// Bytes beyond the last whole value are dropped.
pub open spec fn shuffled(raw: Seq<u8>, b: nat) -> Seq<u8> {
    if b <= 1 {
        raw
    } else {
        let n = raw.len() / b;
        Seq::new(n * b, |j: int| raw[(j % n as int) * b + j / n as int])
    }
}

/// The bytes of planes put back together, for values of `b` bytes.
pub open spec fn unshuffled(planes: Seq<u8>, b: nat) -> Seq<u8> {
    if b <= 1 {
        planes
    } else {
        let n = planes.len() / b;
        Seq::new(n * b, |j: int| planes[(j % b as int) * n + j / b as int])
    }
}

proof fn lemma_cell(i: int, n: int, k: int, b: int)
    requires
        0 <= i < n,
        0 <= k < b,
    ensures
        0 <= i * b <= i * b + k < n * b,
        (i * b + k) / b == i,
        (i * b + k) % b == k,
{
    assert(0 <= i * b <= i * b + k < n * b) by (nonlinear_arith)
        requires
            0 <= i < n,
            0 <= k < b,
    ;
    vstd::arithmetic::div_mod::lemma_fundamental_div_mod_converse(i * b + k, b, i, k);
}

proof fn lemma_row_column(j: int, n: int, b: int)
    requires
        0 <= j < n * b,
        b > 0,
    ensures
        0 <= j / b < n,
        0 <= j % b < b,
        j == (j / b) * b + j % b,
{
    vstd::arithmetic::div_mod::lemma_fundamental_div_mod(j, b);
    let q = j / b;
    assert(b * q == q * b) by (nonlinear_arith);
    assert(0 <= q < n) by (nonlinear_arith)
        requires
            0 <= j < n * b,
            j == q * b + j % b,
            0 <= j % b < b,
            b > 0,
    ;
}

/// Putting shuffled values back together gives them back.
pub proof fn unshuffle_inverts_shuffle(raw: Seq<u8>, b: nat)
    requires
        b > 0,
        raw.len() % b == 0,
    ensures
        unshuffled(shuffled(raw, b), b) == raw,
{
    if b > 1 {
        let n = raw.len() / b;
        vstd::arithmetic::div_mod::lemma_fundamental_div_mod(raw.len() as int, b as int);
        assert(raw.len() == n * b) by (nonlinear_arith)
            requires
                raw.len() == b * n,
        ;
        vstd::arithmetic::div_mod::lemma_div_multiples_vanish(n as int, b as int);
        let s = shuffled(raw, b);
        assert(s.len() / b == n) by {
            assert(n * b == b * n) by (nonlinear_arith);
        }
        let u = unshuffled(s, b);
        assert forall|j: int| 0 <= j < raw.len() implies u[j] == raw[j] by {
            lemma_row_column(j, n as int, b as int);
            let i = j / b as int;
            let k = j % b as int;
            lemma_cell(k, b as int, i, n as int);
            assert(b * n == n * b) by (nonlinear_arith);
        }
        assert(u =~= raw);
    }
}

/// Byte-shuffle the big-endian integer stream for `GZIP_2` (the inverse of
/// [`gzip2_unshuffle`]): emit all the most-significant bytes first, then the next, etc.
pub fn gzip2_shuffle(raw: &[u8], bytepix: usize) -> (r: Vec<u8>)
    ensures
        r@ == shuffled(raw@, bytepix as nat),
{
    if bytepix <= 1 {
        return vstd::slice::slice_to_vec(raw);
    }
    let len: usize = raw.len();
    let n: usize = len / bytepix;
    let mut out: Vec<u8> = Vec::new();
    let ghost all = shuffled(raw@, bytepix as nat);
    proof {
        vstd::arithmetic::div_mod::lemma_fundamental_div_mod(raw@.len() as int, bytepix as int);
        assert(n * bytepix <= raw@.len()) by (nonlinear_arith)
            requires
                raw@.len() == bytepix * n + raw@.len() as int % bytepix as int,
                raw@.len() as int % bytepix as int >= 0,
        ;
        assert(0 * n == 0) by (nonlinear_arith);
    }
    let mut k: usize = 0;
    assert(out@ =~= all.take(0));
    while k < bytepix
        invariant
            k <= bytepix,
            bytepix > 1,
            n == raw@.len() / bytepix as nat,
            len == raw@.len(),
            n * bytepix <= len,
            all == shuffled(raw@, bytepix as nat),
            out@.len() == k * n,
            k * n <= n * bytepix,
            out@ == all.take(k * n),
        decreases bytepix - k,
    {
        let mut i: usize = 0;
        while i < n
            invariant
                k < bytepix,
                i <= n,
                bytepix > 1,
                n == raw@.len() / bytepix as nat,
                len == raw@.len(),
            n * bytepix <= len,
                all == shuffled(raw@, bytepix as nat),
                out@.len() == k * n + i,
                k * n + i <= n * bytepix,
                out@ == all.take(k * n + i),
            decreases n - i,
        {
            proof {
                lemma_cell(i as int, n as int, k as int, bytepix as int);
                lemma_cell(k as int, bytepix as int, i as int, n as int);
                assert(bytepix * n == n * bytepix) by (nonlinear_arith);
                assert(all.len() == n * bytepix);
                assert(all[k * n + i] == raw@[i * bytepix + k]);
            }
            out.push(raw[i * bytepix + k]);
            i += 1;
            assert(out@ =~= all.take(k * n + i));
        }
        proof {
            assert((k + 1) * n == k * n + n) by (nonlinear_arith);
            assert((k + 1) * n <= n * bytepix) by (nonlinear_arith)
                requires
                    k + 1 <= bytepix,
                    n >= 0,
            ;
        }
        k += 1;
    }
    proof {
        assert(k * n == n * bytepix) by (nonlinear_arith)
            requires
                k == bytepix,
        ;
        assert(out@ =~= all);
    }
    out
}

/// Undo the byte shuffle of `GZIP_2` to recover the original big-endian integer
/// byte stream.
///
/// `bytepix` is the bytes-per-pixel of the original integers (1/2/4/8). For
/// `bytepix <= 1` the shuffle is a no-op.
pub fn gzip2_unshuffle(planes: &[u8], bytepix: usize) -> (r: Vec<u8>)
    ensures
        r@ == unshuffled(planes@, bytepix as nat),
{
    if bytepix <= 1 {
        return vstd::slice::slice_to_vec(planes);
    }
    let len: usize = planes.len();
    let n: usize = len / bytepix;
    let mut out: Vec<u8> = Vec::new();
    let ghost all = unshuffled(planes@, bytepix as nat);
    proof {
        vstd::arithmetic::div_mod::lemma_fundamental_div_mod(planes@.len() as int, bytepix as int);
        assert(n * bytepix <= planes@.len()) by (nonlinear_arith)
            requires
                planes@.len() == bytepix * n + planes@.len() as int % bytepix as int,
                planes@.len() as int % bytepix as int >= 0,
        ;
        assert(0 * bytepix == 0) by (nonlinear_arith);
    }
    let mut i: usize = 0;
    assert(out@ =~= all.take(0));
    while i < n
        invariant
            i <= n,
            bytepix > 1,
            n == planes@.len() / bytepix as nat,
            len == planes@.len(),
            n * bytepix <= len,
            all == unshuffled(planes@, bytepix as nat),
            out@.len() == i * bytepix,
            i * bytepix <= n * bytepix,
            out@ == all.take(i * bytepix),
        decreases n - i,
    {
        let mut k: usize = 0;
        while k < bytepix
            invariant
                i < n,
                k <= bytepix,
                bytepix > 1,
                n == planes@.len() / bytepix as nat,
                len == planes@.len(),
            n * bytepix <= len,
                all == unshuffled(planes@, bytepix as nat),
                out@.len() == i * bytepix + k,
                i * bytepix + k <= n * bytepix,
                out@ == all.take(i * bytepix + k),
            decreases bytepix - k,
        {
            proof {
                lemma_cell(i as int, n as int, k as int, bytepix as int);
                lemma_cell(k as int, bytepix as int, i as int, n as int);
                assert(bytepix * n == n * bytepix) by (nonlinear_arith);
                assert(all[i * bytepix + k] == planes@[k * n + i]);
            }
            out.push(planes[k * n + i]);
            k += 1;
            assert(out@ =~= all.take(i * bytepix + k));
            proof {
                assert(i * bytepix + k <= n * bytepix) by (nonlinear_arith)
                    requires
                        i + 1 <= n,
                        k <= bytepix,
                ;
            }
        }
        proof {
            assert((i + 1) * bytepix == i * bytepix + bytepix) by (nonlinear_arith);
        }
        i += 1;
    }
    assert(out@ =~= all);
    out
}

/// The optional fields of the header of a gzip member.
pub struct MemberFields {
    pub text: bool,
    pub extra: Option<Seq<u8>>,
    pub name: Option<Seq<u8>>,
    pub comment: Option<Seq<u8>>,
    pub header_crc: Option<(u8, u8)>,
}

/// A field of bytes other than zero, with a zero behind them; nothing where it is missing.
pub open spec fn ended_field(field: Option<Seq<u8>>) -> Seq<u8> {
    match field {
        Some(s) => s.push(0),
        None => Seq::empty(),
    }
}

/// The flags byte of a gzip header: 1 for text, 2 for a header CRC, 4 for an extra field, 8 for
/// a name and 16 for a comment.
pub open spec fn member_flags(f: MemberFields) -> u8 {
    ((if f.text {
        1int
    } else {
        0
    }) + (if f.header_crc is Some {
        2int
    } else {
        0
    }) + (if f.extra is Some {
        4int
    } else {
        0
    }) + (if f.name is Some {
        8int
    } else {
        0
    }) + (if f.comment is Some {
        16int
    } else {
        0
    })) as u8
}

/// The extra field with its length before it.
pub open spec fn extra_field(extra: Option<Seq<u8>>) -> Seq<u8> {
    match extra {
        Some(s) => seq![(s.len() % 0x100) as u8, (s.len() / 0x100) as u8] + s,
        None => Seq::empty(),
    }
}

/// The header CRC.
pub open spec fn crc_field(crc: Option<(u8, u8)>) -> Seq<u8> {
    match crc {
        Some((a, b)) => seq![a, b],
        None => Seq::empty(),
    }
}

/// The header of a gzip member: ten bytes, of which the last six are the time, flags of the
/// compressor and the system, and the optional fields.
pub open spec fn member_header(f: MemberFields, time: Seq<u8>) -> Seq<u8> {
    seq![0x1fu8, 0x8b, 8, member_flags(f)] + time + extra_field(f.extra) + ended_field(f.name)
        + ended_field(f.comment) + crc_field(f.header_crc)
}

proof fn lemma_after_field(src: Seq<u8>, at: int, s: Seq<u8>)
    requires
        0 <= at,
        at + s.len() < src.len(),
        src.subrange(at, at + s.len() + 1) == s.push(0),
        forall|i: int| 0 <= i < s.len() ==> #[trigger] s[i] != 0,
    ensures
        after_nul(src, at) == at + s.len() + 1,
    decreases s.len(),
{
    let part = src.subrange(at, at + s.len() + 1);
    if s.len() == 0 {
        assert(part[0] == src[at]);
        assert(s.push(0)[0] == 0);
    } else {
        let t = s.skip(1);
        assert(part[0] == src[at]);
        assert(s.push(0)[0] == s[0]);
        assert(src.subrange(at + 1, at + 1 + t.len() + 1) =~= t.push(0)) by {
            assert forall|i: int| 0 <= i < t.len() + 1 implies src[at + 1 + i] == t.push(0)[i] by {
                assert(part[i + 1] == src[at + 1 + i]);
                assert(s.push(0)[i + 1] == t.push(0)[i]);
            }
        }
        assert forall|i: int| 0 <= i < t.len() implies #[trigger] t[i] != 0 by {
            assert(t[i] == s[i + 1]);
        }
        lemma_after_field(src, at + 1, t);
    }
}

/// The flags byte says which fields are there.
proof fn lemma_member_flags(f: MemberFields)
    ensures
        (member_flags(f) as int / 4 % 2 == 1) == (f.extra is Some),
        (member_flags(f) as int / 8 % 2 == 1) == (f.name is Some),
        (member_flags(f) as int / 16 % 2 == 1) == (f.comment is Some),
        (member_flags(f) as int / 2 % 2 == 1) == (f.header_crc is Some),
{
}

/// Taking the wrapper off a gzip member leaves its body, whatever optional fields its header
/// has and whatever its trailer of eight bytes holds.
pub proof fn body_behind_fields(f: MemberFields, time: Seq<u8>, body: Seq<u8>, trailer: Seq<u8>)
    requires
        time.len() == 6,
        trailer.len() == 8,
        f.extra matches Some(s) ==> s.len() < 0x1_0000,
        f.name matches Some(s) ==> forall|i: int| 0 <= i < s.len() ==> #[trigger] s[i] != 0,
        f.comment matches Some(s) ==> forall|i: int| 0 <= i < s.len() ==> #[trigger] s[i] != 0,
    ensures
        gzip_body(member_header(f, time) + body + trailer) == Some(body),
{
    let h0 = seq![0x1fu8, 0x8b, 8, member_flags(f)] + time;
    let h1 = h0 + extra_field(f.extra);
    let h2 = h1 + ended_field(f.name);
    let h3 = h2 + ended_field(f.comment);
    let head = h3 + crc_field(f.header_crc);
    assert(head == member_header(f, time));
    let src = head + body + trailer;
    assert(src[0] == 0x1f && src[1] == 0x8b && src[2] == 8 && src[3] == member_flags(f));
    lemma_member_flags(f);
    let p1 = h1.len() as int;
    if let Some(s) = f.extra {
        let e = extra_field(f.extra);
        assert(h1[10] == e[0] && h1[11] == e[1]);
        assert(src[10] == h1[10] && src[11] == h1[11]);
        assert(s.len() == s.len() % 0x100 + 0x100 * (s.len() / 0x100));
        assert(12 + src[10] + 0x100 * src[11] == p1);
    }
    let p2 = h2.len() as int;
    if let Some(s) = f.name {
        assert(src.subrange(p1, p1 + s.len() + 1) =~= s.push(0)) by {
            assert(h2.subrange(p1, p2) =~= s.push(0));
            assert(src.subrange(p1, p2) =~= h2.subrange(p1, p2));
        }
        lemma_after_field(src, p1, s);
    }
    let p3 = h3.len() as int;
    if let Some(s) = f.comment {
        assert(src.subrange(p2, p2 + s.len() + 1) =~= s.push(0)) by {
            assert(h3.subrange(p2, p3) =~= s.push(0));
            assert(src.subrange(p2, p3) =~= h3.subrange(p2, p3));
        }
        lemma_after_field(src, p2, s);
    }
    assert(body_start(src) == head.len());
    assert(src.subrange(head.len() as int, src.len() - 8) =~= body);
}

/// Eight steps of the shift register move the bits above the lowest eight down unchanged.
proof fn lemma_crc_byte(x: u32, high: u32)
    requires
        high % 0x100 == 0,
    ensures
        crc_bits(x ^ high, 8) == crc_bits(x, 8) ^ (high >> 8),
{
    assert(high & 0xff == 0) by (bit_vector)
        requires
            high % 0x100 == 0,
    ;
    reveal_with_fuel(crc_bits, 9);
    let x1 = crc_bit(x);
    let x2 = crc_bit(x1);
    let x3 = crc_bit(x2);
    let x4 = crc_bit(x3);
    let x5 = crc_bit(x4);
    let x6 = crc_bit(x5);
    let x7 = crc_bit(x6);
    assert((high >> 1) & 1 == 0 && (high >> 2) & 1 == 0 && (high >> 3) & 1 == 0 && (high >> 4) & 1
        == 0 && (high >> 5) & 1 == 0 && (high >> 6) & 1 == 0 && (high >> 7) & 1 == 0 && high & 1
        == 0 && (high >> 1) >> 1 == high >> 2 && (high >> 2) >> 1 == high >> 3 && (high >> 3) >> 1
        == high >> 4 && (high >> 4) >> 1 == high >> 5 && (high >> 5) >> 1 == high >> 6 && (high
        >> 6) >> 1 == high >> 7 && (high >> 7) >> 1 == high >> 8) by (bit_vector)
        requires
            high & 0xff == 0,
    ;
    lemma_crc_step(x, high);
    lemma_crc_step(x1, high >> 1);
    lemma_crc_step(x2, high >> 2);
    lemma_crc_step(x3, high >> 3);
    lemma_crc_step(x4, high >> 4);
    lemma_crc_step(x5, high >> 5);
    lemma_crc_step(x6, high >> 6);
    lemma_crc_step(x7, high >> 7);
}

/// A bit pattern whose lowest bit is not set only moves down.
proof fn lemma_crc_step(x: u32, high: u32)
    requires
        high & 1 == 0,
    ensures
        crc_bit(x ^ high) == crc_bit(x) ^ (high >> 1),
{
    assert((x ^ high) & 1 == x & 1) by (bit_vector)
        requires
            high & 1 == 0,
    ;
    assert((x ^ high) >> 1 == (x >> 1) ^ (high >> 1)) by (bit_vector);
    let a = x >> 1;
    let b = high >> 1;
    assert((a ^ b) ^ 0xedb8_8320 == (a ^ 0xedb8_8320) ^ b) by (bit_vector);
}

/// The register behind a byte more.
proof fn lemma_register_push(data: Seq<u8>, b: u8)
    ensures
        crc_register(data.push(b)) == crc_bits(crc_register(data) ^ (b as u32), 8),
{
    assert(data.push(b).drop_last() =~= data);
}

/// A byte and the bits above it, fed together.
proof fn lemma_crc_feed(r: u32, w: u32, b: u8)
    requires
        b == w % 0x100,
    ensures
        crc_bits(r ^ w, 8) == crc_bits(r ^ (b as u32), 8) ^ (w >> 8),
{
    let low = b as u32;
    let high = w ^ low;
    assert(high % 0x100 == 0 && r ^ w == (r ^ low) ^ high && high >> 8 == w >> 8) by (bit_vector)
        requires
            low == w % 0x100,
            high == w ^ low,
    ;
    lemma_crc_byte(r ^ low, high);
}

/// The first 32 steps of the register of an empty message.
proof fn lemma_crc_ones()
    ensures
        crc_bits(crc_bits(crc_bits(crc_bits(0xffff_ffff, 8), 8), 8), 8) == 0xdebb_20e3,
{
    reveal_with_fuel(crc_bits, 9);
    assert(crc_bit(crc_bit(crc_bit(crc_bit(0xffffffffu32)))) == 0xb2420de3) by (bit_vector);
    assert(crc_bit(crc_bit(crc_bit(crc_bit(0xb2420de3u32)))) == 0x2dfd1072) by (bit_vector);
    assert(crc_bit(crc_bit(crc_bit(crc_bit(0x2dfd1072u32)))) == 0x39b1f1cf) by (bit_vector);
    assert(crc_bit(crc_bit(crc_bit(crc_bit(0x39b1f1cfu32)))) == 0xbe26ed00) by (bit_vector);
    assert(crc_bit(crc_bit(crc_bit(crc_bit(0xbe26ed00u32)))) == 0xbe26ed0) by (bit_vector);
    assert(crc_bit(crc_bit(crc_bit(crc_bit(0xbe26ed0u32)))) == 0xbe26ed) by (bit_vector);
    assert(crc_bit(crc_bit(crc_bit(crc_bit(0xbe26edu32)))) == 0x86d830ba) by (bit_vector);
    assert(crc_bit(crc_bit(crc_bit(crc_bit(0x86d830bau32)))) == 0xdebb20e3) by (bit_vector);
}

/// The CRC-32 of a message and of its own CRC-32 behind it, least significant byte first, is
/// the same for every message.
pub proof fn crc_residue(data: Seq<u8>)
    ensures
        crc_register(data + le_bytes(!crc_register(data))) == 0xdebb_20e3,
{
    let r = crc_register(data);
    let w = !r;
    let bytes = le_bytes(w);
    assert(r ^ w == 0xffff_ffff) by (bit_vector)
        requires
            w == !r,
    ;
    let d1 = data.push(bytes[0]);
    let d2 = d1.push(bytes[1]);
    let d3 = d2.push(bytes[2]);
    let d4 = d3.push(bytes[3]);
    assert(data + bytes =~= d4);
    lemma_register_push(data, bytes[0]);
    lemma_register_push(d1, bytes[1]);
    lemma_register_push(d2, bytes[2]);
    lemma_register_push(d3, bytes[3]);
    let w1 = w >> 8;
    let w2 = w1 >> 8;
    let w3 = w2 >> 8;
    assert(w1 == w / 0x100 && w2 == w / 0x1_0000 && w3 == w / 0x100_0000 && w3 >> 8 == 0)
        by (bit_vector)
        requires
            w1 == w >> 8,
            w2 == w1 >> 8,
            w3 == w2 >> 8,
    ;
    let r1 = crc_register(d1);
    let r2 = crc_register(d2);
    let r3 = crc_register(d3);
    let r4 = crc_register(d4);
    lemma_crc_feed(r, w, bytes[0]);
    lemma_crc_feed(r1, w1, bytes[1]);
    lemma_crc_feed(r2, w2, bytes[2]);
    lemma_crc_feed(r3, w3, bytes[3]);
    assert(r4 ^ 0 == r4) by (bit_vector);
    lemma_crc_ones();
}

/// Shuffled values are in planes, the most significant first: byte `k` of value `i` of `n` is at
/// `k * n + i`.
pub proof fn planes_of_bytes(raw: Seq<u8>, b: nat, i: int, k: int)
    requires
        b > 0,
        0 <= i < raw.len() / b,
        0 <= k < b,
    ensures
        ({
            let n = raw.len() as int / b as int;
            &&& 0 <= k * n + i < shuffled(raw, b).len()
            &&& shuffled(raw, b)[k * n + i] == raw[i * b + k]
        }),
{
    let n = raw.len() as int / b as int;
    lemma_cell(k, b as int, i, n);
    lemma_cell(i, n, k, b as int);
    vstd::arithmetic::div_mod::lemma_fundamental_div_mod(raw.len() as int, b as int);
    assert(b * n == n * b) by (nonlinear_arith);
    if b == 1 {
        assert(k * n == 0) by (nonlinear_arith)
            requires
                k == 0,
        ;
        assert(i * b == i) by (nonlinear_arith)
            requires
                b == 1,
        ;
    }
}

/// A number in the order of its weight: four bytes, the lowest first.
pub open spec fn le_value(s: Seq<u8>) -> int {
    s[0] + 0x100 * s[1] + 0x1_0000 * s[2] + 0x100_0000 * s[3]
}

/// A gzip member ends in eight bytes behind its body, the CRC-32 of what was compressed, whose
/// register is inverted at the end, and its length in 32 bits, both lowest byte first.
pub proof fn trailer_of_member(raw: Seq<u8>, body: Seq<u8>)
    ensures
        ({
            let m = gzip_member(raw, body);
            let n = m.len() as int;
            &&& n == 10 + body.len() + 8
            &&& m.subrange(10, n - 8) == body
            &&& le_value(m.subrange(n - 8, n - 4)) + crc_register(raw) == 0xffff_ffff
            &&& le_value(m.subrange(n - 4, n)) == raw.len() % 0x1_0000_0000
        }),
{
    let m = gzip_member(raw, body);
    let n = m.len() as int;
    let r = crc_register(raw);
    let crc = !r;
    assert(crc + r == 0xffff_ffff) by (bit_vector)
        requires
            crc == !r,
    ;
    assert(m.subrange(10, n - 8) =~= body);
    assert(m.subrange(n - 8, n - 4) =~= le_bytes(crc));
    assert(m.subrange(n - 4, n) =~= le_bytes((raw.len() % 0x1_0000_0000) as u32));
    lemma_le_value(crc);
    lemma_le_value((raw.len() % 0x1_0000_0000) as u32);
}

proof fn lemma_le_value(v: u32)
    ensures
        le_value(le_bytes(v)) == v,
{
}

} // verus!
