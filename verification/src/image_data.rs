//! Image pixels, their axes, and their big-endian bytes.
use crate::casts;
use crate::error::{Error, ErrorView, Result};
use crate::grid;
use crate::header;
use crate::header::Header;
use crate::io_utils;
use crate::io_utils::ByteReader;
use crate::keyword::{HeaderValue, KeywordView, ValueView};
use crate::text;
use crate::types::Bitpix;
use crate::words;
use vstd::prelude::*;

verus! {

/// Raw pixel data storage. Floating-point pixels are held as their IEEE 754 bit
/// patterns.
#[derive(Debug, PartialEq, Eq)]
pub enum PixelData {
    U8(Vec<u8>),
    I16(Vec<i16>),
    I32(Vec<i32>),
    I64(Vec<i64>),
    F32(Vec<u32>),
    F64(Vec<u64>),
}

/// What pixel data stands for: a pixel type and a number for each pixel (its bit
/// pattern, for floating-point pixels).
#[verifier::ext_equal]
pub struct PixelView {
    pub kind: Bitpix,
    pub values: Seq<int>,
}

impl View for PixelData {
    type V = PixelView;

    open spec fn view(&self) -> PixelView {
        match self {
            PixelData::U8(v) => PixelView { kind: Bitpix::U8, values: words::numbers(v@) },
            PixelData::I16(v) => PixelView { kind: Bitpix::I16, values: words::numbers(v@) },
            PixelData::I32(v) => PixelView { kind: Bitpix::I32, values: words::numbers(v@) },
            PixelData::I64(v) => PixelView { kind: Bitpix::I64, values: words::numbers(v@) },
            PixelData::F32(v) => PixelView { kind: Bitpix::F32, values: words::numbers(v@) },
            PixelData::F64(v) => PixelView { kind: Bitpix::F64, values: words::numbers(v@) },
        }
    }
}

impl Clone for PixelData {
    fn clone(&self) -> (r: Self)
        ensures
            r@ == self@,
    {
        let r = match self {
            PixelData::U8(v) => PixelData::U8(v.clone()),
            PixelData::I16(v) => PixelData::I16(v.clone()),
            PixelData::I32(v) => PixelData::I32(v.clone()),
            PixelData::I64(v) => PixelData::I64(v.clone()),
            PixelData::F32(v) => PixelData::F32(v.clone()),
            PixelData::F64(v) => PixelData::F64(v.clone()),
        };
        assert(r@ =~= self@);
        r
    }
}

/// Pixel types whose numbers are signed.
pub open spec fn signed_kind(kind: Bitpix) -> bool {
    kind == Bitpix::I16 || kind == Bitpix::I32 || kind == Bitpix::I64
}

/// Whether every number is one that the pixel type has.
pub open spec fn pixels_valid(p: PixelView) -> bool {
    forall|i: int|
        0 <= i < p.values.len() ==> words::word_holds(
            signed_kind(p.kind),
            p.kind.width(),
            #[trigger] p.values[i],
        )
}

/// The big-endian bytes of pixels.
pub open spec fn pixel_bytes(p: PixelView) -> Seq<u8> {
    words::words_encoded(signed_kind(p.kind), p.kind.width(), p.values)
}

/// The pixels that big-endian bytes hold.
pub open spec fn pixels_of(kind: Bitpix, bytes: Seq<u8>) -> PixelView {
    PixelView { kind, values: words::words_decoded(signed_kind(kind), kind.width(), bytes) }
}

/// A number of bytes, or the largest size where it is more.
pub open spec fn capped(n: int) -> int {
    if n > usize::MAX {
        usize::MAX as int
    } else {
        n
    }
}

/// The pixels of a number of bytes; an error where they are no whole pixels.
pub open spec fn pixels_from(kind: Bitpix, bytes: Seq<u8>) -> std::result::Result<
    PixelView,
    ErrorView,
> {
    let w = kind.width();
    if bytes.len() % w != 0 {
        Err(
            ErrorView::DataSizeMismatch {
                expected: capped((bytes.len() / w + 1) * w as int),
                actual: bytes.len() as int,
            },
        )
    } else {
        Ok(pixels_of(kind, bytes))
    }
}

/// Decoding gives back the pixels that were encoded.
pub proof fn pixels_round_trip(p: PixelView)
    requires
        pixels_valid(p),
    ensures
        pixels_from(p.kind, pixel_bytes(p)) == Ok::<PixelView, ErrorView>(p),
{
    words::words_round_trip(signed_kind(p.kind), p.kind.width(), p.values);
    words::lemma_words_encoded_len(signed_kind(p.kind), p.kind.width(), p.values);
    vstd::arithmetic::div_mod::lemma_mod_multiples_basic(
        p.values.len() as int,
        p.kind.width() as int,
    );
}

/// Encoding gives back the bytes that were decoded.
pub proof fn pixel_bytes_round_trip(kind: Bitpix, bytes: Seq<u8>)
    requires
        bytes.len() % kind.width() == 0,
    ensures
        pixel_bytes(pixels_of(kind, bytes)) == bytes,
{
    words::words_encoded_of_decoded(signed_kind(kind), kind.width(), bytes);
}

impl PixelData {
    /// Every pixel is a number that its type has.
    pub proof fn valid(self)
        ensures
            pixels_valid(self@),
    {
        assert forall|i: int| 0 <= i < self@.values.len() implies words::word_holds(
            signed_kind(self@.kind),
            self@.kind.width(),
            #[trigger] self@.values[i],
        ) by {
            crate::bigendian::lemma_byte_powers();
        }
    }

    pub fn len(&self) -> (r: usize)
        ensures
            r == self@.values.len(),
    {
        match self {
            PixelData::U8(v) => v.len(),
            PixelData::I16(v) => v.len(),
            PixelData::I32(v) => v.len(),
            PixelData::I64(v) => v.len(),
            PixelData::F32(v) => v.len(),
            PixelData::F64(v) => v.len(),
        }
    }

    pub fn is_empty(&self) -> (r: bool)
        ensures
            r == (self@.values.len() == 0),
    {
        self.len() == 0
    }

    pub fn bitpix(&self) -> (r: Bitpix)
        ensures
            r == self@.kind,
    {
        match self {
            PixelData::U8(_) => Bitpix::U8,
            PixelData::I16(_) => Bitpix::I16,
            PixelData::I32(_) => Bitpix::I32,
            PixelData::I64(_) => Bitpix::I64,
            PixelData::F32(_) => Bitpix::F32,
            PixelData::F64(_) => Bitpix::F64,
        }
    }

    /// Size of the big-endian on-disk encoding in bytes (unpadded).
    pub fn byte_len(&self) -> (r: usize)
        requires
            pixel_bytes(self@).len() <= usize::MAX,
        ensures
            r == pixel_bytes(self@).len(),
    {
        proof {
            words::lemma_words_encoded_len(
                signed_kind(self@.kind),
                self@.kind.width(),
                self@.values,
            );
        }
        self.len() * self.bitpix().bytes_per_value()
    }

    /// Convert pixel data to big-endian bytes.
    pub fn to_bytes(&self) -> (r: Vec<u8>)
        ensures
            r@ == pixel_bytes(self@),
    {
        let mut out: Vec<u8> = Vec::new();
        let _ = self.write_to(&mut out);
        assert(out@ =~= pixel_bytes(self@));
        out
    }

    /// Append the big-endian encoding (unpadded).
    pub fn write_to(&self, out: &mut Vec<u8>) -> (r: Result<()>)
        ensures
            r is Ok,
            final(out)@ == old(out)@ + pixel_bytes(self@),
    {
        match self {
            PixelData::U8(v) => words::encode_into(v.as_slice(), out),
            PixelData::I16(v) => words::encode_into(v.as_slice(), out),
            PixelData::I32(v) => words::encode_into(v.as_slice(), out),
            PixelData::I64(v) => words::encode_into(v.as_slice(), out),
            PixelData::F32(v) => words::encode_into(v.as_slice(), out),
            PixelData::F64(v) => words::encode_into(v.as_slice(), out),
        }
        Ok(())
    }

    /// The pixels that big-endian bytes hold.
    fn decode(bitpix: Bitpix, data: &[u8]) -> (r: Self)
        ensures
            r@ == pixels_of(bitpix, data@),
    {
        match bitpix {
            Bitpix::U8 => PixelData::U8(words::decode_vec(data)),
            Bitpix::I16 => PixelData::I16(words::decode_vec(data)),
            Bitpix::I32 => PixelData::I32(words::decode_vec(data)),
            Bitpix::I64 => PixelData::I64(words::decode_vec(data)),
            Bitpix::F32 => PixelData::F32(words::decode_vec(data)),
            Bitpix::F64 => PixelData::F64(words::decode_vec(data)),
        }
    }

    /// Decode big-endian bytes into pixel data.
    pub fn from_bytes(bitpix: Bitpix, data: &[u8]) -> (r: Result<Self>)
        ensures
            match (r, pixels_from(bitpix, data@)) {
                (Ok(p), Ok(q)) => p@ == q,
                (Err(e), Err(f)) => e@ == f,
                _ => false,
            },
    {
        let bpv: usize = bitpix.bytes_per_value();
        let len: usize = data.len();
        if len % bpv != 0 {
            let whole: usize = len / bpv * bpv;
            proof {
                vstd::arithmetic::div_mod::lemma_fundamental_div_mod(len as int, bpv as int);
                assert((len / bpv + 1) * bpv == len / bpv * bpv + bpv) by (nonlinear_arith);
            }
            let expected: usize = match whole.checked_add(bpv) {
                Some(n) => n,
                None => usize::MAX,
            };
            return Err(Error::DataSizeMismatch { expected, actual: len });
        }
        Ok(PixelData::decode(bitpix, data))
    }

    /// Read `n` big-endian values of type `bitpix`.
    pub fn read_from(reader: &mut ByteReader<'_>, bitpix: Bitpix, n: usize) -> (r: Result<Self>)
        ensures
            final(reader).bytes() == old(reader).bytes(),
            match r {
                Ok(p) => {
                    let size = n * bitpix.width();
                    &&& size <= old(reader).rest().len()
                    &&& p@ == pixels_of(bitpix, old(reader).rest().take(size))
                    &&& p@.values.len() == n
                    &&& final(reader).offset() == old(reader).offset() + size
                },
                Err(e) => {
                    &&& e@ == io_utils::eof()
                    &&& n * bitpix.width() > old(reader).rest().len()
                    &&& final(reader).offset() == old(reader).offset()
                },
            },
    {
        let avail: usize = reader.remaining();
        match n.checked_mul(bitpix.bytes_per_value()) {
            Some(size) => match reader.take(size) {
                Some(data) => {
                    proof {
                        vstd::arithmetic::div_mod::lemma_div_by_multiple(
                            n as int,
                            bitpix.width() as int,
                        );
                    }
                    Ok(PixelData::decode(bitpix, data))
                },
                None => Err(io_utils::unexpected_eof()),
            },
            None => Err(io_utils::unexpected_eof()),
        }
    }
}

/// Image data with axes.
#[derive(Debug, PartialEq, Eq)]
pub struct ImageData {
    pub axes: Vec<usize>,
    pub pixels: PixelData,
}

/// What image data stands for.
#[verifier::ext_equal]
pub struct ImageView {
    pub axes: Seq<usize>,
    pub pixels: PixelView,
}

impl View for ImageData {
    type V = ImageView;

    open spec fn view(&self) -> ImageView {
        ImageView { axes: self.axes@, pixels: self.pixels@ }
    }
}

impl Clone for ImageData {
    fn clone(&self) -> (r: Self)
        ensures
            r@ == self@,
    {
        let r = ImageData { axes: self.axes.clone(), pixels: self.pixels.clone() };
        assert(r.axes@ =~= self.axes@);
        r
    }
}

/// The lengths of the axes from `i` on; `name` and the number of an axis name its
/// keyword.
pub open spec fn axes_from(
    h: Seq<KeywordView>,
    name: Seq<char>,
    i: nat,
    naxis: nat,
) -> std::result::Result<Seq<usize>, ErrorView>
    decreases naxis + 1 - i,
{
    if i > naxis {
        Ok(Seq::empty())
    } else {
        match header::required_int(h, name + text::decimal(i as int)) {
            Err(e) => Err(e),
            Ok(n) => match axes_from(h, name, i + 1, naxis) {
                Err(e) => Err(e),
                Ok(t) => Ok(seq![casts::size_of(n)] + t),
            },
        }
    }
}

/// The pixel type and axes that a header describes.
pub open spec fn shape_of(h: Seq<KeywordView>) -> std::result::Result<
    (Bitpix, Seq<usize>),
    ErrorView,
> {
    match header::required_int(h, "BITPIX"@) {
        Err(e) => Err(e),
        Ok(number) => match Bitpix::of(number) {
            None => Err(ErrorView::UnsupportedBitpix(number)),
            Some(kind) => match header::required_int(h, "NAXIS"@) {
                Err(e) => Err(e),
                Ok(naxis) => match axes_from(h, "NAXIS"@, 1, casts::size_of(naxis) as nat) {
                    Err(e) => Err(e),
                    Ok(axes) => Ok((kind, axes)),
                },
            },
        },
    }
}

/// The image that a header and raw bytes describe.
pub open spec fn image_of(h: Seq<KeywordView>, data: Seq<u8>) -> std::result::Result<
    ImageView,
    ErrorView,
> {
    match shape_of(h) {
        Err(e) => Err(e),
        Ok((kind, axes)) => match pixels_from(kind, data) {
            Err(e) => Err(e),
            Ok(pixels) => Ok(ImageView { axes, pixels }),
        },
    }
}

/// The image at the start of the bytes that follow a header.
pub open spec fn image_read(h: Seq<KeywordView>, rest: Seq<u8>) -> std::result::Result<
    ImageView,
    ErrorView,
> {
    match shape_of(h) {
        Err(e) => Err(e),
        Ok((kind, axes)) => {
            let size: int = grid::volume(axes) * kind.width() as int;
            if grid::volume(axes) > usize::MAX {
                Err(ErrorView::InvalidFormat("axis dimensions overflow"@))
            } else if size > rest.len() {
                Err(io_utils::eof())
            } else {
                Ok(ImageView { axes, pixels: pixels_of(kind, rest.take(size)) })
            }
        },
    }
}

/// The bytes of an image's pixels.
pub open spec fn image_size(v: ImageView) -> int {
    v.pixels.values.len() * v.pixels.kind.width() as int
}

/// The list of keywords with the axes of an image set.
pub open spec fn with_axes(h: Seq<KeywordView>, axes: Seq<usize>) -> Seq<KeywordView>
    decreases axes.len(),
{
    if axes.len() == 0 {
        h
    } else {
        header::with_set(
            with_axes(h, axes.drop_last()),
            "NAXIS"@ + text::decimal(axes.len() as int),
            ValueView::Integer((axes.last() as i64) as int),
            None,
        )
    }
}

/// The list of keywords with those of an image set.
pub open spec fn with_image(h: Seq<KeywordView>, v: ImageView) -> Seq<KeywordView> {
    with_axes(
        header::with_set(
            header::with_set(h, "BITPIX"@, ValueView::Integer(v.pixels.kind.number()), None),
            "NAXIS"@,
            ValueView::Integer((v.axes.len() as i64) as int),
            None,
        ),
        v.axes,
    )
}

/// Parse the lengths of axes from a header.
pub(crate) fn axes_from_header(header: &Header, name: &str, naxis: usize) -> (r: Result<Vec<usize>>)
    ensures
        match (r, axes_from(header@, name@, 1, naxis as nat)) {
            (Ok(v), Ok(w)) => v@ == w,
            (Err(e), Err(f)) => e@ == f,
            _ => false,
        },
{
    let mut axes: Vec<usize> = Vec::new();
    let mut i: usize = 0;
    let ghost whole = axes_from(header@, name@, 1, naxis as nat);
    proof {
        match whole {
            Ok(t) => {
                assert(axes@ + t =~= t);
            },
            Err(_) => {},
        }
    }
    while i < naxis
        invariant
            i <= naxis,
            whole == axes_from(header@, name@, 1, naxis as nat),
            whole == (match axes_from(header@, name@, (i + 1) as nat, naxis as nat) {
                Err(e) => Err(e),
                Ok(t) => Ok::<Seq<usize>, ErrorView>(axes@ + t),
            }),
        decreases naxis - i,
    {
        let key: String = text::numbered(name, i + 1);
        let n: usize = match header.require_int(key.as_str()) {
            Ok(n) => casts::usize_of_i64(n),
            Err(e) => return Err(e),
        };
        let ghost before = axes@;
        axes.push(n);
        proof {
            match axes_from(header@, name@, (i + 2) as nat, naxis as nat) {
                Ok(t) => {
                    assert(before + (seq![n] + t) =~= axes@ + t);
                },
                Err(_) => {},
            }
        }
        i += 1;
    }
    assert(axes@ + Seq::<usize>::empty() =~= axes@);
    Ok(axes)
}

impl ImageData {
    pub fn new(axes: Vec<usize>, pixels: PixelData) -> (r: Self)
        ensures
            r@ == (ImageView { axes: axes@, pixels: pixels@ }),
            r.axes == axes,
            r.pixels == pixels,
    {
        ImageData { axes, pixels }
    }

    pub fn bitpix(&self) -> (r: Bitpix)
        ensures
            r == self@.pixels.kind,
    {
        self.pixels.bitpix()
    }

    pub fn num_pixels(&self) -> (r: usize)
        requires
            grid::volume(self@.axes) <= usize::MAX,
        ensures
            r == grid::volume(self@.axes),
    {
        match grid::checked_volume(self.axes.as_slice()) {
            Some(v) => v,
            None => 0,
        }
    }

    /// Width (NAXIS1) if 2D.
    pub fn width(&self) -> (r: Option<usize>)
        ensures
            r == if self@.axes.len() > 0 {
                Some(self@.axes[0])
            } else {
                None
            },
    {
        if self.axes.len() > 0 {
            Some(self.axes[0])
        } else {
            None
        }
    }

    /// Height (NAXIS2) if 2D.
    pub fn height(&self) -> (r: Option<usize>)
        ensures
            r == if self@.axes.len() > 1 {
                Some(self@.axes[1])
            } else {
                None
            },
    {
        if self.axes.len() > 1 {
            Some(self.axes[1])
        } else {
            None
        }
    }

    /// Parse BITPIX and NAXISn from a header.
    fn shape_from_header(header: &Header) -> (r: Result<(Bitpix, Vec<usize>)>)
        ensures
            match (r, shape_of(header@)) {
                (Ok((b, v)), Ok((c, w))) => b == c && v@ == w,
                (Err(e), Err(f)) => e@ == f,
                _ => false,
            },
    {
        let bitpix: Bitpix = match header.require_int("BITPIX") {
            Ok(n) => match Bitpix::from_i64(n) {
                Ok(b) => b,
                Err(e) => return Err(e),
            },
            Err(e) => return Err(e),
        };
        let naxis: usize = match header.require_int("NAXIS") {
            Ok(n) => casts::usize_of_i64(n),
            Err(e) => return Err(e),
        };
        match axes_from_header(header, "NAXIS", naxis) {
            Ok(axes) => Ok((bitpix, axes)),
            Err(e) => Err(e),
        }
    }

    /// Read image data from a header and raw bytes.
    pub fn from_header_and_data(header: &Header, data: &[u8]) -> (r: Result<Self>)
        ensures
            match (r, image_of(header@, data@)) {
                (Ok(p), Ok(q)) => p@ == q,
                (Err(e), Err(f)) => e@ == f,
                _ => false,
            },
    {
        let (bitpix, axes) = match ImageData::shape_from_header(header) {
            Ok(s) => s,
            Err(e) => return Err(e),
        };
        match PixelData::from_bytes(bitpix, data) {
            Ok(pixels) => Ok(ImageData { axes, pixels }),
            Err(e) => Err(e),
        }
    }

    /// Read image data described by `header` directly from `reader`
    /// (unpadded; the caller skips the block padding).
    pub fn read_from(header: &Header, reader: &mut ByteReader<'_>) -> (r: Result<Self>)
        ensures
            final(reader).bytes() == old(reader).bytes(),
            match (r, image_read(header@, old(reader).rest())) {
                (Ok(p), Ok(q)) => p@ == q && final(reader).offset() == old(reader).offset()
                    + image_size(q) && image_size(q) <= old(reader).rest().len(),
                (Err(e), Err(f)) => e@ == f,
                _ => false,
            },
    {
        let (bitpix, axes) = match ImageData::shape_from_header(header) {
            Ok(s) => s,
            Err(e) => return Err(e),
        };
        match grid::checked_volume(axes.as_slice()) {
            Some(n) => match PixelData::read_from(reader, bitpix, n) {
                Ok(pixels) => Ok(ImageData { axes, pixels }),
                Err(e) => Err(e),
            },
            None => Err(Error::InvalidFormat("axis dimensions overflow".to_owned())),
        }
    }

    /// Populate header keywords for this image data.
    pub fn fill_header(&self, header: &mut Header)
        ensures
            final(header)@ == with_image(old(header)@, self@),
    {
        header.set("BITPIX", HeaderValue::Integer(self.bitpix().to_i64()), None);
        header.set("NAXIS", HeaderValue::Integer(self.axes.len() as i64), None);
        let ghost start = header@;
        let mut i: usize = 0;
        assert(self.axes@.take(0) =~= Seq::empty());
        while i < self.axes.len()
            invariant
                i <= self.axes@.len(),
                header@ == with_axes(start, self.axes@.take(i as int)),
            decreases self.axes@.len() - i,
        {
            let key: String = text::numbered("NAXIS", i + 1);
            header.set(key.as_str(), HeaderValue::Integer(self.axes[i] as i64), None);
            i += 1;
            assert(self.axes@.take(i as int).drop_last() =~= self.axes@.take(i - 1));
        }
        assert(self.axes@.take(i as int) =~= self.axes@);
    }
}

/// Bytes that are no whole pixels are refused, and the refusal says how many bytes the next
/// whole number of pixels has.
pub proof fn part_pixels_are_refused(kind: Bitpix, bytes: Seq<u8>)
    requires
        bytes.len() + kind.width() <= usize::MAX,
    ensures
        bytes.len() % kind.width() == 0 <==> pixels_from(kind, bytes) is Ok,
        pixels_from(kind, bytes) matches Err(e) ==> (e matches ErrorView::DataSizeMismatch {
            expected,
            actual,
        } && actual == bytes.len() && expected % kind.width() as int == 0 && actual < expected
            < actual + kind.width()),
{
    let n = bytes.len() as int;
    let w = kind.width() as int;
    let q = n / w;
    vstd::arithmetic::div_mod::lemma_fundamental_div_mod(n, w);
    assert((q + 1) * w == w * q + w) by (nonlinear_arith);
    vstd::arithmetic::div_mod::lemma_mod_multiples_basic(q + 1, w);
}

} // verus!
