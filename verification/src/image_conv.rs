//! Conversion of images to and from the gray images of the `image` crate.
use crate::error::{Error, ErrorView, Result};
use crate::image_data::{ImageData, ImageView, PixelData, PixelView};
use crate::types::Bitpix;
use crate::words;
use vstd::prelude::*;

verus! {

/// An image of the `image` crate: a buffer of samples of one of several pixel types.
#[verifier::external_type_specification]
#[verifier::external_body]
pub struct ExDynamicImage(image::DynamicImage);

/// The samples in the buffer of a gray image, first row first.
pub uninterp spec fn gray_levels(img: image::DynamicImage) -> Seq<int>;

/// Three numbers that describe an image: the bits of one sample where it is a gray
/// image without alpha (8 or 16), zero where it is not; its width; its height.
pub uninterp spec fn gray_form(img: image::DynamicImage) -> Seq<int>;

/// The samples of an image that `DynamicImage::to_luma16` turned into 16-bit gray.
pub uninterp spec fn luma16_levels(img: image::DynamicImage) -> Seq<int>;

/// `ImageBuffer::from_raw` of the `image` crate with 8-bit gray pixels, as a
/// `DynamicImage`: the image whose buffer is `data`, or `None` where the buffer is
/// shorter than the dimensions ask for. A longer buffer is kept as it is.
#[verifier::external_body]
fn gray8_image(width: u32, height: u32, data: Vec<u8>) -> (r: Option<image::DynamicImage>)
    ensures
        match r {
            Some(img) => width * height <= data@.len() && gray_form(img) == seq![
                8,
                width as int,
                height as int,
            ] && gray_levels(img) == words::numbers(data@),
            None => width * height > data@.len(),
        },
{
    image::GrayImage::from_raw(width, height, data).map(image::DynamicImage::ImageLuma8)
}

/// `ImageBuffer::from_raw` of the `image` crate with 16-bit gray pixels, as a
/// `DynamicImage`: the image whose buffer is `data`, or `None` where the buffer is
/// shorter than the dimensions ask for. A longer buffer is kept as it is.
#[verifier::external_body]
fn gray16_image(width: u32, height: u32, data: Vec<u16>) -> (r: Option<image::DynamicImage>)
    ensures
        match r {
            Some(img) => width * height <= data@.len() && gray_form(img) == seq![
                16,
                width as int,
                height as int,
            ] && gray_levels(img) == levels_of(data@),
            None => width * height > data@.len(),
        },
{
    image::ImageBuffer::<image::Luma<u16>, Vec<u16>>::from_raw(width, height, data).map(
        image::DynamicImage::ImageLuma16,
    )
}

/// The variant `ImageLuma8` of `DynamicImage`, with `ImageBuffer::dimensions` and
/// `ImageBuffer::as_raw`: width, height and buffer of an 8-bit gray image; `None` for
/// any other.
#[verifier::external_body]
fn gray8_parts(img: &image::DynamicImage) -> (r: Option<(u32, u32, Vec<u8>)>)
    ensures
        match r {
            Some((w, h, data)) => gray_form(*img) == seq![8, w as int, h as int] && gray_levels(
                *img,
            ) == words::numbers(data@),
            None => gray_form(*img)[0] != 8,
        },
{
    match img {
        image::DynamicImage::ImageLuma8(g) => Some((g.width(), g.height(), g.as_raw().clone())),
        _ => None,
    }
}

/// `DynamicImage::to_luma16` of the `image` crate, with `ImageBuffer::dimensions` and
/// `ImageBuffer::into_raw`: width, height and buffer of the image as 16-bit gray. The
/// dimensions are those of the image; an image that is 16-bit gray is copied.
#[verifier::external_body]
fn gray16_parts(img: &image::DynamicImage) -> (r: (u32, u32, Vec<u16>))
    ensures
        gray_form(*img) == seq![gray_form(*img)[0], r.0 as int, r.1 as int],
        levels_of(r.2@) == luma16_levels(*img),
        gray_form(*img)[0] == 16 ==> levels_of(r.2@) == gray_levels(*img),
{
    let g = img.to_luma16();
    (g.width(), g.height(), g.into_raw())
}

/// 16-bit levels as numbers.
pub open spec fn levels_of(v: Seq<u16>) -> Seq<int> {
    Seq::new(v.len(), |i: int| v[i] as int)
}

/// How the pixels of an image become 16-bit gray levels.
#[derive(Debug)]
pub enum Shading {
    /// 16-bit pixels hold unsigned values less 32768.
    Unsigned,
    /// The gray levels of the scaled pixels.
    Levels(Vec<u16>),
}

/// Signed 16-bit values plus 32768.
pub open spec fn raised(values: Seq<int>) -> Seq<int> {
    Seq::new(values.len(), |i: int| values[i] + 32768)
}

/// Unsigned 16-bit values less 32768.
pub open spec fn lowered(values: Seq<int>) -> Seq<int> {
    Seq::new(values.len(), |i: int| values[i] - 32768)
}

/// The gray levels that an image is shown with, and their bits; `None` where the
/// shading does not suit the pixel type.
pub open spec fn shown(pixels: PixelView, shading: Shading) -> Option<(int, Seq<int>)> {
    if pixels.kind == Bitpix::U8 {
        Some((8, pixels.values))
    } else {
        match shading {
            Shading::Levels(v) => Some((16, levels_of(v@))),
            Shading::Unsigned => if pixels.kind == Bitpix::I16 {
                Some((16, raised(pixels.values)))
            } else {
                None
            },
        }
    }
}

/// Width and height of an image: those of its first two axes, where a missing second
/// axis counts as one.
pub open spec fn shown_size(axes: Seq<usize>) -> (u32, u32) {
    (
        axes[0] as u32,
        if axes.len() > 1 {
            axes[1] as u32
        } else {
            1
        },
    )
}

fn raise(v: &[i16]) -> (r: Vec<u16>)
    ensures
        levels_of(r@) == raised(words::numbers(v@)),
{
    let mut out: Vec<u16> = Vec::new();
    let mut i: usize = 0;
    while i < v.len()
        invariant
            i <= v@.len(),
            out@.len() == i,
            forall|k: int| 0 <= k < i ==> #[trigger] out@[k] == v@[k] + 32768,
        decreases v@.len() - i,
    {
        out.push((v[i] as i32 + 32768) as u16);
        i += 1;
    }
    assert(levels_of(out@) =~= raised(words::numbers(v@)));
    out
}

fn lower(v: &[u16]) -> (r: Vec<i16>)
    ensures
        words::numbers(r@) == lowered(levels_of(v@)),
{
    let mut out: Vec<i16> = Vec::new();
    let mut i: usize = 0;
    while i < v.len()
        invariant
            i <= v@.len(),
            out@.len() == i,
            forall|k: int| 0 <= k < i ==> #[trigger] out@[k] == v@[k] - 32768,
        decreases v@.len() - i,
    {
        out.push((v[i] as i32 - 32768) as i16);
        i += 1;
    }
    assert(words::numbers(out@) =~= lowered(levels_of(v@)));
    out
}

impl ImageData {
    /// Convert to a `DynamicImage` from the `image` crate.
    ///
    /// - BITPIX=8 → `GrayImage` (Luma8)
    /// - BITPIX=16 with the unsigned convention → `ImageLuma16` (unsigned u16)
    /// - All others → `ImageLuma16` with the given levels
    pub fn to_dynamic_image(&self, shading: Shading) -> (r: Result<image::DynamicImage>)
        ensures
            match r {
                Ok(img) => {
                    let (w, h) = shown_size(self@.axes);
                    &&& self@.axes.len() > 0
                    &&& shown(self@.pixels, shading) == Some((gray_form(img)[0], gray_levels(img)))
                    &&& gray_form(img) == seq![gray_form(img)[0], w as int, h as int]
                    &&& w * h <= gray_levels(img).len()
                },
                Err(e) => {
                    let (w, h) = shown_size(self@.axes);
                    &&& e@ == ErrorView::InvalidFormat(
                        if self@.axes.len() == 0 {
                            "need at least 1 axis"@
                        } else {
                            "image dimensions mismatch"@
                        },
                    )
                    &&& self@.axes.len() > 0 ==> match shown(self@.pixels, shading) {
                        Some((_, levels)) => w * h > levels.len(),
                        None => true,
                    }
                },
            },
    {
        let width: u32 = match self.width() {
            Some(w) => w as u32,
            None => return Err(Error::InvalidFormat("need at least 1 axis".to_owned())),
        };
        let height: u32 = match self.height() {
            Some(h) => h as u32,
            None => 1,
        };
        let img: Option<image::DynamicImage> = match (&self.pixels, shading) {
            (PixelData::U8(data), _) => gray8_image(
                width,
                height,
                vstd::slice::slice_to_vec(data.as_slice()),
            ),
            (_, Shading::Levels(levels)) => gray16_image(width, height, levels),
            (PixelData::I16(data), Shading::Unsigned) => gray16_image(
                width,
                height,
                raise(data.as_slice()),
            ),
            _ => None,
        };
        match img {
            Some(img) => Ok(img),
            None => Err(Error::InvalidFormat("image dimensions mismatch".to_owned())),
        }
    }

    /// Create `ImageData` from a `DynamicImage`.
    ///
    /// Returns `(image_data, bscale, bzero)`:
    /// - Luma8 → BITPIX=8, BSCALE=1, BZERO=0
    /// - Luma16 → BITPIX=16, BSCALE=1, BZERO=32768 (unsigned convention)
    /// - Others → converted to Luma16 first
    pub fn from_dynamic_image(img: &image::DynamicImage) -> (r: Result<(Self, i64, i64)>)
        ensures
            r is Ok,
            ({
                let (data, bscale, bzero) = r->Ok_0;
                let axes = seq![gray_form(*img)[1] as usize, gray_form(*img)[2] as usize];
                if gray_form(*img)[0] == 8 {
                    bscale == 1 && bzero == 0 && data@ == (ImageView {
                        axes,
                        pixels: PixelView { kind: Bitpix::U8, values: gray_levels(*img) },
                    })
                } else {
                    bscale == 1 && bzero == 32768 && data@ == (ImageView {
                        axes,
                        pixels: PixelView {
                            kind: Bitpix::I16,
                            values: lowered(luma16_levels(*img)),
                        },
                    }) && (gray_form(*img)[0] == 16 ==> luma16_levels(*img) == gray_levels(*img))
                }
            }),
    {
        match gray8_parts(img) {
            Some((w, h, data)) => {
                let axes: Vec<usize> = vec![w as usize, h as usize];
                assert(axes@ =~= seq![gray_form(*img)[1] as usize, gray_form(*img)[2] as usize]);
                Ok((ImageData::new(axes, PixelData::U8(data)), 1, 0))
            },
            None => {
                let (w, h, levels) = gray16_parts(img);
                let axes: Vec<usize> = vec![w as usize, h as usize];
                assert(axes@ =~= seq![gray_form(*img)[1] as usize, gray_form(*img)[2] as usize]);
                Ok((ImageData::new(axes, PixelData::I16(lower(levels.as_slice()))), 1, 32768))
            },
        }
    }
}

/// Levels that were lowered and raised again are the levels.
pub proof fn unsigned_round_trip(levels: Seq<int>)
    ensures
        raised(lowered(levels)) == levels,
        lowered(raised(levels)) == levels,
{
    assert(raised(lowered(levels)) =~= levels);
    assert(lowered(raised(levels)) =~= levels);
}

/// Signed 16-bit pixels are shown from black, the least, to white, the greatest, and
/// the difference of two pixels is that of their levels.
pub proof fn levels_span_all(values: Seq<int>, i: int, j: int)
    requires
        forall|k: int| 0 <= k < values.len() ==> i16::MIN <= #[trigger] values[k] <= i16::MAX,
        0 <= i < values.len(),
        0 <= j < values.len(),
    ensures
        0 <= raised(values)[i] <= u16::MAX,
        values[i] == i16::MIN ==> raised(values)[i] == 0,
        values[i] == i16::MAX ==> raised(values)[i] == u16::MAX,
        raised(values)[i] - raised(values)[j] == values[i] - values[j],
{
}

/// Pixels of a byte are shown as they are, in 8 bits, whatever the shading; others in 16, with
/// the levels that are given, or, where they are 16-bit pixels, with their own.
pub proof fn shading_is_kept(pixels: PixelView, levels: Vec<u16>)
    ensures
        pixels.kind == Bitpix::U8 ==> shown(pixels, Shading::Unsigned) == Some(
            (8int, pixels.values),
        ) && shown(pixels, Shading::Levels(levels)) == Some((8int, pixels.values)),
        pixels.kind != Bitpix::U8 ==> (shown(pixels, Shading::Levels(levels)) matches Some(s) && s.0
            == 16 && s.1.len() == levels@.len() && forall|i: int|
            0 <= i < levels@.len() ==> #[trigger] s.1[i] == levels@[i]),
        pixels.kind == Bitpix::I16 ==> shown(pixels, Shading::Unsigned) == Some(
            (16int, raised(pixels.values)),
        ),
        pixels.kind != Bitpix::U8 && pixels.kind != Bitpix::I16 ==> shown(pixels, Shading::Unsigned)
            is None,
{
}

} // verus!
