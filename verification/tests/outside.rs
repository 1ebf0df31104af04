use fitskit::image_conv::Shading;
use fitskit::{Bitpix, Error, Header, HeaderValue, ImageData, Keyword, PixelData};
use image::{DynamicImage, GrayAlphaImage, LumaA, Rgb, RgbImage};

#[test]
fn names_beyond_ascii_are_raised() {
    let kw = Keyword::new("stra\u{df}e", None, None);
    assert_eq!(kw.name, "STRASSE");
    let mut h = Header::new();
    h.set("\u{e9}t\u{e9}", HeaderValue::Integer(1), None);
    assert_eq!(h.get_int("\u{c9}T\u{c9}"), Some(1));
}

#[test]
fn colours_become_gray() {
    let rgb = RgbImage::from_pixel(2, 1, Rgb([255, 255, 255]));
    let (image, bscale, bzero) =
        ImageData::from_dynamic_image(&DynamicImage::ImageRgb8(rgb)).unwrap();
    assert_eq!(image.axes, vec![2, 1]);
    assert_eq!(image.bitpix(), Bitpix::I16);
    assert_eq!((bscale, bzero), (1, 32768));
    assert_eq!(image.pixels, PixelData::I16(vec![32767, 32767]));
}

#[test]
fn alpha_is_dropped() {
    let gray = GrayAlphaImage::from_pixel(1, 1, LumaA([0, 7]));
    let (image, _, _) = ImageData::from_dynamic_image(&DynamicImage::ImageLumaA8(gray)).unwrap();
    assert_eq!(image.pixels, PixelData::I16(vec![-32768]));
}

#[test]
fn pictures_need_all_their_pixels() {
    let short = ImageData::new(vec![3, 2], PixelData::U8(vec![1, 2, 3]));
    assert!(matches!(
        short.to_dynamic_image(Shading::Unsigned),
        Err(Error::InvalidFormat(_))
    ));
    let none = ImageData::new(vec![], PixelData::U8(vec![]));
    assert!(matches!(
        none.to_dynamic_image(Shading::Unsigned),
        Err(Error::InvalidFormat(_))
    ));
    let row = ImageData::new(vec![3], PixelData::U8(vec![1, 2, 3]));
    match row.to_dynamic_image(Shading::Unsigned).unwrap() {
        DynamicImage::ImageLuma8(g) => assert_eq!(g.dimensions(), (3, 1)),
        _ => panic!("expected 8-bit gray"),
    }
}
