use fitskit::number::Real;
use fitskit::wcs::{ctype_proj_code, LinearTransform, ProjCode};
use fitskit::{Error, Header, HeaderValue, Hdu};

fn float_text(v: f64) -> Real {
    Real::new(&format!("{v:E}")).unwrap()
}

fn value(r: &Real) -> f64 {
    r.text.parse().unwrap()
}

fn tan_header() -> Header {
    let mut h = Header::new();
    h.set("CTYPE1", HeaderValue::String("RA---TAN".into()), None);
    h.set("CTYPE2", HeaderValue::String("DEC--TAN".into()), None);
    h.set("CRVAL1", HeaderValue::Float(float_text(150.0)), None);
    h.set("CRVAL2", HeaderValue::Float(float_text(30.0)), None);
    h.set("CRPIX1", HeaderValue::Float(float_text(50.5)), None);
    h.set("CRPIX2", HeaderValue::Float(float_text(50.5)), None);
    h.set("CD1_1", HeaderValue::Float(float_text(-1.0 / 3600.0)), None);
    h.set("CD1_2", HeaderValue::Float(float_text(0.0)), None);
    h.set("CD2_1", HeaderValue::Float(float_text(0.0)), None);
    h.set("CD2_2", HeaderValue::Float(float_text(1.0 / 3600.0)), None);
    h
}

#[test]
fn unsupported_projection_rejected() {
    let mut h = tan_header();
    h.set("CTYPE1", HeaderValue::String("RA---XYZ".into()), None);
    h.set("CTYPE2", HeaderValue::String("DEC--XYZ".into()), None);
    assert!(matches!(h.wcs(), Err(Error::UnsupportedWcs(_))));
}

#[test]
fn sip_rejected() {
    let mut h = tan_header();
    h.set("CTYPE1", HeaderValue::String("RA---TAN-SIP".into()), None);
    h.set("CTYPE2", HeaderValue::String("DEC--TAN-SIP".into()), None);
    assert!(matches!(h.wcs(), Err(Error::UnsupportedWcs(_))));
}

#[test]
fn missing_keyword_errors() {
    let mut h = tan_header();
    h.keywords.retain(|k| k.name != "CRVAL1");
    assert!(matches!(h.wcs(), Err(Error::Wcs(_))));
}

#[test]
fn sip_coefficients_rejected() {
    for name in ["A_0_2", "B_2_0"] {
        let mut h = tan_header();
        h.set(name, HeaderValue::Float(float_text(1e-6)), None);
        assert!(matches!(h.wcs(), Err(Error::UnsupportedWcs(_))));
    }
    let mut h = tan_header();
    h.set("A_ORDER", HeaderValue::Integer(2), None);
    assert!(h.wcs().is_ok());
}

#[test]
fn cd_matrix_is_read() {
    let wcs = tan_header().wcs().unwrap();
    assert_eq!(wcs.code, ProjCode::Tan);
    assert_eq!(value(&wcs.crval1), 150.0);
    assert_eq!(value(&wcs.crval2), 30.0);
    assert_eq!(value(&wcs.crpix1), 50.5);
    assert_eq!(value(&wcs.crpix2), 50.5);
    match &wcs.lin {
        LinearTransform::Cd { cd11, cd12, cd21, cd22 } => {
            assert_eq!(value(cd11), -1.0 / 3600.0);
            assert_eq!(value(cd12), 0.0);
            assert_eq!(value(cd21), 0.0);
            assert_eq!(value(cd22), 1.0 / 3600.0);
        }
        _ => panic!("expected a CD matrix"),
    }
    assert!(wcs.lonpole.is_none());
}

#[test]
fn missing_cd_elements_are_zero() {
    let mut h = tan_header();
    h.keywords.retain(|k| k.name != "CD1_2" && k.name != "CD2_1");
    h.set("CDELT1", HeaderValue::Float(float_text(7.0)), None);
    match h.wcs().unwrap().lin {
        LinearTransform::Cd { cd12, cd21, .. } => {
            assert_eq!(value(&cd12), 0.0);
            assert_eq!(value(&cd21), 0.0);
        }
        _ => panic!("CD takes precedence"),
    }
}

#[test]
fn cdelt_with_identity_matrix() {
    let mut h = tan_header();
    h.keywords.retain(|k| !k.name.starts_with("CD"));
    assert!(matches!(h.wcs(), Err(Error::Wcs(_))));
    h.set("CDELT1", HeaderValue::Float(float_text(-0.25)), None);
    assert!(matches!(h.wcs(), Err(Error::Wcs(_))));
    h.set("CDELT2", HeaderValue::Float(float_text(0.5)), None);
    h.set("PC1_2", HeaderValue::Float(float_text(0.125)), None);
    h.set("LONPOLE", HeaderValue::Float(float_text(180.0)), None);
    let wcs = h.wcs().unwrap();
    assert_eq!(value(&wcs.lonpole.unwrap()), 180.0);
    match wcs.lin {
        LinearTransform::Pc { cdelt1, cdelt2, pc11, pc12, pc21, pc22 } => {
            assert_eq!(value(&cdelt1), -0.25);
            assert_eq!(value(&cdelt2), 0.5);
            assert_eq!(value(&pc11), 1.0);
            assert_eq!(value(&pc12), 0.125);
            assert_eq!(value(&pc21), 0.0);
            assert_eq!(value(&pc22), 1.0);
        }
        _ => panic!("expected CDELT"),
    }
}

#[test]
fn units_other_than_degrees_rejected() {
    let mut h = tan_header();
    h.set("CUNIT1", HeaderValue::String("Degree".into()), None);
    h.set("CUNIT2", HeaderValue::String(" deg ".into()), None);
    assert!(h.wcs().is_ok());
    h.set("CUNIT2", HeaderValue::String("arcsec".into()), None);
    assert!(matches!(h.wcs(), Err(Error::UnsupportedWcs(_))));
}

#[test]
fn differing_projections_rejected() {
    let mut h = tan_header();
    h.set("CTYPE2", HeaderValue::String("DEC--SIN".into()), None);
    assert!(matches!(h.wcs(), Err(Error::Wcs(_))));
}

#[test]
fn projection_codes() {
    assert_eq!(ctype_proj_code("GLON-AIT"), "AIT");
    assert_eq!(ctype_proj_code(" RA---TAN "), "TAN");
    assert_eq!(ctype_proj_code("WAVELENGTH"), "WAVELENGTH");
    for (name, code) in [
        ("TAN", ProjCode::Tan),
        ("FEYE", ProjCode::Feye),
        ("HPX", ProjCode::Hpx),
        ("COO", ProjCode::Coo),
    ] {
        assert_eq!(ProjCode::from_str(name), Some(code));
    }
    assert_eq!(ProjCode::from_str("tan"), None);
    assert_eq!(ProjCode::from_str(""), None);
}

#[test]
fn hdu_without_wcs() {
    assert!(matches!(Hdu::primary_empty().wcs(), Err(Error::Wcs(_))));
}
