//! World Coordinate System (WCS) keywords.
//!
//! This module reads the common **two-axis celestial** FITS WCS out of a header: a
//! single linear transform plus a spherical projection (`CTYPEn = xxx--CCC`, e.g.
//! `RA---TAN`/`DEC--TAN`).
//!
//! # What is supported
//!
//! * `CTYPE1`/`CTYPE2` with a recognised projection code.
//! * The linear transform from either the `CDi_j` matrix, or `PCi_j` + `CDELTi`, or
//!   `CDELTi` alone (PC defaulting to identity). `CD` takes precedence when present.
//! * `CUNIT1`/`CUNIT2` of `deg` (the default when absent).
//! * `LONPOLE`/`LATPOLE` are read and stored.
//!
//! # What is not supported
//!
//! * **SIP distortions** (`A_p_q`/`B_p_q`, `CTYPE` suffix `-SIP`): detected and rejected.
//! * **Non-degree `CUNIT`**: rejected.
use crate::bintable;
use crate::card_reading;
use crate::error::{Error, ErrorView, Result};
use crate::hdu::Hdu;
use crate::header;
use crate::header::Header;
use crate::keyword::{Keyword, KeywordView};
use crate::number::Real;
use crate::text;
use vstd::prelude::*;

verus! {

/// The recognised projection codes.
#[derive(Debug, Clone, Copy, PartialEq, Eq, Structural)]
pub enum ProjCode {
    Tan,
    Sin,
    Arc,
    Zea,
    Stg,
    Azp,
    Szp,
    Air,
    Ncp,
    Feye,
    Mer,
    Car,
    Cea,
    Cyp,
    Sfl,
    Par,
    Mol,
    Ait,
    Cod,
    Coe,
    Coo,
    Cop,
    Hpx,
}

impl ProjCode {
    /// The letters of a projection code.
    pub open spec fn name(self) -> Seq<char> {
        match self {
            ProjCode::Tan => "TAN"@,
            ProjCode::Sin => "SIN"@,
            ProjCode::Arc => "ARC"@,
            ProjCode::Zea => "ZEA"@,
            ProjCode::Stg => "STG"@,
            ProjCode::Azp => "AZP"@,
            ProjCode::Szp => "SZP"@,
            ProjCode::Air => "AIR"@,
            ProjCode::Ncp => "NCP"@,
            ProjCode::Feye => "FEYE"@,
            ProjCode::Mer => "MER"@,
            ProjCode::Car => "CAR"@,
            ProjCode::Cea => "CEA"@,
            ProjCode::Cyp => "CYP"@,
            ProjCode::Sfl => "SFL"@,
            ProjCode::Par => "PAR"@,
            ProjCode::Mol => "MOL"@,
            ProjCode::Ait => "AIT"@,
            ProjCode::Cod => "COD"@,
            ProjCode::Coe => "COE"@,
            ProjCode::Coo => "COO"@,
            ProjCode::Cop => "COP"@,
            ProjCode::Hpx => "HPX"@,
        }
    }

    /// The projection that a text is the code of.
    pub fn from_str(code: &str) -> (r: Option<ProjCode>)
        ensures
            r == projection_named(code@),
            code@ == "TAN"@ ==> r == Some(ProjCode::Tan),
            code@ == "SIN"@ ==> r == Some(ProjCode::Sin),
            code@ == "ARC"@ ==> r == Some(ProjCode::Arc),
            code@ == "ZEA"@ ==> r == Some(ProjCode::Zea),
            code@ == "STG"@ ==> r == Some(ProjCode::Stg),
            code@ == "AZP"@ ==> r == Some(ProjCode::Azp),
            code@ == "SZP"@ ==> r == Some(ProjCode::Szp),
            code@ == "AIR"@ ==> r == Some(ProjCode::Air),
            code@ == "NCP"@ ==> r == Some(ProjCode::Ncp),
            code@ == "FEYE"@ ==> r == Some(ProjCode::Feye),
            code@ == "MER"@ ==> r == Some(ProjCode::Mer),
            code@ == "CAR"@ ==> r == Some(ProjCode::Car),
            code@ == "CEA"@ ==> r == Some(ProjCode::Cea),
            code@ == "CYP"@ ==> r == Some(ProjCode::Cyp),
            code@ == "SFL"@ ==> r == Some(ProjCode::Sfl),
            code@ == "PAR"@ ==> r == Some(ProjCode::Par),
            code@ == "MOL"@ ==> r == Some(ProjCode::Mol),
            code@ == "AIT"@ ==> r == Some(ProjCode::Ait),
            code@ == "COD"@ ==> r == Some(ProjCode::Cod),
            code@ == "COE"@ ==> r == Some(ProjCode::Coe),
            code@ == "COO"@ ==> r == Some(ProjCode::Coo),
            code@ == "COP"@ ==> r == Some(ProjCode::Cop),
            code@ == "HPX"@ ==> r == Some(ProjCode::Hpx),
    {
        proof {
            lemma_code_table();
        }
        let chars: Vec<char> = text::char_vec(code);
        let r: Option<ProjCode> = Self::from_chars(chars.as_slice());
        proof {
            if let Some(c) = r {
                let d = choose|d: ProjCode| code@ == #[trigger] d.name();
                projection_codes_differ(c, d);
            }
        }
        r
    }

    fn from_chars(code: &[char]) -> (r: Option<ProjCode>)
        ensures
            match r {
                Some(c) => code@ == c.name(),
                None => forall|c: ProjCode| code@ != #[trigger] c.name(),
            },
    {
        if text::is_text(code, "TAN") {
            Some(ProjCode::Tan)
        } else if text::is_text(code, "SIN") {
            Some(ProjCode::Sin)
        } else if text::is_text(code, "ARC") {
            Some(ProjCode::Arc)
        } else if text::is_text(code, "ZEA") {
            Some(ProjCode::Zea)
        } else if text::is_text(code, "STG") {
            Some(ProjCode::Stg)
        } else if text::is_text(code, "AZP") {
            Some(ProjCode::Azp)
        } else if text::is_text(code, "SZP") {
            Some(ProjCode::Szp)
        } else if text::is_text(code, "AIR") {
            Some(ProjCode::Air)
        } else if text::is_text(code, "NCP") {
            Some(ProjCode::Ncp)
        } else if text::is_text(code, "FEYE") {
            Some(ProjCode::Feye)
        } else if text::is_text(code, "MER") {
            Some(ProjCode::Mer)
        } else if text::is_text(code, "CAR") {
            Some(ProjCode::Car)
        } else if text::is_text(code, "CEA") {
            Some(ProjCode::Cea)
        } else if text::is_text(code, "CYP") {
            Some(ProjCode::Cyp)
        } else if text::is_text(code, "SFL") {
            Some(ProjCode::Sfl)
        } else if text::is_text(code, "PAR") {
            Some(ProjCode::Par)
        } else if text::is_text(code, "MOL") {
            Some(ProjCode::Mol)
        } else if text::is_text(code, "AIT") {
            Some(ProjCode::Ait)
        } else if text::is_text(code, "COD") {
            Some(ProjCode::Cod)
        } else if text::is_text(code, "COE") {
            Some(ProjCode::Coe)
        } else if text::is_text(code, "COO") {
            Some(ProjCode::Coo)
        } else if text::is_text(code, "COP") {
            Some(ProjCode::Cop)
        } else if text::is_text(code, "HPX") {
            Some(ProjCode::Hpx)
        } else {
            None
        }
    }
}

/// What is left of a text after its last `-`.
pub open spec fn after_dash(s: Seq<char>) -> Seq<char>
    decreases s.len(),
{
    if s.len() == 0 || s.last() == '-' {
        Seq::empty()
    } else {
        after_dash(s.drop_last()).push(s.last())
    }
}

/// The projection code in a `CTYPE` value such as `RA---TAN` or `GLON-AIT`.
pub open spec fn code_of(ctype: Seq<char>) -> Seq<char> {
    after_dash(text::trim(ctype))
}

/// Extract the projection code from a `CTYPE` value such as `"RA---TAN"` or
/// `"GLON-AIT"`: what follows the last `-`, without blanks around it.
pub fn ctype_proj_code(ctype: &str) -> (r: String)
    ensures
        r@ == code_of(ctype@),
{
    let chars: Vec<char> = text::char_vec(ctype);
    let t = text::trimmed(chars.as_slice());
    let mut i: usize = t.len();
    assert(t@.take(i as int) =~= t@);
    assert(t@.skip(i as int) =~= Seq::<char>::empty());
    while i > 0 && t[i - 1] != '-'
        invariant
            i <= t@.len(),
            after_dash(t@) == after_dash(t@.take(i as int)) + t@.skip(i as int),
        decreases i,
    {
        proof {
            let head = t@.take(i as int);
            assert(head.drop_last() =~= t@.take(i - 1));
            assert(after_dash(head) == after_dash(t@.take(i - 1)).push(t@[i - 1]));
            assert(t@.skip(i - 1) =~= seq![t@[i - 1]] + t@.skip(i as int));
            assert(after_dash(t@) =~= after_dash(t@.take(i - 1)) + t@.skip(i - 1));
        }
        i -= 1;
    }
    proof {
        assert(after_dash(t@.take(i as int)) =~= Seq::<char>::empty());
        assert(after_dash(t@) =~= t@.skip(i as int));
    }
    text::string_from(text::tail(t, i))
}

/// Whether a `CTYPE` value names a SIP distortion.
pub open spec fn sip_ctype(ctype: Seq<char>) -> bool {
    let t = text::trim_end(ctype);
    t.len() >= 4 && t.skip(t.len() - 4) == "-SIP"@
}

/// Whether a keyword name is that of a SIP coefficient: `A_p_q` or `B_p_q`.
pub open spec fn sip_name(name: Seq<char>) -> bool {
    &&& name.len() == 5
    &&& text::upper_char(name[0]) == 'A' || text::upper_char(name[0]) == 'B'
    &&& name[1] == '_'
    &&& text::is_digit(name[2])
    &&& name[3] == '_'
    &&& text::is_digit(name[4])
}

/// Whether a header holds SIP coefficients.
pub open spec fn sip_keywords(h: Seq<KeywordView>) -> bool {
    exists|i: int| 0 <= i < h.len() && sip_name(#[trigger] h[i].name)
}

/// Whether a unit is degrees; no unit counts as such.
pub open spec fn degrees(unit: Option<Seq<char>>) -> bool {
    match unit {
        Some(u) => {
            let t = text::trim(u);
            t.len() == 0 || text::same_ignoring_case(t, "deg"@) || text::same_ignoring_case(
                t,
                "degree"@,
            )
        },
        None => true,
    }
}

/// The text of a real number in a header, or that of a small number where it is
/// missing.
pub open spec fn real_or(h: Seq<KeywordView>, name: Seq<char>, default: int) -> Seq<char> {
    match header::float_of(h, name) {
        Some(f) => f,
        None => text::decimal(default),
    }
}

/// The linear transform from pixels to the projection plane: a matrix in degrees per
/// pixel, or a step for each axis times a matrix.
#[derive(Debug)]
pub enum LinearTransform {
    Cd { cd11: Real, cd12: Real, cd21: Real, cd22: Real },
    Pc { cdelt1: Real, cdelt2: Real, pc11: Real, pc12: Real, pc21: Real, pc22: Real },
}

/// The numbers of a linear transform, as texts.
pub enum LinearView {
    Cd { cd11: Seq<char>, cd12: Seq<char>, cd21: Seq<char>, cd22: Seq<char> },
    Pc {
        cdelt1: Seq<char>,
        cdelt2: Seq<char>,
        pc11: Seq<char>,
        pc12: Seq<char>,
        pc21: Seq<char>,
        pc22: Seq<char>,
    },
}

impl View for LinearTransform {
    type V = LinearView;

    open spec fn view(&self) -> LinearView {
        match self {
            LinearTransform::Cd { cd11, cd12, cd21, cd22 } => LinearView::Cd {
                cd11: cd11@,
                cd12: cd12@,
                cd21: cd21@,
                cd22: cd22@,
            },
            LinearTransform::Pc { cdelt1, cdelt2, pc11, pc12, pc21, pc22 } => LinearView::Pc {
                cdelt1: cdelt1@,
                cdelt2: cdelt2@,
                pc11: pc11@,
                pc12: pc12@,
                pc21: pc21@,
                pc22: pc22@,
            },
        }
    }
}

impl Clone for LinearTransform {
    fn clone(&self) -> (r: Self)
        ensures
            r@ == self@,
    {
        match self {
            LinearTransform::Cd { cd11, cd12, cd21, cd22 } => LinearTransform::Cd {
                cd11: cd11.clone(),
                cd12: cd12.clone(),
                cd21: cd21.clone(),
                cd22: cd22.clone(),
            },
            LinearTransform::Pc { cdelt1, cdelt2, pc11, pc12, pc21, pc22 } => LinearTransform::Pc {
                cdelt1: cdelt1.clone(),
                cdelt2: cdelt2.clone(),
                pc11: pc11.clone(),
                pc12: pc12.clone(),
                pc21: pc21.clone(),
                pc22: pc22.clone(),
            },
        }
    }
}

/// A parsed two-axis celestial World Coordinate System.
#[derive(Debug)]
pub struct Wcs {
    /// The projection code extracted from `CTYPE1`.
    pub code: ProjCode,
    /// Reference world coordinates in degrees.
    pub crval1: Real,
    pub crval2: Real,
    /// Reference pixel, counted from one.
    pub crpix1: Real,
    pub crpix2: Real,
    /// Linear transform.
    pub lin: LinearTransform,
    /// Native longitude and latitude of the celestial pole, where given.
    pub lonpole: Option<Real>,
    pub latpole: Option<Real>,
}

/// What the keywords of a World Coordinate System say.
#[verifier::ext_equal]
pub struct WcsView {
    pub code: ProjCode,
    pub crval1: Seq<char>,
    pub crval2: Seq<char>,
    pub crpix1: Seq<char>,
    pub crpix2: Seq<char>,
    pub lin: LinearView,
    pub lonpole: Option<Seq<char>>,
    pub latpole: Option<Seq<char>>,
}

/// The text of a number that may be missing.
pub open spec fn real_text(r: Option<Real>) -> Option<Seq<char>> {
    match r {
        Some(f) => Some(f@),
        None => None,
    }
}

impl View for Wcs {
    type V = WcsView;

    open spec fn view(&self) -> WcsView {
        WcsView {
            code: self.code,
            crval1: self.crval1@,
            crval2: self.crval2@,
            crpix1: self.crpix1@,
            crpix2: self.crpix2@,
            lin: self.lin@,
            lonpole: real_text(self.lonpole),
            latpole: real_text(self.latpole),
        }
    }
}

impl Clone for Wcs {
    fn clone(&self) -> (r: Self)
        ensures
            r@ == self@,
    {
        Wcs {
            code: self.code,
            crval1: self.crval1.clone(),
            crval2: self.crval2.clone(),
            crpix1: self.crpix1.clone(),
            crpix2: self.crpix2.clone(),
            lin: self.lin.clone(),
            lonpole: bintable::real_clone(&self.lonpole),
            latpole: bintable::real_clone(&self.latpole),
        }
    }
}

/// Whether a header has a keyword of a name.
pub open spec fn has(h: Seq<KeywordView>, name: Seq<char>) -> bool {
    header::position(h, name) < h.len()
}

/// The linear transform that a header gives: `CD` before `PC` with `CDELT`.
pub open spec fn linear_of(h: Seq<KeywordView>) -> std::result::Result<LinearView, ErrorView> {
    if has(h, "CD1_1"@) || has(h, "CD1_2"@) || has(h, "CD2_1"@) || has(h, "CD2_2"@) {
        Ok(
            LinearView::Cd {
                cd11: real_or(h, "CD1_1"@, 0),
                cd12: real_or(h, "CD1_2"@, 0),
                cd21: real_or(h, "CD2_1"@, 0),
                cd22: real_or(h, "CD2_2"@, 0),
            },
        )
    } else {
        match (header::float_of(h, "CDELT1"@), header::float_of(h, "CDELT2"@)) {
            (None, _) => Err(ErrorView::Wcs("missing CDELT1 (and no CD matrix)"@)),
            (_, None) => Err(ErrorView::Wcs("missing CDELT2 (and no CD matrix)"@)),
            (Some(cdelt1), Some(cdelt2)) => Ok(
                LinearView::Pc {
                    cdelt1,
                    cdelt2,
                    pc11: real_or(h, "PC1_1"@, 1),
                    pc12: real_or(h, "PC1_2"@, 0),
                    pc21: real_or(h, "PC2_1"@, 0),
                    pc22: real_or(h, "PC2_2"@, 1),
                },
            ),
        }
    }
}

/// What the two `CTYPE` values and the names in a header say of the projection.
pub open spec fn projection_of(h: Seq<KeywordView>) -> std::result::Result<Seq<char>, ErrorView> {
    match (header::string_of(h, "CTYPE1"@), header::string_of(h, "CTYPE2"@)) {
        (Some(ctype1), Some(ctype2)) => if sip_ctype(ctype1) || sip_ctype(ctype2) || sip_keywords(
            h,
        ) {
            Err(ErrorView::UnsupportedWcs("SIP distortion (CTYPE -SIP) is not supported"@))
        } else if code_of(ctype1) != code_of(ctype2) {
            Err(
                ErrorView::Wcs(
                    "CTYPE1/CTYPE2 projection codes differ: '"@ + code_of(ctype1) + "' vs '"@
                        + code_of(ctype2) + "'"@,
                ),
            )
        } else {
            Ok(code_of(ctype1))
        },
        (None, _) => Err(ErrorView::Wcs("missing CTYPE1"@)),
        (_, None) => Err(ErrorView::Wcs("missing CTYPE2"@)),
    }
}

/// The numbers of a World Coordinate System with a given projection.
pub open spec fn numbers_of(h: Seq<KeywordView>, code: ProjCode) -> std::result::Result<
    WcsView,
    ErrorView,
> {
    match (
        header::float_of(h, "CRVAL1"@),
        header::float_of(h, "CRVAL2"@),
        header::float_of(h, "CRPIX1"@),
        header::float_of(h, "CRPIX2"@),
    ) {
        (Some(crval1), Some(crval2), Some(crpix1), Some(crpix2)) => match linear_of(h) {
            Ok(lin) => Ok(
                WcsView {
                    code,
                    crval1,
                    crval2,
                    crpix1,
                    crpix2,
                    lin,
                    lonpole: header::float_of(h, "LONPOLE"@),
                    latpole: header::float_of(h, "LATPOLE"@),
                },
            ),
            Err(e) => Err(e),
        },
        (None, _, _, _) => Err(ErrorView::Wcs("missing CRVAL1"@)),
        (_, None, _, _) => Err(ErrorView::Wcs("missing CRVAL2"@)),
        (_, _, None, _) => Err(ErrorView::Wcs("missing CRPIX1"@)),
        (_, _, _, None) => Err(ErrorView::Wcs("missing CRPIX2"@)),
    }
}

/// The error for a unit that is not degrees.
pub open spec fn unit_fault(name: Seq<char>, unit: Seq<char>) -> ErrorView {
    ErrorView::UnsupportedWcs("non-degree "@ + name + " = '"@ + unit + "' is not supported"@)
}

/// The projection that a text is the code of.
pub open spec fn projection_named(name: Seq<char>) -> Option<ProjCode> {
    if exists|c: ProjCode| name == #[trigger] c.name() {
        Some(choose|c: ProjCode| name == #[trigger] c.name())
    } else {
        None
    }
}

/// The World Coordinate System that a header gives.
pub open spec fn wcs_of(h: Seq<KeywordView>) -> std::result::Result<WcsView, ErrorView> {
    match projection_of(h) {
        Err(e) => Err(e),
        Ok(name) => match projection_named(name) {
            None => Err(
                ErrorView::UnsupportedWcs("unsupported projection code '"@ + name + "'"@),
            ),
            Some(code) => if !degrees(header::string_of(h, "CUNIT1"@)) {
                Err(unit_fault("CUNIT1"@, text::trim(header::string_of(h, "CUNIT1"@)->0)))
            } else if !degrees(header::string_of(h, "CUNIT2"@)) {
                Err(unit_fault("CUNIT2"@, text::trim(header::string_of(h, "CUNIT2"@)->0)))
            } else {
                numbers_of(h, code)
            },
        },
    }
}

/// The number of a keyword, or a default where the header does not have it.
pub open spec fn holds_or(
    h: Seq<KeywordView>,
    name: Seq<char>,
    default: Seq<char>,
    found: Seq<char>,
) -> bool {
    match header::float_of(h, name) {
        Some(f) => found == f,
        None => found == default,
    }
}

/// Whether a header has a keyword of a name, in any case.
pub open spec fn names(h: Seq<KeywordView>, name: Seq<char>) -> bool {
    exists|i: int|
        0 <= i < h.len() && text::same_ignoring_case(#[trigger] h[i].name, name)
}

/// Whether each number of a World Coordinate System is that of its own keyword, and its
/// projection the one that both axes name.
pub open spec fn held_by(h: Seq<KeywordView>, w: WcsView) -> bool {
    &&& header::float_of(h, "CRVAL1"@) == Some(w.crval1)
    &&& header::float_of(h, "CRVAL2"@) == Some(w.crval2)
    &&& header::float_of(h, "CRPIX1"@) == Some(w.crpix1)
    &&& header::float_of(h, "CRPIX2"@) == Some(w.crpix2)
    &&& header::float_of(h, "LONPOLE"@) == w.lonpole
    &&& header::float_of(h, "LATPOLE"@) == w.latpole
    &&& match w.lin {
        LinearView::Cd { cd11, cd12, cd21, cd22 } => {
            &&& names(h, "CD1_1"@) || names(h, "CD1_2"@) || names(h, "CD2_1"@) || names(
                h,
                "CD2_2"@,
            )
            &&& holds_or(h, "CD1_1"@, "0"@, cd11)
            &&& holds_or(h, "CD1_2"@, "0"@, cd12)
            &&& holds_or(h, "CD2_1"@, "0"@, cd21)
            &&& holds_or(h, "CD2_2"@, "0"@, cd22)
        },
        LinearView::Pc { cdelt1, cdelt2, pc11, pc12, pc21, pc22 } => {
            &&& !names(h, "CD1_1"@)
            &&& !names(h, "CD1_2"@)
            &&& !names(h, "CD2_1"@)
            &&& !names(h, "CD2_2"@)
            &&& header::float_of(h, "CDELT1"@) == Some(cdelt1)
            &&& header::float_of(h, "CDELT2"@) == Some(cdelt2)
            &&& holds_or(h, "PC1_1"@, "1"@, pc11)
            &&& holds_or(h, "PC1_2"@, "0"@, pc12)
            &&& holds_or(h, "PC2_1"@, "0"@, pc21)
            &&& holds_or(h, "PC2_2"@, "1"@, pc22)
        },
    }
    &&& header::string_of(h, "CTYPE1"@) matches Some(ctype1) && code_of(ctype1) == w.code.name()
    &&& header::string_of(h, "CTYPE2"@) matches Some(ctype2) && code_of(ctype2) == w.code.name()
}

/// What reading a World Coordinate System gave.
pub open spec fn wcs_result(r: Result<Wcs>) -> std::result::Result<WcsView, ErrorView> {
    match r {
        Ok(w) => Ok(w@),
        Err(e) => Err(e@),
    }
}

fn is_sip_ctype(ctype: &str) -> (r: bool)
    ensures
        r == sip_ctype(ctype@),
{
    let chars: Vec<char> = text::char_vec(ctype);
    let t = text::trimmed_end(chars.as_slice());
    if t.len() < 4 {
        return false;
    }
    text::is_text(text::tail(t, t.len() - 4), "-SIP")
}

fn is_sip_name(name: &str) -> (r: bool)
    ensures
        r == sip_name(name@),
{
    let c: Vec<char> = text::char_vec(name);
    c.len() == 5 && (c[0] == 'A' || c[0] == 'a' || c[0] == 'B' || c[0] == 'b') && c[1] == '_' && (
    '0' <= c[2] && c[2] <= '9') && c[3] == '_' && ('0' <= c[4] && c[4] <= '9')
}

fn has_sip_keywords(keywords: &[Keyword]) -> (r: bool)
    ensures
        r == sip_keywords(header::views_of(keywords@)),
{
    let mut i: usize = 0;
    while i < keywords.len()
        invariant
            i <= keywords@.len(),
            forall|k: int| 0 <= k < i ==> !sip_name(#[trigger] header::views_of(keywords@)[k].name),
        decreases keywords@.len() - i,
    {
        if is_sip_name(keywords[i].name.as_str()) {
            assert(sip_name(header::views_of(keywords@)[i as int].name));
            return true;
        }
        i += 1;
    }
    false
}

fn is_degrees(unit: Option<&str>) -> (r: bool)
    ensures
        r == degrees(crate::keyword::str_of(unit)),
{
    match unit {
        Some(u) => {
            let chars: Vec<char> = text::char_vec(u);
            let t = text::trimmed(chars.as_slice());
            let deg: Vec<char> = text::char_vec("deg");
            let degree: Vec<char> = text::char_vec("degree");
            t.len() == 0 || text::eq_ignore_case(t, deg.as_slice()) || text::eq_ignore_case(
                t,
                degree.as_slice(),
            )
        },
        None => true,
    }
}

impl Header {
    fn real_or(&self, name: &str, default: i64) -> (r: Real)
        ensures
            r@ == real_or(self@, name@, default as int),
    {
        match self.get_float(name) {
            Some(f) => f,
            None => Real::from_int(default),
        }
    }

    fn has(&self, name: &str) -> (r: bool)
        ensures
            r == has(self@, name@),
    {
        self.find(name).is_some()
    }

    /// Build the linear transform from the header, honouring the precedence
    /// CD > (PC + CDELT) > (CDELT alone, PC = identity).
    fn parse_linear(&self) -> (r: Result<LinearTransform>)
        ensures
            match r {
                Ok(lin) => linear_of(self@) == Ok::<LinearView, ErrorView>(lin@),
                Err(e) => linear_of(self@) == Err::<LinearView, ErrorView>(e@),
            },
    {
        if self.has("CD1_1") || self.has("CD1_2") || self.has("CD2_1") || self.has("CD2_2") {
            return Ok(
                LinearTransform::Cd {
                    cd11: self.real_or("CD1_1", 0),
                    cd12: self.real_or("CD1_2", 0),
                    cd21: self.real_or("CD2_1", 0),
                    cd22: self.real_or("CD2_2", 0),
                },
            );
        }
        match (self.get_float("CDELT1"), self.get_float("CDELT2")) {
            (None, _) => Err(Error::Wcs("missing CDELT1 (and no CD matrix)".to_owned())),
            (_, None) => Err(Error::Wcs("missing CDELT2 (and no CD matrix)".to_owned())),
            (Some(cdelt1), Some(cdelt2)) => Ok(
                LinearTransform::Pc {
                    cdelt1,
                    cdelt2,
                    pc11: self.real_or("PC1_1", 1),
                    pc12: self.real_or("PC1_2", 0),
                    pc21: self.real_or("PC2_1", 0),
                    pc22: self.real_or("PC2_2", 1),
                },
            ),
        }
    }

    /// The projection code on which both axes agree.
    fn projection_code(&self) -> (r: Result<String>)
        ensures
            match r {
                Ok(code) => projection_of(self@) == Ok::<Seq<char>, ErrorView>(code@),
                Err(e) => projection_of(self@) == Err::<Seq<char>, ErrorView>(e@),
            },
    {
        let ctype1 = match self.get_string("CTYPE1") {
            Some(s) => s,
            None => return Err(Error::Wcs("missing CTYPE1".to_owned())),
        };
        let ctype2 = match self.get_string("CTYPE2") {
            Some(s) => s,
            None => return Err(Error::Wcs("missing CTYPE2".to_owned())),
        };
        if is_sip_ctype(ctype1) || is_sip_ctype(ctype2) || has_sip_keywords(self.iter()) {
            return Err(Error::UnsupportedWcs("SIP distortion (CTYPE -SIP) is not supported".to_owned()));
        }
        let code1: String = ctype_proj_code(ctype1);
        let code2: String = ctype_proj_code(ctype2);
        let chars: Vec<char> = text::char_vec(code1.as_str());
        if !text::is_text(chars.as_slice(), code2.as_str()) {
            return Err(
                Error::Wcs(
                    "CTYPE1/CTYPE2 projection codes differ: '".to_owned().concat(
                        code1.as_str(),
                    ).concat("' vs '").concat(code2.as_str()).concat("'"),
                ),
            );
        }
        Ok(code1)
    }

    fn wcs_numbers(&self, code: ProjCode) -> (r: Result<Wcs>)
        ensures
            wcs_result(r) == numbers_of(self@, code),
    {
        let crval1 = match self.get_float("CRVAL1") {
            Some(f) => f,
            None => return Err(Error::Wcs("missing CRVAL1".to_owned())),
        };
        let crval2 = match self.get_float("CRVAL2") {
            Some(f) => f,
            None => return Err(Error::Wcs("missing CRVAL2".to_owned())),
        };
        let crpix1 = match self.get_float("CRPIX1") {
            Some(f) => f,
            None => return Err(Error::Wcs("missing CRPIX1".to_owned())),
        };
        let crpix2 = match self.get_float("CRPIX2") {
            Some(f) => f,
            None => return Err(Error::Wcs("missing CRPIX2".to_owned())),
        };
        match self.parse_linear() {
            Ok(lin) => Ok(
                Wcs {
                    code,
                    crval1,
                    crval2,
                    crpix1,
                    crpix2,
                    lin,
                    lonpole: self.get_float("LONPOLE"),
                    latpole: self.get_float("LATPOLE"),
                },
            ),
            Err(e) => Err(e),
        }
    }

    /// Parse a two-axis celestial [`Wcs`] from this header.
    pub fn wcs(&self) -> (r: Result<Wcs>)
        ensures
            wcs_result(r) == wcs_of(self@),
            r matches Ok(w) ==> held_by(self@, w@),
    {
        Wcs::from_header(self)
    }
}

impl Hdu {
    /// Parse a two-axis celestial [`Wcs`] from this HDU's header.
    pub fn wcs(&self) -> (r: Result<Wcs>)
        ensures
            wcs_result(r) == wcs_of(self@.header),
            r matches Ok(w) ==> held_by(self@.header, w@),
    {
        self.header.wcs()
    }
}

/// Accept a unit only where it is degrees.
fn require_degrees(header: &Header, name: &str) -> (r: Result<()>)
    ensures
        match r {
            Ok(_) => degrees(header::string_of(header@, name@)),
            Err(e) => !degrees(header::string_of(header@, name@)) && e@ == unit_fault(
                name@,
                text::trim(header::string_of(header@, name@)->0),
            ),
        },
{
    let unit: Option<&str> = header.get_string(name);
    if is_degrees(unit) {
        return Ok(());
    }
    match unit {
        Some(u) => {
            let chars: Vec<char> = text::char_vec(u);
            let shown: String = text::string_from(text::trimmed(chars.as_slice()));
            Err(
                Error::UnsupportedWcs(
                    "non-degree ".to_owned().concat(name).concat(" = '").concat(
                        shown.as_str(),
                    ).concat("' is not supported"),
                ),
            )
        },
        None => Ok(()),
    }
}

impl Wcs {
    /// Parse a two-axis celestial WCS from a FITS header.
    ///
    /// Returns [`Error::Wcs`] / [`Error::UnsupportedWcs`] for headers that don't carry
    /// a supported 2-axis celestial WCS (missing keys, SIP, unrecognised projection,
    /// non-degree units, etc.).
    pub fn from_header(header: &Header) -> (r: Result<Self>)
        ensures
            wcs_result(r) == wcs_of(header@),
            r matches Ok(w) ==> held_by(header@, w@) && header::float_of(header@, "CRVAL1"@)
                == Some(w.crval1@) && header::float_of(header@, "CRVAL2"@) == Some(w.crval2@)
                && header::float_of(header@, "CRPIX1"@) == Some(w.crpix1@) && header::float_of(
                header@,
                "CRPIX2"@,
            ) == Some(w.crpix2@),
    {
        proof {
            wcs_is_held(header@);
        }
        let name: String = match header.projection_code() {
            Ok(s) => s,
            Err(e) => return Err(e),
        };
        let code: ProjCode = match ProjCode::from_str(name.as_str()) {
            Some(c) => c,
            None => {
                return Err(
                    Error::UnsupportedWcs(
                        "unsupported projection code '".to_owned().concat(name.as_str()).concat("'"),
                    ),
                )
            },
        };
        match require_degrees(header, "CUNIT1") {
            Ok(_) => {},
            Err(e) => return Err(e),
        }
        match require_degrees(header, "CUNIT2") {
            Ok(_) => {},
            Err(e) => return Err(e),
        }
        header.wcs_numbers(code)
    }
}

/// The first three letters of a projection code.
spec fn letters(c: ProjCode) -> (char, char, char) {
    match c {
        ProjCode::Tan => ('T', 'A', 'N'),
        ProjCode::Sin => ('S', 'I', 'N'),
        ProjCode::Arc => ('A', 'R', 'C'),
        ProjCode::Zea => ('Z', 'E', 'A'),
        ProjCode::Stg => ('S', 'T', 'G'),
        ProjCode::Azp => ('A', 'Z', 'P'),
        ProjCode::Szp => ('S', 'Z', 'P'),
        ProjCode::Air => ('A', 'I', 'R'),
        ProjCode::Ncp => ('N', 'C', 'P'),
        ProjCode::Feye => ('F', 'E', 'Y'),
        ProjCode::Mer => ('M', 'E', 'R'),
        ProjCode::Car => ('C', 'A', 'R'),
        ProjCode::Cea => ('C', 'E', 'A'),
        ProjCode::Cyp => ('C', 'Y', 'P'),
        ProjCode::Sfl => ('S', 'F', 'L'),
        ProjCode::Par => ('P', 'A', 'R'),
        ProjCode::Mol => ('M', 'O', 'L'),
        ProjCode::Ait => ('A', 'I', 'T'),
        ProjCode::Cod => ('C', 'O', 'D'),
        ProjCode::Coe => ('C', 'O', 'E'),
        ProjCode::Coo => ('C', 'O', 'O'),
        ProjCode::Cop => ('C', 'O', 'P'),
        ProjCode::Hpx => ('H', 'P', 'X'),
    }
}

proof fn lemma_letters(c: ProjCode)
    ensures
        c.name().len() >= 3,
        (c.name()[0], c.name()[1], c.name()[2]) == letters(c),
{
    reveal_strlit("TAN");
    reveal_strlit("SIN");
    reveal_strlit("ARC");
    reveal_strlit("ZEA");
    reveal_strlit("STG");
    reveal_strlit("AZP");
    reveal_strlit("SZP");
    reveal_strlit("AIR");
    reveal_strlit("NCP");
    reveal_strlit("FEYE");
    reveal_strlit("MER");
    reveal_strlit("CAR");
    reveal_strlit("CEA");
    reveal_strlit("CYP");
    reveal_strlit("SFL");
    reveal_strlit("PAR");
    reveal_strlit("MOL");
    reveal_strlit("AIT");
    reveal_strlit("COD");
    reveal_strlit("COE");
    reveal_strlit("COO");
    reveal_strlit("COP");
    reveal_strlit("HPX");
}

/// The projection of a code.
spec fn named(c: ProjCode) -> ProjCode {
    choose|d: ProjCode| c.name() == #[trigger] d.name()
}

/// The letters of each projection.
proof fn lemma_all_named()
    ensures
        forall|c: ProjCode| projection_named(#[trigger] c.name()) == Some(c),
{
    assert forall|c: ProjCode| projection_named(#[trigger] c.name()) == Some(c) by {
        projection_codes_differ(c, named(c));
    }
}

/// The projection that each text is the code of.
proof fn lemma_code_table()
    ensures
        projection_named("TAN"@) == Some(ProjCode::Tan),
        projection_named("SIN"@) == Some(ProjCode::Sin),
        projection_named("ARC"@) == Some(ProjCode::Arc),
        projection_named("ZEA"@) == Some(ProjCode::Zea),
        projection_named("STG"@) == Some(ProjCode::Stg),
        projection_named("AZP"@) == Some(ProjCode::Azp),
        projection_named("SZP"@) == Some(ProjCode::Szp),
        projection_named("AIR"@) == Some(ProjCode::Air),
        projection_named("NCP"@) == Some(ProjCode::Ncp),
        projection_named("FEYE"@) == Some(ProjCode::Feye),
        projection_named("MER"@) == Some(ProjCode::Mer),
        projection_named("CAR"@) == Some(ProjCode::Car),
        projection_named("CEA"@) == Some(ProjCode::Cea),
        projection_named("CYP"@) == Some(ProjCode::Cyp),
        projection_named("SFL"@) == Some(ProjCode::Sfl),
        projection_named("PAR"@) == Some(ProjCode::Par),
        projection_named("MOL"@) == Some(ProjCode::Mol),
        projection_named("AIT"@) == Some(ProjCode::Ait),
        projection_named("COD"@) == Some(ProjCode::Cod),
        projection_named("COE"@) == Some(ProjCode::Coe),
        projection_named("COO"@) == Some(ProjCode::Coo),
        projection_named("COP"@) == Some(ProjCode::Cop),
        projection_named("HPX"@) == Some(ProjCode::Hpx),
{
    projection_of_letters(ProjCode::Tan);
    projection_of_letters(ProjCode::Sin);
    projection_of_letters(ProjCode::Arc);
    projection_of_letters(ProjCode::Zea);
    projection_of_letters(ProjCode::Stg);
    projection_of_letters(ProjCode::Azp);
    projection_of_letters(ProjCode::Szp);
    projection_of_letters(ProjCode::Air);
    projection_of_letters(ProjCode::Ncp);
    projection_of_letters(ProjCode::Feye);
    projection_of_letters(ProjCode::Mer);
    projection_of_letters(ProjCode::Car);
    projection_of_letters(ProjCode::Cea);
    projection_of_letters(ProjCode::Cyp);
    projection_of_letters(ProjCode::Sfl);
    projection_of_letters(ProjCode::Par);
    projection_of_letters(ProjCode::Mol);
    projection_of_letters(ProjCode::Ait);
    projection_of_letters(ProjCode::Cod);
    projection_of_letters(ProjCode::Coe);
    projection_of_letters(ProjCode::Coo);
    projection_of_letters(ProjCode::Cop);
    projection_of_letters(ProjCode::Hpx);
}

/// The letters of a projection are its code.
pub proof fn projection_of_letters(c: ProjCode)
    ensures
        projection_named(c.name()) == Some(c),
{
    lemma_all_named();
}

proof fn lemma_digit_texts()
    ensures
        text::decimal(0) == "0"@,
        text::decimal(1) == "1"@,
{
    reveal_strlit("0");
    reveal_strlit("1");
    assert(text::decimal(0) =~= "0"@);
    assert(text::decimal(1) =~= "1"@);
}

proof fn lemma_names(h: Seq<KeywordView>, name: Seq<char>)
    ensures
        has(h, name) == names(h, name),
{
    header::lemma_position(h, name);
    let k = header::position(h, name);
    if has(h, name) {
        assert(text::same_ignoring_case(h[k].name, name));
    }
    if names(h, name) {
        let i = choose|i: int|
            0 <= i < h.len() && text::same_ignoring_case(#[trigger] h[i].name, name);
        assert(k <= i);
    }
}

/// Each number that is read is that of its own keyword; one that has a default takes it where
/// its keyword is missing; a `CD` matrix goes before `PC` and `CDELT`.
pub proof fn wcs_is_held(h: Seq<KeywordView>)
    ensures
        wcs_of(h) matches Ok(w) ==> held_by(h, w),
{
    lemma_digit_texts();
    lemma_names(h, "CD1_1"@);
    lemma_names(h, "CD1_2"@);
    lemma_names(h, "CD2_1"@);
    lemma_names(h, "CD2_2"@);
}

/// The projection code of an axis type is what stands behind its last dash, with blanks around
/// the whole or without.
pub proof fn code_behind_dash(axis: Seq<char>, code: Seq<char>, before: nat, after: nat)
    requires
        axis.len() > 0,
        !text::is_space(axis[0]),
        code.len() > 0,
        !text::is_space(code.last()),
        forall|i: int| 0 <= i < code.len() ==> #[trigger] code[i] != '-',
    ensures
        code_of(
            card_reading::spaces(before) + (axis + seq!['-'] + code) + card_reading::spaces(after),
        ) == code,
{
    let s = axis + seq!['-'] + code;
    card_reading::lemma_trim_between(before, s, after);
    lemma_after_dash(axis + seq!['-'], code);
}

proof fn lemma_after_dash(front: Seq<char>, code: Seq<char>)
    requires
        front.len() > 0,
        front.last() == '-',
        forall|i: int| 0 <= i < code.len() ==> #[trigger] code[i] != '-',
    ensures
        after_dash(front + code) == code,
    decreases code.len(),
{
    let s = front + code;
    if code.len() == 0 {
        assert(s =~= front);
        assert(after_dash(s) =~= code);
    } else {
        assert(s.last() == code[code.len() - 1]);
        assert(s.drop_last() =~= front + code.drop_last());
        assert forall|i: int| 0 <= i < code.drop_last().len() implies #[trigger] code.drop_last()[i]
            != '-' by {
            assert(code.drop_last()[i] == code[i]);
        }
        lemma_after_dash(front, code.drop_last());
        assert(after_dash(s) =~= code);
    }
}

/// The type of an axis with a projection, such as `RA---TAN`.
pub open spec fn axis_type(axis: Seq<char>, c: ProjCode) -> Seq<char> {
    axis + seq!['-'] + c.name()
}

/// A header that names two axes with the same projection and holds the numbers that are needed
/// is read: no distortion, units of degrees or none, the reference point, and a `CD` matrix or
/// a step for each axis.
pub proof fn complete_wcs_is_read(
    h: Seq<KeywordView>,
    axis1: Seq<char>,
    axis2: Seq<char>,
    c: ProjCode,
)
    requires
        axis1.len() > 0,
        axis2.len() > 0,
        !text::is_space(axis1[0]),
        !text::is_space(axis2[0]),
        header::string_of(h, "CTYPE1"@) == Some(axis_type(axis1, c)),
        header::string_of(h, "CTYPE2"@) == Some(axis_type(axis2, c)),
        forall|i: int| 0 <= i < h.len() ==> !sip_name(#[trigger] h[i].name),
        header::string_of(h, "CUNIT1"@) is None || header::string_of(h, "CUNIT1"@) == Some("deg"@),
        header::string_of(h, "CUNIT2"@) is None || header::string_of(h, "CUNIT2"@) == Some("deg"@),
        header::float_of(h, "CRVAL1"@) is Some,
        header::float_of(h, "CRVAL2"@) is Some,
        header::float_of(h, "CRPIX1"@) is Some,
        header::float_of(h, "CRPIX2"@) is Some,
        names(h, "CD1_1"@) || names(h, "CD1_2"@) || names(h, "CD2_1"@) || names(h, "CD2_2"@) || (
        header::float_of(h, "CDELT1"@) is Some && header::float_of(h, "CDELT2"@) is Some),
    ensures
        wcs_of(h) matches Ok(w) && w.code == c && held_by(h, w),
{
    wcs_is_held(h);
    lemma_names(h, "CD1_1"@);
    lemma_names(h, "CD1_2"@);
    lemma_names(h, "CD2_1"@);
    lemma_names(h, "CD2_2"@);
    projection_of_letters(c);
    lemma_code_text(c);
    lemma_axis(axis1, c);
    lemma_axis(axis2, c);
    reveal_strlit("deg");
    text::lemma_trim_same("deg"@);
}

/// A header with a SIP distortion is refused: with a coefficient `A_p_q` or `B_p_q`, or with an
/// axis type that ends in `-SIP`.
pub proof fn sip_is_refused(h: Seq<KeywordView>, i: int, p: char, q: char, front: Seq<char>)
    requires
        0 <= i < h.len(),
        text::is_digit(p),
        text::is_digit(q),
        ({
            ||| h[i].name == seq!['A', '_', p, '_', q]
            ||| h[i].name == seq!['B', '_', p, '_', q]
            ||| header::string_of(h, "CTYPE1"@) == Some(front + "-SIP"@)
            ||| header::string_of(h, "CTYPE2"@) == Some(front + "-SIP"@)
        }),
    ensures
        wcs_of(h) is Err,
{
    reveal_strlit("-SIP");
    let s = front + "-SIP"@;
    assert(s.last() == 'P');
    assert(text::trim_end(s) == s);
    assert(s.skip(s.len() - 4) =~= "-SIP"@);
    if h[i].name == seq!['A', '_', p, '_', q] || h[i].name == seq!['B', '_', p, '_', q] {
        assert(sip_name(h[i].name));
    }
}

/// A header with a unit other than degrees is refused.
pub proof fn other_units_are_refused(h: Seq<KeywordView>, unit: Seq<char>)
    requires
        header::string_of(h, "CUNIT1"@) == Some(unit) || header::string_of(h, "CUNIT2"@) == Some(
            unit,
        ),
        unit.len() > 0,
        !text::is_space(unit[0]),
        !text::is_space(unit.last()),
        text::ascii_upper(unit) != "DEG"@,
        text::ascii_upper(unit) != "DEGREE"@,
    ensures
        wcs_of(h) is Err,
{
    text::lemma_trim_same(unit);
    reveal_strlit("deg");
    reveal_strlit("DEG");
    reveal_strlit("degree");
    reveal_strlit("DEGREE");
    assert(text::ascii_upper("deg"@) =~= "DEG"@);
    assert(text::ascii_upper("degree"@) =~= "DEGREE"@);
}

/// Axis types with different projections are refused.
pub proof fn different_projections_are_refused(
    h: Seq<KeywordView>,
    axis1: Seq<char>,
    axis2: Seq<char>,
    c: ProjCode,
    d: ProjCode,
)
    requires
        axis1.len() > 0,
        axis2.len() > 0,
        !text::is_space(axis1[0]),
        !text::is_space(axis2[0]),
        header::string_of(h, "CTYPE1"@) == Some(axis_type(axis1, c)),
        header::string_of(h, "CTYPE2"@) == Some(axis_type(axis2, d)),
        c != d,
    ensures
        wcs_of(h) is Err,
{
    lemma_axis(axis1, c);
    lemma_axis(axis2, d);
    if c.name() == d.name() {
        projection_codes_differ(c, d);
    }
}

/// A projection code has neither dashes nor blanks, and is not `SIP`.
proof fn lemma_code_text(c: ProjCode)
    ensures
        c.name().len() >= 3,
        forall|i: int| 0 <= i < c.name().len() ==> 'A' <= #[trigger] c.name()[i] <= 'Z',
        c.name()[c.name().len() - 1] == 'P' ==> c.name()[c.name().len() - 2] != 'I'
            || c.name()[c.name().len() - 3] != 'S',
{
    reveal_strlit("TAN");
    reveal_strlit("SIN");
    reveal_strlit("ARC");
    reveal_strlit("ZEA");
    reveal_strlit("STG");
    reveal_strlit("AZP");
    reveal_strlit("SZP");
    reveal_strlit("AIR");
    reveal_strlit("NCP");
    reveal_strlit("FEYE");
    reveal_strlit("MER");
    reveal_strlit("CAR");
    reveal_strlit("CEA");
    reveal_strlit("CYP");
    reveal_strlit("SFL");
    reveal_strlit("PAR");
    reveal_strlit("MOL");
    reveal_strlit("AIT");
    reveal_strlit("COD");
    reveal_strlit("COE");
    reveal_strlit("COO");
    reveal_strlit("COP");
    reveal_strlit("HPX");
}

proof fn lemma_axis(axis: Seq<char>, c: ProjCode)
    requires
        axis.len() > 0,
        !text::is_space(axis[0]),
    ensures
        code_of(axis_type(axis, c)) == c.name(),
        !sip_ctype(axis_type(axis, c)),
{
    lemma_code_text(c);
    let s = axis_type(axis, c);
    let n = c.name().len() as int;
    assert(s.last() == c.name()[n - 1]);
    code_behind_dash(axis, c.name(), 0, 0);
    assert(card_reading::spaces(0) + s + card_reading::spaces(0) =~= s);
    assert(text::trim_end(s) == s);
    reveal_strlit("-SIP");
    if sip_ctype(s) {
        let t = s.skip(s.len() - 4);
        assert(t[3] == 'P' && t[2] == 'I' && t[1] == 'S');
        assert(t[3] == c.name()[n - 1]);
        assert(t[2] == c.name()[n - 2]);
        assert(t[1] == c.name()[n - 3]);
    }
}

/// No two projections have the same code.
pub proof fn projection_codes_differ(a: ProjCode, b: ProjCode)
    requires
        a.name() == b.name(),
    ensures
        a == b,
{
    lemma_letters(a);
    lemma_letters(b);
}

} // verus!
