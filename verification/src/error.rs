//! The error type shared by every module.
use crate::text;
use vstd::prelude::*;

verus! {

/// All errors produced by this crate.
#[allow(inconsistent_fields)]
#[derive(Debug)]
pub enum Error {
    Io(String),
    InvalidFormat(String),
    InvalidKeyword(String),
    UnsupportedBitpix(i64),
    MissingKeyword(String),
    KeywordTypeMismatch(String),
    DataSizeMismatch { expected: usize, actual: usize },
    ChecksumMismatch { expected: u32, actual: u32 },
    UnsupportedExtension(String),
    InvalidTableFormat(String),
    UnsupportedCompression(String),
    CompressionError(String),
    Wcs(String),
    UnsupportedWcs(String),
}

pub type Result<T> = std::result::Result<T, Error>;

/// What an error says.
#[allow(inconsistent_fields)]
pub enum ErrorView {
    Io(Seq<char>),
    InvalidFormat(Seq<char>),
    InvalidKeyword(Seq<char>),
    UnsupportedBitpix(int),
    MissingKeyword(Seq<char>),
    KeywordTypeMismatch(Seq<char>),
    DataSizeMismatch { expected: int, actual: int },
    ChecksumMismatch { expected: int, actual: int },
    UnsupportedExtension(Seq<char>),
    InvalidTableFormat(Seq<char>),
    UnsupportedCompression(Seq<char>),
    CompressionError(Seq<char>),
    Wcs(Seq<char>),
    UnsupportedWcs(Seq<char>),
}

impl View for Error {
    type V = ErrorView;

    open spec fn view(&self) -> ErrorView {
        match self {
            Error::Io(s) => ErrorView::Io(s@),
            Error::InvalidFormat(s) => ErrorView::InvalidFormat(s@),
            Error::InvalidKeyword(s) => ErrorView::InvalidKeyword(s@),
            Error::UnsupportedBitpix(b) => ErrorView::UnsupportedBitpix(*b as int),
            Error::MissingKeyword(s) => ErrorView::MissingKeyword(s@),
            Error::KeywordTypeMismatch(s) => ErrorView::KeywordTypeMismatch(s@),
            Error::DataSizeMismatch { expected, actual } => ErrorView::DataSizeMismatch {
                expected: *expected as int,
                actual: *actual as int,
            },
            Error::ChecksumMismatch { expected, actual } => ErrorView::ChecksumMismatch {
                expected: *expected as int,
                actual: *actual as int,
            },
            Error::UnsupportedExtension(s) => ErrorView::UnsupportedExtension(s@),
            Error::InvalidTableFormat(s) => ErrorView::InvalidTableFormat(s@),
            Error::UnsupportedCompression(s) => ErrorView::UnsupportedCompression(s@),
            Error::CompressionError(s) => ErrorView::CompressionError(s@),
            Error::Wcs(s) => ErrorView::Wcs(s@),
            Error::UnsupportedWcs(s) => ErrorView::UnsupportedWcs(s@),
        }
    }
}

/// Text with a number behind it.
pub(crate) fn with_number(s: &str, n: u64) -> (r: String)
    ensures
        r@ == s@ + text::decimal(n as int),
{
    s.to_owned().concat(text::decimal_u64(n).as_str())
}

/// One hexadecimal digit, in lower case.
pub open spec fn hex_digit(d: int) -> char {
    if d < 10 {
        (0x30 + d) as char
    } else {
        (0x57 + d) as char
    }
}

/// A number in a given count of hexadecimal digits.
pub open spec fn hex(v: nat, digits: nat) -> Seq<char>
    decreases digits,
{
    if digits == 0 {
        Seq::empty()
    } else {
        hex(v / 16, (digits - 1) as nat).push(hex_digit(v as int % 16))
    }
}

fn push_hex(s: &mut String, v: u32, digits: u8)
    ensures
        final(s)@ == old(s)@ + hex(v as nat, digits as nat),
    decreases digits,
{
    if digits > 0 {
        push_hex(s, v / 16, digits - 1);
        let d: u8 = (v % 16) as u8;
        let c: char = if d < 10 {
            (0x30 + d) as char
        } else {
            (0x57 + d) as char
        };
        s.push(c);
    }
    assert(s@ =~= old(s)@ + hex(v as nat, digits as nat));
}

impl Error {
    /// The message of an error.
    pub open spec fn message(self) -> Seq<char> {
        match self {
            Error::Io(s) => "I/O error: "@ + s@,
            Error::InvalidFormat(s) => "invalid FITS format: "@ + s@,
            Error::InvalidKeyword(s) => "invalid keyword: "@ + s@,
            Error::UnsupportedBitpix(b) => "unsupported BITPIX value: "@ + text::decimal(b as int),
            Error::MissingKeyword(s) => "missing required keyword: "@ + s@,
            Error::KeywordTypeMismatch(s) => "keyword type mismatch: "@ + s@,
            Error::DataSizeMismatch { expected, actual } => "data size mismatch: expected "@
                + text::decimal(expected as int) + ", got "@ + text::decimal(actual as int),
            Error::ChecksumMismatch { expected, actual } => "checksum mismatch: expected 0x"@ + hex(
                expected as nat,
                8,
            ) + ", got 0x"@ + hex(actual as nat, 8),
            Error::UnsupportedExtension(s) => "unsupported extension: "@ + s@,
            Error::InvalidTableFormat(s) => "invalid table format: "@ + s@,
            Error::UnsupportedCompression(s) => "unsupported compression: "@ + s@,
            Error::CompressionError(s) => "compression error: "@ + s@,
            Error::Wcs(s) => "WCS error: "@ + s@,
            Error::UnsupportedWcs(s) => "unsupported WCS: "@ + s@,
        }
    }

    /// The message of the error.
    pub fn display(&self) -> (r: String)
        ensures
            r@ == self.message(),
    {
        match self {
            Error::Io(s) => "I/O error: ".to_owned().concat(s.as_str()),
            Error::InvalidFormat(s) => "invalid FITS format: ".to_owned().concat(s.as_str()),
            Error::InvalidKeyword(s) => "invalid keyword: ".to_owned().concat(s.as_str()),
            Error::UnsupportedBitpix(b) => {
                let mut s = "unsupported BITPIX value: ".to_owned();
                text::push_decimal(&mut s, *b);
                s
            },
            Error::MissingKeyword(s) => "missing required keyword: ".to_owned().concat(s.as_str()),
            Error::KeywordTypeMismatch(s) => "keyword type mismatch: ".to_owned().concat(
                s.as_str(),
            ),
            Error::DataSizeMismatch { expected, actual } => {
                let e: String = text::decimal_u64(*expected as u64);
                let a: String = text::decimal_u64(*actual as u64);
                "data size mismatch: expected ".to_owned().concat(e.as_str()).concat(
                    ", got ",
                ).concat(a.as_str())
            },
            Error::ChecksumMismatch { expected, actual } => {
                let mut s = "checksum mismatch: expected 0x".to_owned();
                push_hex(&mut s, *expected, 8);
                let mut t = s.concat(", got 0x");
                push_hex(&mut t, *actual, 8);
                t
            },
            Error::UnsupportedExtension(s) => "unsupported extension: ".to_owned().concat(
                s.as_str(),
            ),
            Error::InvalidTableFormat(s) => "invalid table format: ".to_owned().concat(s.as_str()),
            Error::UnsupportedCompression(s) => "unsupported compression: ".to_owned().concat(
                s.as_str(),
            ),
            Error::CompressionError(s) => "compression error: ".to_owned().concat(s.as_str()),
            Error::Wcs(s) => "WCS error: ".to_owned().concat(s.as_str()),
            Error::UnsupportedWcs(s) => "unsupported WCS: ".to_owned().concat(s.as_str()),
        }
    }
}

} // verus!
