//! Header-data units: a header and the data it describes.
use crate::ascii_table;
use crate::ascii_table::AsciiTable;
use crate::bintable;
use crate::bintable::BinTable;
use crate::casts;
use crate::checksum;
use crate::error::{Error, ErrorView, Result};
use crate::header;
use crate::header::Header;
use crate::image_data;
use crate::image_data::ImageData;
use crate::io_utils;
use crate::io_utils::ByteReader;
use crate::keyword;
use crate::keyword::{HeaderValue, KeywordView, ValueView};
use crate::text;
use vstd::prelude::*;

verus! {

/// The data payload of an HDU.
#[derive(Debug)]
pub enum HduData {
    Empty,
    Image(ImageData),
    AsciiTable(AsciiTable),
    BinTable(BinTable),
}

/// What a data payload stands for.
pub enum DataView {
    Empty,
    Image(image_data::ImageView),
    AsciiTable(ascii_table::AsciiTableView),
    BinTable(bintable::BinTableView),
}

impl View for HduData {
    type V = DataView;

    open spec fn view(&self) -> DataView {
        match self {
            HduData::Empty => DataView::Empty,
            HduData::Image(img) => DataView::Image(img@),
            HduData::AsciiTable(t) => DataView::AsciiTable(t@),
            HduData::BinTable(t) => DataView::BinTable(t@),
        }
    }
}

impl Clone for HduData {
    fn clone(&self) -> (r: Self)
        ensures
            r@ == self@,
    {
        match self {
            HduData::Empty => HduData::Empty,
            HduData::Image(img) => HduData::Image(img.clone()),
            HduData::AsciiTable(t) => HduData::AsciiTable(t.clone()),
            HduData::BinTable(t) => HduData::BinTable(t.clone()),
        }
    }
}

/// A single Header Data Unit.
#[derive(Debug)]
pub struct Hdu {
    pub header: Header,
    pub data: HduData,
}

/// What an HDU stands for.
pub struct HduView {
    pub header: Seq<KeywordView>,
    pub data: DataView,
}

impl View for Hdu {
    type V = HduView;

    open spec fn view(&self) -> HduView {
        HduView { header: self.header@, data: self.data@ }
    }
}

impl Clone for Hdu {
    fn clone(&self) -> (r: Self)
        ensures
            r@ == self@,
    {
        Hdu { header: self.header.clone(), data: self.data.clone() }
    }
}

/// The data bytes of a payload, before block padding.
pub open spec fn payload(d: DataView) -> Seq<u8> {
    match d {
        DataView::Empty => Seq::empty(),
        DataView::Image(img) => image_data::pixel_bytes(img.pixels),
        DataView::AsciiTable(t) => t.raw_data,
        DataView::BinTable(t) => t.main_data + t.heap,
    }
}

/// The byte that pads a data unit: blanks for ASCII tables, zeros otherwise.
pub open spec fn fill_of(d: DataView) -> u8 {
    match d {
        DataView::AsciiTable(_) => 0x20,
        _ => 0,
    }
}

/// The data unit of a payload: whole blocks.
pub open spec fn data_unit(d: DataView) -> Seq<u8> {
    io_utils::padded_with(payload(d), fill_of(d))
}

/// The list of keywords with those that describe the data set.
pub open spec fn with_data(h: Seq<KeywordView>, d: DataView) -> Seq<KeywordView> {
    match d {
        DataView::Empty => h,
        DataView::Image(img) => image_data::with_image(h, img),
        DataView::AsciiTable(t) => ascii_table::with_table(h, t),
        DataView::BinTable(t) => bintable::with_table(h, t),
    }
}

/// The bytes of an HDU: header blocks and data blocks.
#[verifier::opaque]
pub open spec fn hdu_bytes(u: HduView) -> Seq<u8> {
    header::header_bytes(with_data(u.header, u.data)) + data_unit(u.data)
}

/// The header of an HDU that is written with checksums.
pub open spec fn stamped_header(u: HduView) -> Seq<KeywordView> {
    checksum::stamped(
        with_data(u.header, u.data),
        checksum::checksum_of(data_unit(u.data)),
    )
}

/// The bytes of an HDU that is written with checksums.
#[verifier::opaque]
pub open spec fn stamped_bytes(u: HduView) -> Seq<u8> {
    header::header_bytes(stamped_header(u)) + data_unit(u.data)
}

/// Whether a header starts a primary HDU or an image extension.
pub open spec fn describes_image(h: Seq<KeywordView>) -> bool {
    header::position(h, "SIMPLE"@) < h.len() || header::string_of(h, "XTENSION"@) == Some(
        "IMAGE"@,
    )
}

/// The payload that a header and the bytes of its data describe.
pub open spec fn data_of(h: Seq<KeywordView>, raw: Seq<u8>) -> std::result::Result<
    DataView,
    ErrorView,
> {
    let pcount = casts::size_of(header::int_or(h, "PCOUNT"@, 0)) as int;
    let extension = header::string_of(h, "XTENSION"@);
    if describes_image(h) {
        match image_data::image_of(h, raw.take(raw.len() - pcount)) {
            Err(e) => Err(e),
            Ok(img) => Ok(DataView::Image(img)),
        }
    } else if extension == Some("TABLE"@) {
        match ascii_table::table_of(h, raw) {
            Err(e) => Err(e),
            Ok(t) => Ok(DataView::AsciiTable(t)),
        }
    } else if extension == Some("BINTABLE"@) {
        match bintable::table_of(h, raw) {
            Err(e) => Err(e),
            Ok(t) => Ok(DataView::BinTable(t)),
        }
    } else {
        match extension {
            Some(name) => Err(ErrorView::UnsupportedExtension(name)),
            None => Ok(DataView::Empty),
        }
    }
}

/// Where a skip over `n` bytes from `at` ends: at the end of the bytes at most.
pub open spec fn skipped(len: nat, at: int, n: int) -> int {
    if at + n <= len {
        at + n
    } else {
        len as int
    }
}

/// The payload at the start of the bytes that follow a header, and how many of them
/// it takes; `size` is the number of data bytes that the header describes.
pub open spec fn data_read(h: Seq<KeywordView>, size: int, rest: Seq<u8>) -> std::result::Result<
    (DataView, int),
    ErrorView,
> {
    let pcount = casts::size_of(header::int_or(h, "PCOUNT"@, 0)) as int;
    if size == 0 {
        Ok((DataView::Empty, 0))
    } else if describes_image(h) && pcount == 0 {
        match image_data::image_read(h, rest) {
            Err(e) => Err(e),
            Ok(img) => Ok(
                (
                    DataView::Image(img),
                    skipped(
                        rest.len(),
                        image_data::image_size(img),
                        io_utils::padded(size) - size,
                    ),
                ),
            ),
        }
    } else if io_utils::padded(size) > rest.len() {
        Err(io_utils::eof())
    } else {
        match data_of(h, rest.take(size)) {
            Err(e) => Err(e),
            Ok(d) => Ok((d, io_utils::padded(size))),
        }
    }
}

/// The HDU at the start of some bytes, and how many of them it takes.
pub open spec fn hdu_read(data: Seq<u8>) -> std::result::Result<(HduView, int), ErrorView> {
    match header::read_records(data, 0, Seq::empty()) {
        Err(e) => Err(e),
        Ok((h, n)) => match header::data_bytes(h) {
            Err(e) => Err(e),
            Ok(size) => match data_read(h, size, data.skip(n as int)) {
                Err(e) => Err(e),
                Ok((d, m)) => Ok((HduView { header: h, data: d }, n + m)),
            },
        },
    }
}

proof fn lemma_describes(h: Seq<KeywordView>)
    requires
        header::data_bytes(h) is Ok,
        header::data_bytes(h)->Ok_0 > 0,
    ensures
        header::data_bytes(h)->Ok_0 >= casts::size_of(header::int_or(h, "PCOUNT"@, 0)),
{
    let bitpix = header::required_int(h, "BITPIX"@)->Ok_0;
    let naxis = header::required_int(h, "NAXIS"@)->Ok_0;
    let product = header::axes_product(h, 1, casts::size_of(naxis) as nat, 1)->Ok_0;
    let pcount = casts::size_of(header::int_or(h, "PCOUNT"@, 0)) as int;
    let gcount = casts::size_of(header::int_or(h, "GCOUNT"@, 1)) as int;
    let groups = header::value_width(bitpix) * gcount;
    lemma_product_nonneg(h, 1, casts::size_of(naxis) as nat, 1);
    let each = pcount + product;
    assert(groups * each >= each) by (nonlinear_arith)
        requires
            groups * each > 0,
            each >= 0,
    ;
}

proof fn lemma_product_nonneg(h: Seq<KeywordView>, i: nat, naxis: nat, product: int)
    requires
        product >= 0,
        header::axes_product(h, i, naxis, product) is Ok,
    ensures
        header::axes_product(h, i, naxis, product)->Ok_0 >= 0,
    decreases naxis + 1 - i,
{
    if i <= naxis {
        let n = header::required_int(h, "NAXIS"@ + text::decimal(i as int))->Ok_0;
        assert(product * casts::size_of(n) >= 0) by (nonlinear_arith)
            requires
                product >= 0,
                casts::size_of(n) >= 0,
        ;
        lemma_product_nonneg(h, i + 1, naxis, product * casts::size_of(n));
    }
}

fn is_extension(header: &Header, name: &str) -> (r: bool)
    ensures
        r == (header::string_of(header@, "XTENSION"@) == Some(name@)),
{
    match header.get_string("XTENSION") {
        Some(s) => {
            let chars: Vec<char> = text::char_vec(s);
            text::is_text(chars.as_slice(), name)
        },
        None => false,
    }
}

impl Hdu {
    pub fn new(header: Header, data: HduData) -> (r: Self)
        ensures
            r@ == (HduView { header: header@, data: data@ }),
    {
        Hdu { header, data }
    }

    /// The payload that a header and the bytes of its data describe.
    fn decode_data(header: &Header, raw: &[u8], is_image: bool, pcount: usize) -> (r: Result<
        HduData,
    >)
        requires
            is_image == describes_image(header@),
            pcount == casts::size_of(header::int_or(header@, "PCOUNT"@, 0)),
            pcount <= raw@.len(),
        ensures
            match (r, data_of(header@, raw@)) {
                (Ok(v), Ok(w)) => v@ == w,
                (Err(e), Err(f)) => e@ == f,
                _ => false,
            },
    {
        if is_image {
            let pixels = vstd::slice::slice_subrange(raw, 0, raw.len() - pcount);
            assert(pixels@ =~= raw@.take(raw@.len() - pcount));
            return match ImageData::from_header_and_data(header, pixels) {
                Ok(img) => Ok(HduData::Image(img)),
                Err(e) => Err(e),
            };
        }
        if is_extension(header, "TABLE") {
            return match AsciiTable::from_header_and_data(header, raw) {
                Ok(t) => Ok(HduData::AsciiTable(t)),
                Err(e) => Err(e),
            };
        }
        if is_extension(header, "BINTABLE") {
            return match BinTable::from_header_and_data(header, raw) {
                Ok(t) => Ok(HduData::BinTable(t)),
                Err(e) => Err(e),
            };
        }
        match header.get_string("XTENSION") {
            Some(name) => Err(Error::UnsupportedExtension(name.to_owned())),
            None => Ok(HduData::Empty),
        }
    }

    /// The payload that follows a header.
    fn read_data(header: &Header, size: usize, reader: &mut ByteReader<'_>) -> (r: Result<HduData>)
        requires
            header::data_bytes(header@) == Ok::<int, ErrorView>(size as int),
        ensures
            final(reader).bytes() == old(reader).bytes(),
            match (r, data_read(header@, size as int, old(reader).rest())) {
                (Ok(v), Ok((w, n))) => v@ == w && final(reader).offset() == old(reader).offset() + n
                    && 0 <= n <= old(reader).rest().len(),
                (Err(e), Err(f)) => e@ == f,
                _ => false,
            },
    {
        if size == 0 {
            return Ok(HduData::Empty);
        }
        let is_image: bool = header.find("SIMPLE").is_some() || is_extension(header, "IMAGE");
        proof {
            header::lemma_position(header@, "SIMPLE"@);
            lemma_describes(header@);
        }
        let pcount: usize = casts::usize_of_i64(header.int_or("PCOUNT", 0));
        let avail: usize = reader.remaining();
        if is_image && pcount == 0 {
            // Fast path: decode pixels straight from the reader (no raw copy),
            // then step over the block padding.
            let img: ImageData = match ImageData::read_from(header, reader) {
                Ok(img) => img,
                Err(e) => return Err(e),
            };
            let _ = io_utils::skip_padding(reader, size);
            return Ok(HduData::Image(img));
        }
        let raw: Vec<u8> = match io_utils::read_data_block(reader, size) {
            Ok(raw) => raw,
            Err(e) => return Err(e),
        };
        Hdu::decode_data(header, raw.as_slice(), is_image, pcount)
    }

    /// Read an HDU from a reader.
    pub fn read_from(reader: &mut ByteReader<'_>) -> (r: Result<Self>)
        ensures
            final(reader).bytes() == old(reader).bytes(),
            match (r, hdu_read(old(reader).rest())) {
                (Ok(v), Ok((w, n))) => v@ == w && final(reader).offset() == old(reader).offset() + n
                    && 0 <= n <= old(reader).rest().len(),
                (Err(e), Err(f)) => e@ == f,
                _ => false,
            },
    {
        let avail: usize = reader.remaining();
        let header: Header = match Header::read_from(reader) {
            Ok(h) => h,
            Err(e) => return Err(e),
        };
        let size: usize = match header.data_byte_count() {
            Ok(n) => n,
            Err(e) => return Err(e),
        };
        proof {
            let (h, n) = header::read_records(old(reader).rest(), 0, Seq::empty())->Ok_0;
            assert(reader.rest() =~= old(reader).rest().skip(n as int));
        }
        match Hdu::read_data(&header, size, reader) {
            Ok(data) => Ok(Hdu { header, data }),
            Err(e) => Err(e),
        }
    }

    /// Size of this HDU's data payload on disk, before block padding.
    pub fn data_byte_len(&self) -> (r: usize)
        requires
            payload(self@.data).len() <= usize::MAX,
        ensures
            r == payload(self@.data).len(),
    {
        match &self.data {
            HduData::Empty => 0,
            HduData::Image(img) => img.pixels.byte_len(),
            HduData::AsciiTable(table) => table.raw_data.len(),
            HduData::BinTable(table) => table.main_data.len() + table.heap.len(),
        }
    }

    /// Byte value used to pad this HDU's data unit to a block boundary:
    /// ASCII blanks for ASCII tables, zeros otherwise (the FITS standard requires blank fill for ASCII tables).
    fn fill_byte(&self) -> (r: u8)
        ensures
            r == fill_of(self@.data),
    {
        match &self.data {
            HduData::AsciiTable(_) => 0x20,
            _ => 0,
        }
    }

    /// Append the data unit: the payload and its padding.
    fn write_data(&self, out: &mut Vec<u8>)
        ensures
            final(out)@ == old(out)@ + data_unit(self@.data),
    {
        let start: usize = out.len();
        match &self.data {
            HduData::Empty => {},
            HduData::Image(img) => {
                let _ = img.pixels.write_to(out);
            },
            HduData::AsciiTable(table) => out.extend_from_slice(table.raw_data.as_slice()),
            HduData::BinTable(table) => {
                out.extend_from_slice(table.main_data.as_slice());
                out.extend_from_slice(table.heap.as_slice());
            },
        }
        assert(out@ =~= old(out)@ + payload(self@.data));
        let size: usize = out.len() - start;
        let _ = io_utils::write_padding(out, size, self.fill_byte());
        assert(out@ =~= old(out)@ + data_unit(self@.data));
    }

    /// Compute the DATASUM of this HDU's block-padded data unit.
    pub fn datasum(&self) -> (r: u32)
        ensures
            r == checksum::checksum_of(data_unit(self@.data)),
    {
        let mut data: Vec<u8> = Vec::new();
        self.write_data(&mut data);
        assert(data@ =~= data_unit(self@.data));
        checksum::datasum(data.as_slice())
    }

    /// The header with the keywords that describe the data.
    fn full_header(&self) -> (r: Header)
        ensures
            r@ == with_data(self@.header, self@.data),
    {
        let mut header: Header = self.header.clone();
        match &self.data {
            HduData::Empty => {},
            HduData::Image(img) => img.fill_header(&mut header),
            HduData::AsciiTable(table) => table.fill_header(&mut header),
            HduData::BinTable(table) => table.fill_header(&mut header),
        }
        header
    }

    /// Write this HDU to a buffer.
    pub fn write_to(&self, out: &mut Vec<u8>) -> (r: Result<()>)
        ensures
            r is Ok,
            final(out)@ == old(out)@ + hdu_bytes(self@),
    {
        let header: Header = self.full_header();
        let _ = header.write_to(out);
        self.write_data(out);
        reveal(hdu_bytes);
        assert(out@ =~= old(out)@ + hdu_bytes(self@));
        Ok(())
    }

    /// Write this HDU with CHECKSUM and DATASUM keywords computed and inserted.
    pub fn write_with_checksum(&self, out: &mut Vec<u8>) -> (r: Result<()>)
        ensures
            r is Ok,
            final(out)@ == old(out)@ + stamped_bytes(self@),
    {
        let mut header: Header = self.full_header();
        match checksum::stamp_hdu_with_datasum(&mut header, self.datasum()) {
            Ok(bytes) => out.extend_from_slice(bytes.as_slice()),
            Err(e) => return Err(e),
        }
        self.write_data(out);
        reveal(stamped_bytes);
        assert(out@ =~= old(out)@ + stamped_bytes(self@));
        Ok(())
    }

    /// Verify the DATASUM of this HDU (if the keyword is present).
    pub fn verify_datasum(&self) -> (r: Result<()>)
        ensures
            ({
                let computed = checksum::checksum_of(data_unit(self@.data));
                match (r, checksum::stored_datasum(self@.header)) {
                    (Ok(_), None) => true,
                    (Ok(_), Some(v)) => v == 0 || v == computed,
                    (Err(e), Some(v)) => v != 0 && v != computed && e
                        == (Error::ChecksumMismatch { expected: v as u32, actual: computed }),
                    (Err(_), None) => false,
                }
            }),
    {
        if self.header.find("DATASUM").is_none() {
            proof {
                header::lemma_position(self.header@, "DATASUM"@);
            }
            return Ok(());
        }
        checksum::verify_datasum_value(&self.header, self.datasum())
    }
}

/// The start of a primary header.
pub open spec fn primary_start() -> Seq<KeywordView> {
    header::with_set(
        Seq::empty(),
        "SIMPLE"@,
        ValueView::Logical(true),
        Some("conforms to FITS standard"@),
    )
}

/// The header of a primary HDU with no data.
pub open spec fn empty_primary_header() -> Seq<KeywordView> {
    header::with_set(
        header::with_set(primary_start(), "BITPIX"@, ValueView::Integer(8), None),
        "NAXIS"@,
        ValueView::Integer(0),
        None,
    )
}

/// The header of an image extension.
pub open spec fn image_extension_header(img: image_data::ImageView) -> Seq<KeywordView> {
    let start = header::with_set(
        Seq::empty(),
        "XTENSION"@,
        ValueView::Text("IMAGE"@),
        Some("image extension"@),
    );
    header::with_set(
        header::with_set(
            image_data::with_image(start, img),
            "PCOUNT"@,
            ValueView::Integer(0),
            None,
        ),
        "GCOUNT"@,
        ValueView::Integer(1),
        None,
    )
}

impl Hdu {
    /// Create a primary HDU with image data.
    pub fn primary_image(image: ImageData) -> (r: Self)
        ensures
            r@ == (HduView {
                header: image_data::with_image(primary_start(), image@),
                data: DataView::Image(image@),
            }),
    {
        let mut header = Header::new();
        header.set("SIMPLE", HeaderValue::Logical(true), Some("conforms to FITS standard"));
        image.fill_header(&mut header);
        Hdu { header, data: HduData::Image(image) }
    }

    /// Create a primary HDU with no data.
    pub fn primary_empty() -> (r: Self)
        ensures
            r@ == (HduView { header: empty_primary_header(), data: DataView::Empty }),
    {
        let mut header = Header::new();
        header.set("SIMPLE", HeaderValue::Logical(true), Some("conforms to FITS standard"));
        header.set("BITPIX", HeaderValue::Integer(8), None);
        header.set("NAXIS", HeaderValue::Integer(0), None);
        Hdu { header, data: HduData::Empty }
    }

    /// Create an IMAGE extension HDU.
    pub fn image_extension(image: ImageData) -> (r: Self)
        ensures
            r@ == (HduView {
                header: image_extension_header(image@),
                data: DataView::Image(image@),
            }),
    {
        let mut header = Header::new();
        header.set("XTENSION", HeaderValue::String("IMAGE".to_owned()), Some("image extension"));
        image.fill_header(&mut header);
        header.set("PCOUNT", HeaderValue::Integer(0), None);
        header.set("GCOUNT", HeaderValue::Integer(1), None);
        Hdu { header, data: HduData::Image(image) }
    }

    /// Create an ASCII TABLE extension HDU.
    pub fn ascii_table_extension(table: AsciiTable) -> (r: Self)
        ensures
            r@ == (HduView {
                header: ascii_table::with_table(Seq::empty(), table@),
                data: DataView::AsciiTable(table@),
            }),
    {
        let mut header = Header::new();
        table.fill_header(&mut header);
        Hdu { header, data: HduData::AsciiTable(table) }
    }

    /// Create a BINTABLE extension HDU.
    pub fn bintable_extension(table: BinTable) -> (r: Self)
        ensures
            r@ == (HduView {
                header: bintable::with_table(Seq::empty(), table@),
                data: DataView::BinTable(table@),
            }),
    {
        let mut header = Header::new();
        table.fill_header(&mut header);
        Hdu { header, data: HduData::BinTable(table) }
    }
}

/// An HDU that is written with checksums verifies: the sum of its header and data
/// blocks is all ones.
pub proof fn stamped_bytes_verify(u: HduView)
    ensures
        checksum::ones_fold(
            (checksum::checksum_of(header::header_bytes(stamped_header(u)))
                + checksum::checksum_of(data_unit(u.data))) as nat,
        ) == checksum::ALL_ONES,
        checksum::stored_datasum(stamped_header(u)) == Some(
            checksum::checksum_of(data_unit(u.data)) as int,
        ),
{
    checksum::stamped_hdu_verifies(with_data(u.header, u.data), data_unit(u.data));
    checksum::stamped_datasum(
        with_data(u.header, u.data),
        checksum::checksum_of(data_unit(u.data)),
    );
}

/// The header and data of an HDU are written as whole blocks.
pub proof fn hdu_bytes_are_blocks(u: HduView)
    ensures
        hdu_bytes(u).len() % 2880 == 0,
        stamped_bytes(u).len() % 2880 == 0,
{
    reveal(hdu_bytes);
    reveal(stamped_bytes);
    io_utils::padded_is_least_multiple(payload(u.data).len() as int);
    header::header_bytes_are_blocks(with_data(u.header, u.data));
    header::header_bytes_are_blocks(stamped_header(u));
}

/// An HDU takes at least the block of its header.
pub proof fn lemma_hdu_takes(data: Seq<u8>)
    ensures
        hdu_read(data) is Ok ==> hdu_read(data)->Ok_0.1 > 0,
{
    if hdu_read(data) is Ok {
        lemma_records_take(data, 0, Seq::empty());
        let (h, n) = header::read_records(data, 0, Seq::empty())->Ok_0;
        let size = header::data_bytes(h)->Ok_0;
        lemma_size_nonneg(h);
        io_utils::padded_is_least_multiple(size);
        match image_data::image_read(h, data.skip(n as int)) {
            Ok(img) => {
                assert(image_data::image_size(img) >= 0) by (nonlinear_arith)
                    requires
                        image_data::image_size(img) == img.pixels.values.len()
                            * img.pixels.kind.width() as int,
                ;
            },
            Err(_) => {},
        }
    }
}

proof fn lemma_size_nonneg(h: Seq<KeywordView>)
    ensures
        header::data_bytes(h) is Ok ==> header::data_bytes(h)->Ok_0 >= 0,
{
    if header::data_bytes(h) is Ok && casts::size_of(header::required_int(h, "NAXIS"@)->Ok_0) != 0 {
        let naxis = header::required_int(h, "NAXIS"@)->Ok_0;
        let bitpix = header::required_int(h, "BITPIX"@)->Ok_0;
        let product = header::axes_product(h, 1, casts::size_of(naxis) as nat, 1)->Ok_0;
        lemma_product_nonneg(h, 1, casts::size_of(naxis) as nat, 1);
        let width = header::value_width(bitpix);
        let gcount = casts::size_of(header::int_or(h, "GCOUNT"@, 1)) as int;
        let each = casts::size_of(header::int_or(h, "PCOUNT"@, 0)) + product;
        assert(width * gcount >= 0) by (nonlinear_arith)
            requires
                width >= 0,
                gcount >= 0,
        ;
        assert((width * gcount) * each >= 0) by (nonlinear_arith)
            requires
                width * gcount >= 0,
                each >= 0,
        ;
    }
}

proof fn lemma_records_take(data: Seq<u8>, i: nat, h: Seq<KeywordView>)
    ensures
        header::read_records(data, i, h) is Ok ==> header::read_records(data, i, h)->Ok_0.1
            >= 2880,
    decreases data.len() - 80 * i,
{
    let block_end = (80 * i) / 2880 * 2880 + 2880;
    if data.len() >= block_end && !header::is_end(header::record_at(data, i as int)) {
        match keyword::card_keyword(header::record_at(data, i as int)) {
            Some(k) => lemma_records_take(data, i + 1, header::with_card(h, k)),
            None => {},
        }
    }
}

/// What a header says its data is: an image in a primary HDU and in an IMAGE extension, a table
/// in an extension of that name, and no other extension. The bytes of the parameters, which
/// stand behind the image, are no pixels.
pub proof fn data_by_extension(h: Seq<KeywordView>, bytes: Seq<u8>, params: Seq<u8>, name: Seq<char>)
    requires
        header::string_of(h, "XTENSION"@) == Some(name) || header::string_of(h, "XTENSION"@) is None,
        header::int_of(h, "PCOUNT"@) == Some(params.len() as int) || header::int_of(h, "PCOUNT"@)
            is None && params.len() == 0,
        params.len() <= i64::MAX,
        params.len() <= usize::MAX,
    ensures
        ({
            let primary = header::position(h, "SIMPLE"@) < h.len();
            let extension = header::string_of(h, "XTENSION"@);
            &&& primary || extension == Some("IMAGE"@) ==> (match (
                data_of(h, bytes + params),
                image_data::image_of(h, bytes),
            ) {
                (Ok(d), Ok(img)) => d == DataView::Image(img),
                (Err(e), Err(f)) => e == f,
                _ => false,
            })
            &&& !primary && extension == Some("BINTABLE"@) ==> (match (
                data_of(h, bytes),
                bintable::table_of(h, bytes),
            ) {
                (Ok(d), Ok(t)) => d == DataView::BinTable(t),
                (Err(e), Err(f)) => e == f,
                _ => false,
            })
            &&& !primary && extension == Some("TABLE"@) ==> (match (
                data_of(h, bytes),
                ascii_table::table_of(h, bytes),
            ) {
                (Ok(d), Ok(t)) => d == DataView::AsciiTable(t),
                (Err(e), Err(f)) => e == f,
                _ => false,
            })
            &&& !primary && extension == Some(name) && name != "IMAGE"@ && name != "TABLE"@ && name
                != "BINTABLE"@ ==> data_of(h, bytes) == Err::<DataView, ErrorView>(
                ErrorView::UnsupportedExtension(name),
            )
            &&& !primary && extension is None ==> data_of(h, bytes) == Ok::<DataView, ErrorView>(
                DataView::Empty,
            )
        }),
{
    reveal_strlit("IMAGE");
    reveal_strlit("TABLE");
    reveal_strlit("BINTABLE");
    assert("IMAGE"@[0] == 'I' && "TABLE"@[0] == 'T' && "BINTABLE"@[0] == 'B');
    assert((bytes + params).take(bytes.len() as int) =~= bytes);
}

} // verus!
