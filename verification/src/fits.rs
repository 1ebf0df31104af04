//! FITS files: a sequence of header-data units.
use crate::error::{Error, ErrorView, Result};
use crate::hdu;
use crate::hdu::{Hdu, HduView};
use crate::header;
use crate::image_data;
use crate::image_data::ImageData;
use crate::io_utils;
use crate::io_utils::ByteReader;
use crate::text;
use vstd::prelude::*;

verus! {

/// Top-level FITS file containing one or more HDUs.
#[derive(Debug)]
pub struct FitsFile {
    pub hdus: Vec<Hdu>,
}

impl View for FitsFile {
    type V = Seq<HduView>;

    open spec fn view(&self) -> Seq<HduView> {
        hdu_views(self.hdus@)
    }
}

/// What HDUs stand for.
pub open spec fn hdu_views(hdus: Seq<Hdu>) -> Seq<HduView> {
    Seq::new(hdus.len(), |i: int| hdus[i]@)
}

impl Clone for FitsFile {
    fn clone(&self) -> (r: Self)
        ensures
            r@ == self@,
    {
        let mut out: Vec<Hdu> = Vec::new();
        let mut i: usize = 0;
        while i < self.hdus.len()
            invariant
                i <= self.hdus@.len(),
                out@.len() == i,
                forall|j: int| 0 <= j < i ==> (#[trigger] out@[j])@ == self.hdus@[j]@,
            decreases self.hdus@.len() - i,
        {
            out.push(self.hdus[i].clone());
            i += 1;
        }
        let r = FitsFile { hdus: out };
        assert(r@ =~= self@);
        r
    }
}

/// The HDUs that bytes hold one after the other, up to where the bytes end before
/// an HDU does.
pub open spec fn hdus_read(data: Seq<u8>) -> std::result::Result<Seq<HduView>, ErrorView>
    decreases data.len(),
{
    match hdu::hdu_read(data) {
        Err(e) => if e is Io {
            Ok(Seq::empty())
        } else {
            Err(e)
        },
        Ok((u, n)) => if 0 < n <= data.len() {
            match hdus_read(data.skip(n)) {
                Err(e) => Err(e),
                Ok(t) => Ok(seq![u] + t),
            }
        } else {
            Err(io_utils::eof())
        },
    }
}

/// The HDUs of a file: the first must be complete.
pub open spec fn file_read(data: Seq<u8>) -> std::result::Result<Seq<HduView>, ErrorView> {
    match hdu::hdu_read(data) {
        Err(e) => Err(e),
        Ok(_) => hdus_read(data),
    }
}

/// The bytes of HDUs one after the other.
pub open spec fn file_bytes(hdus: Seq<HduView>) -> Seq<u8>
    decreases hdus.len(),
{
    if hdus.len() == 0 {
        Seq::empty()
    } else {
        file_bytes(hdus.drop_last()) + hdu::hdu_bytes(hdus.last())
    }
}

/// The bytes of HDUs with checksums one after the other.
pub open spec fn stamped_file_bytes(hdus: Seq<HduView>) -> Seq<u8>
    decreases hdus.len(),
{
    if hdus.len() == 0 {
        Seq::empty()
    } else {
        stamped_file_bytes(hdus.drop_last()) + hdu::stamped_bytes(hdus.last())
    }
}

/// One more HDU adds its bytes.
proof fn lemma_file_step(hdus: Seq<HduView>, i: int)
    requires
        0 <= i < hdus.len(),
    ensures
        file_bytes(hdus.take(i + 1)) == file_bytes(hdus.take(i)) + hdu::hdu_bytes(hdus[i]),
        stamped_file_bytes(hdus.take(i + 1)) == stamped_file_bytes(hdus.take(i))
            + hdu::stamped_bytes(hdus[i]),
{
    assert(hdus.take(i + 1).drop_last() =~= hdus.take(i));
}

/// A file is written as whole blocks.
pub proof fn file_bytes_are_blocks(hdus: Seq<HduView>)
    ensures
        file_bytes(hdus).len() % 2880 == 0,
        stamped_file_bytes(hdus).len() % 2880 == 0,
    decreases hdus.len(),
{
    if hdus.len() > 0 {
        file_bytes_are_blocks(hdus.drop_last());
        hdu::hdu_bytes_are_blocks(hdus.last());
    }
}

impl FitsFile {
    pub fn new() -> (r: Self)
        ensures
            r@ == Seq::<HduView>::empty(),
    {
        let r = FitsFile { hdus: Vec::new() };
        assert(r@ =~= Seq::empty());
        r
    }

    /// Read a FITS file from a reader: HDUs up to the end of the input, which the reader
    /// has then reached.
    pub fn from_reader(reader: &mut ByteReader<'_>) -> (r: Result<Self>)
        ensures
            final(reader).bytes() == old(reader).bytes(),
            r is Ok ==> final(reader).offset() == final(reader).bytes().len(),
            match (r, file_read(old(reader).rest())) {
                (Ok(v), Ok(w)) => v@ == w,
                (Err(e), Err(f)) => e@ == f,
                _ => false,
            },
    {
        let mut hdus: Vec<Hdu> = Vec::new();
        let ghost data = reader.rest();
        let ghost whole = hdus_read(data);
        if reader.remaining() == 0 {
            return Err(io_utils::unexpected_eof());
        }
        let ghost end = reader.bytes().len();
        proof {
            match whole {
                Ok(t) => {
                    assert(hdu_views(hdus@) + t =~= t);
                },
                Err(_) => {},
            }
        }
        loop
            invariant
                reader.bytes() == old(reader).bytes(),
                end == reader.bytes().len(),
                reader.offset() <= end,
                data == old(reader).rest(),
                whole == hdus_read(data),
                hdus@.len() == 0 ==> reader.rest() == data,
                hdus@.len() > 0 ==> hdu::hdu_read(data) is Ok,
                whole == (match hdus_read(reader.rest()) {
                    Err(e) => Err(e),
                    Ok(t) => Ok::<Seq<HduView>, ErrorView>(hdu_views(hdus@) + t),
                }),
            decreases end - reader.offset(),
        {
            let ghost rest = reader.rest();
            let ghost at = reader.offset();
            match Hdu::read_from(reader) {
                Ok(u) => {
                    let ghost before = hdus@;
                    let ghost v = u@;
                    proof {
                        hdu::lemma_hdu_takes(rest);
                        assert(reader.rest() =~= rest.skip((reader.offset() - at) as int));
                    }
                    hdus.push(u);
                    proof {
                        match hdus_read(reader.rest()) {
                            Ok(t) => {
                                assert(hdu_views(before) + (seq![v] + t) =~= hdu_views(hdus@) + t);
                            },
                            Err(_) => {},
                        }
                    }
                },
                Err(Error::Io(message)) => {
                    if hdus.len() == 0 {
                        return Err(Error::Io(message));
                    }
                    assert(hdu_views(hdus@) + Seq::<HduView>::empty() =~= hdu_views(hdus@));
                    let left: usize = reader.remaining();
                    reader.skip(left);
                    return Ok(FitsFile { hdus });
                },
                Err(e) => return Err(e),
            }
        }
    }

    /// Read a FITS file from a byte slice.
    pub fn from_bytes(data: &[u8]) -> (r: Result<Self>)
        ensures
            match (r, file_read(data@)) {
                (Ok(v), Ok(w)) => v@ == w,
                (Err(e), Err(f)) => e@ == f,
                _ => false,
            },
    {
        let mut reader = ByteReader::new(data);
        assert(reader.rest() =~= data@);
        FitsFile::from_reader(&mut reader)
    }

    /// Append the bytes of all HDUs.
    pub fn to_writer(&self, out: &mut Vec<u8>) -> (r: Result<()>)
        ensures
            r is Ok,
            final(out)@ == old(out)@ + file_bytes(self@),
    {
        let mut i: usize = 0;
        assert(self@.take(0) =~= Seq::empty());
        assert(out@ =~= old(out)@ + file_bytes(self@.take(0)));
        while i < self.hdus.len()
            invariant
                i <= self.hdus@.len(),
                out@ == old(out)@ + file_bytes(self@.take(i as int)),
            decreases self.hdus@.len() - i,
        {
            let _ = self.hdus[i].write_to(out);
            proof {
                lemma_file_step(self@, i as int);
                assert(out@ =~= old(out)@ + file_bytes(self@.take(i + 1)));
            }
            i += 1;
        }
        assert(self@.take(i as int) =~= self@);
        Ok(())
    }

    /// Append the bytes of all HDUs with CHECKSUM/DATASUM keywords in every HDU.
    pub fn to_writer_with_checksum(&self, out: &mut Vec<u8>) -> (r: Result<()>)
        ensures
            r is Ok,
            final(out)@ == old(out)@ + stamped_file_bytes(self@),
    {
        let mut i: usize = 0;
        assert(self@.take(0) =~= Seq::empty());
        assert(out@ =~= old(out)@ + stamped_file_bytes(self@.take(0)));
        while i < self.hdus.len()
            invariant
                i <= self.hdus@.len(),
                out@ == old(out)@ + stamped_file_bytes(self@.take(i as int)),
            decreases self.hdus@.len() - i,
        {
            let _ = self.hdus[i].write_with_checksum(out);
            proof {
                lemma_file_step(self@, i as int);
                assert(out@ =~= old(out)@ + stamped_file_bytes(self@.take(i + 1)));
            }
            i += 1;
        }
        assert(self@.take(i as int) =~= self@);
        Ok(())
    }

    /// Write to a byte vector.
    pub fn to_bytes(&self) -> (r: Result<Vec<u8>>)
        ensures
            r is Ok,
            r->Ok_0@ == file_bytes(self@),
            r->Ok_0@.len() % 2880 == 0,
    {
        let mut out: Vec<u8> = Vec::new();
        let _ = self.to_writer(&mut out);
        proof {
            file_bytes_are_blocks(self@);
            assert(out@ =~= file_bytes(self@));
        }
        Ok(out)
    }

    /// Write to a byte vector with CHECKSUM/DATASUM keywords.
    pub fn to_bytes_with_checksum(&self) -> (r: Result<Vec<u8>>)
        ensures
            r is Ok,
            r->Ok_0@ == stamped_file_bytes(self@),
            r->Ok_0@.len() % 2880 == 0,
    {
        let mut out: Vec<u8> = Vec::new();
        let _ = self.to_writer_with_checksum(&mut out);
        proof {
            file_bytes_are_blocks(self@);
            assert(out@ =~= stamped_file_bytes(self@));
        }
        Ok(out)
    }

    /// Get the primary HDU.
    pub fn primary(&self) -> (r: &Hdu)
        requires
            self@.len() > 0,
        ensures
            r@ == self@[0],
    {
        &self.hdus[0]
    }

    /// Get the primary HDU mutably.
    pub fn primary_mut(&mut self) -> (r: &mut Hdu)
        requires
            old(self)@.len() > 0,
        ensures
            r@ == old(self)@[0],
            final(self)@ == old(self)@.update(0, final(r)@),
    {
        let r = &mut self.hdus[0];
        r
    }

    /// Get extension HDUs (everything after the primary).
    pub fn extensions(&self) -> (r: &[Hdu])
        ensures
            hdu_views(r@) == if self@.len() > 1 {
                self@.skip(1)
            } else {
                Seq::empty()
            },
    {
        let n: usize = self.hdus.len();
        let r = if n > 1 {
            vstd::slice::slice_subrange(self.hdus.as_slice(), 1, n)
        } else {
            vstd::slice::slice_subrange(self.hdus.as_slice(), 0, 0)
        };
        assert(hdu_views(r@) =~= if self@.len() > 1 {
            self@.skip(1)
        } else {
            Seq::empty()
        });
        r
    }

    /// Number of HDUs.
    pub fn len(&self) -> (r: usize)
        ensures
            r == self@.len(),
    {
        self.hdus.len()
    }

    /// Whether the file has no HDUs.
    pub fn is_empty(&self) -> (r: bool)
        ensures
            r == (self@.len() == 0),
    {
        self.hdus.len() == 0
    }

    /// Create a FitsFile with a single primary image HDU.
    pub fn with_primary_image(image: ImageData) -> (r: Self)
        ensures
            r@ == seq![
                HduView {
                    header: image_data::with_image(hdu::primary_start(), image@),
                    data: hdu::DataView::Image(image@),
                },
            ],
    {
        let mut r = FitsFile::new();
        r.push_extension(Hdu::primary_image(image));
        r
    }

    /// Create a FitsFile with an empty primary HDU.
    pub fn with_empty_primary() -> (r: Self)
        ensures
            r@ == seq![
                HduView { header: hdu::empty_primary_header(), data: hdu::DataView::Empty },
            ],
    {
        let mut r = FitsFile::new();
        r.push_extension(Hdu::primary_empty());
        r
    }

    /// Add an extension HDU.
    pub fn push_extension(&mut self, hdu: Hdu)
        ensures
            final(self)@ == old(self)@.push(hdu@),
    {
        let ghost before = self@;
        let ghost u = hdu@;
        self.hdus.push(hdu);
        assert(self@ =~= before.push(u));
    }

    /// Find the first extension HDU with a given EXTNAME.
    pub fn find_extension(&self, extname: &str) -> (r: Option<&Hdu>)
        ensures
            match r {
                Some(u) => exists|i: int|
                    1 <= i < self@.len() && #[trigger] self@[i] == u@ && header::string_of(
                        self@[i].header,
                        "EXTNAME"@,
                    ) == Some(extname@) && forall|j: int|
                        1 <= j < i ==> header::string_of(
                            (#[trigger] self@[j]).header,
                            "EXTNAME"@,
                        ) != Some(extname@),
                None => forall|j: int|
                    1 <= j < self@.len() ==> header::string_of(
                        (#[trigger] self@[j]).header,
                        "EXTNAME"@,
                    ) != Some(extname@),
            },
    {
        let mut i: usize = 1;
        while i < self.hdus.len()
            invariant
                1 <= i,
                forall|j: int|
                    1 <= j < i && j < self@.len() ==> header::string_of(
                        (#[trigger] self@[j]).header,
                        "EXTNAME"@,
                    ) != Some(extname@),
            decreases self.hdus@.len() - i,
        {
            assert(self@[i as int] == self.hdus@[i as int]@);
            match self.hdus[i].header.get_string("EXTNAME") {
                Some(name) => {
                    let chars: Vec<char> = text::char_vec(name);
                    if text::is_text(chars.as_slice(), extname) {
                        return Some(&self.hdus[i]);
                    }
                },
                None => {},
            }
            i += 1;
        }
        None
    }

    /// All HDUs in order.
    pub fn iter(&self) -> (r: &[Hdu])
        ensures
            hdu_views(r@) == self@,
    {
        self.hdus.as_slice()
    }
}

impl Default for FitsFile {
    fn default() -> (r: Self)
        ensures
            r@ == Seq::<HduView>::empty(),
    {
        FitsFile::new()
    }
}

} // verus!
