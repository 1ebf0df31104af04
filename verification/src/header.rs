//! An ordered list of keywords: lookup, update, and the blocks of a file.
use crate::casts;
use crate::error::{Error, ErrorView, Result};
use crate::io_utils;
use crate::io_utils::ByteReader;
use crate::keyword;
use crate::keyword::{HeaderValue, Keyword, KeywordView, ValueView};
use crate::number::Real;
use crate::text;
use vstd::prelude::*;

verus! {

/// An ordered collection of FITS header keywords.
#[derive(Debug)]
pub struct Header {
    pub keywords: Vec<Keyword>,
}

impl View for Header {
    type V = Seq<KeywordView>;

    open spec fn view(&self) -> Seq<KeywordView> {
        views_of(self.keywords@)
    }
}

/// What a list of keywords stands for.
pub open spec fn views_of(keywords: Seq<Keyword>) -> Seq<KeywordView> {
    Seq::new(keywords.len(), |i: int| keywords[i]@)
}

/// The position of the first keyword with a name, in any case; the length of
/// the list where there is none.
pub open spec fn position(h: Seq<KeywordView>, name: Seq<char>) -> int
    decreases h.len(),
{
    if h.len() == 0 || text::same_ignoring_case(h[0].name, name) {
        0
    } else {
        1 + position(h.skip(1), name)
    }
}

/// The value of the first keyword with a name.
pub open spec fn lookup(h: Seq<KeywordView>, name: Seq<char>) -> Option<ValueView> {
    let k = position(h, name);
    if k < h.len() {
        h[k].value
    } else {
        None
    }
}

/// An integer by keyword name.
pub open spec fn int_of(h: Seq<KeywordView>, name: Seq<char>) -> Option<int> {
    match lookup(h, name) {
        Some(ValueView::Integer(i)) => Some(i),
        _ => None,
    }
}

/// A floating-point number by keyword name.
pub open spec fn float_of(h: Seq<KeywordView>, name: Seq<char>) -> Option<Seq<char>> {
    match lookup(h, name) {
        Some(v) => v.float(),
        None => None,
    }
}

/// A string by keyword name.
pub open spec fn string_of(h: Seq<KeywordView>, name: Seq<char>) -> Option<Seq<char>> {
    match lookup(h, name) {
        Some(ValueView::Text(s)) => Some(s),
        _ => None,
    }
}

/// A truth value by keyword name.
pub open spec fn bool_of(h: Seq<KeywordView>, name: Seq<char>) -> Option<bool> {
    match lookup(h, name) {
        Some(ValueView::Logical(b)) => Some(b),
        _ => None,
    }
}

/// An integer that must be there.
pub open spec fn required_int(h: Seq<KeywordView>, name: Seq<char>) -> std::result::Result<
    int,
    ErrorView,
> {
    match int_of(h, name) {
        Some(i) => Ok(i),
        None => Err(ErrorView::MissingKeyword(name)),
    }
}

/// The list with a keyword set: the first of that name gets the value and, if
/// there is one, the comment; without one, a new keyword ends the list.
pub open spec fn with_set(
    h: Seq<KeywordView>,
    name: Seq<char>,
    value: ValueView,
    comment: Option<Seq<char>>,
) -> Seq<KeywordView> {
    let k = position(h, name);
    if k < h.len() {
        h.update(
            k,
            KeywordView {
                name: h[k].name,
                value: Some(value),
                comment: if comment is Some {
                    comment
                } else {
                    h[k].comment
                },
            },
        )
    } else {
        h.push(KeywordView { name: text::upper(name), value: Some(value), comment })
    }
}

pub proof fn lemma_position(h: Seq<KeywordView>, name: Seq<char>)
    ensures
        0 <= position(h, name) <= h.len(),
        forall|i: int|
            0 <= i < position(h, name) ==> !text::same_ignoring_case(#[trigger] h[i].name, name),
        position(h, name) < h.len() ==> text::same_ignoring_case(
            h[position(h, name)].name,
            name,
        ),
    decreases h.len(),
{
    if h.len() > 0 && !text::same_ignoring_case(h[0].name, name) {
        let t = h.skip(1);
        lemma_position(t, name);
        assert forall|i: int| 0 <= i < position(h, name) implies !text::same_ignoring_case(
            #[trigger] h[i].name,
            name,
        ) by {
            if i > 0 {
                assert(t[i - 1] == h[i]);
            }
        }
    }
}

impl Header {
    pub fn new() -> (r: Self)
        ensures
            r@ == Seq::<KeywordView>::empty(),
    {
        let r = Header { keywords: Vec::new() };
        assert(r@ =~= Seq::<KeywordView>::empty());
        r
    }

    /// The position of the first keyword with a name, or the number of keywords.
    fn locate(&self, name: &str) -> (r: usize)
        ensures
            r == position(self@, name@),
            r <= self.keywords@.len(),
            r <= self@.len(),
    {
        let mut i: usize = 0;
        assert(self@.skip(0) =~= self@);
        while i < self.keywords.len()
            invariant
                i <= self.keywords@.len(),
                position(self@, name@) == i + position(self@.skip(i as int), name@),
            decreases self.keywords@.len() - i,
        {
            let ghost rest = self@.skip(i as int);
            assert(rest[0] == self.keywords@[i as int]@);
            if text::eq_ignore_ascii_case(self.keywords[i].name.as_str(), name) {
                return i;
            }
            assert(rest.skip(1) =~= self@.skip(i + 1));
            i += 1;
        }
        i
    }

    /// Find the first keyword with the given name.
    pub fn find(&self, name: &str) -> (r: Option<&Keyword>)
        ensures
            match r {
                Some(k) => position(self@, name@) < self@.len() && k@ == self@[position(
                    self@,
                    name@,
                )],
                None => position(self@, name@) == self@.len(),
            },
    {
        let i: usize = self.locate(name);
        if i < self.keywords.len() {
            Some(&self.keywords[i])
        } else {
            None
        }
    }

    /// Get an integer value by keyword name.
    pub fn get_int(&self, name: &str) -> (r: Option<i64>)
        ensures
            match r {
                Some(i) => int_of(self@, name@) == Some(i as int),
                None => int_of(self@, name@) is None,
            },
    {
        match self.find(name) {
            Some(k) => match &k.value {
                Some(v) => v.as_int(),
                None => None,
            },
            None => None,
        }
    }

    /// Get a float value by keyword name.
    pub fn get_float(&self, name: &str) -> (r: Option<Real>)
        ensures
            match r {
                Some(f) => float_of(self@, name@) == Some(f@),
                None => float_of(self@, name@) is None,
            },
    {
        match self.find(name) {
            Some(k) => match &k.value {
                Some(v) => v.as_float(),
                None => None,
            },
            None => None,
        }
    }

    /// Get a string value by keyword name.
    pub fn get_string(&self, name: &str) -> (r: Option<&str>)
        ensures
            keyword::str_of(r) == string_of(self@, name@),
    {
        match self.find(name) {
            Some(k) => match &k.value {
                Some(v) => v.as_str(),
                None => None,
            },
            None => None,
        }
    }

    /// Get a boolean value by keyword name.
    pub fn get_bool(&self, name: &str) -> (r: Option<bool>)
        ensures
            r == bool_of(self@, name@),
    {
        match self.find(name) {
            Some(k) => match &k.value {
                Some(v) => v.as_bool(),
                None => None,
            },
            None => None,
        }
    }

    /// Get a required integer, returning error if missing.
    pub fn require_int(&self, name: &str) -> (r: Result<i64>)
        ensures
            match (r, required_int(self@, name@)) {
                (Ok(i), Ok(j)) => i == j,
                (Err(e), Err(f)) => e@ == f,
                _ => false,
            },
    {
        match self.get_int(name) {
            Some(i) => Ok(i),
            None => Err(Error::MissingKeyword(name.to_owned())),
        }
    }

    /// Set or update a keyword. If name exists, update in place; otherwise append.
    pub fn set(&mut self, name: &str, value: HeaderValue, comment: Option<&str>)
        ensures
            final(self)@ == with_set(old(self)@, name@, value@, keyword::str_of(comment)),
    {
        let i: usize = self.locate(name);
        let ghost before = self@;
        let ghost v = value@;
        if i < self.keywords.len() {
            let kept: &Keyword = &self.keywords[i];
            let kw = Keyword {
                name: kept.name.clone(),
                value: Some(value),
                comment: match comment {
                    Some(c) => Some(c.to_owned()),
                    None => match &kept.comment {
                        Some(c) => Some(c.clone()),
                        None => None,
                    },
                },
            };
            self.keywords.set(i, kw);
            assert(self@ =~= with_set(before, name@, v, keyword::str_of(comment)));
        } else {
            let kw = Keyword::with_value(name, value, comment);
            self.keywords.push(kw);
            assert(self@ =~= with_set(before, name@, v, keyword::str_of(comment)));
        }
    }

    /// Add a keyword without checking for duplicates.
    pub fn push(&mut self, kw: Keyword)
        ensures
            final(self)@ == old(self)@.push(kw@),
    {
        let ghost before = self@;
        let ghost k = kw@;
        self.keywords.push(kw);
        assert(self@ =~= before.push(k));
    }

    /// The keywords in order.
    pub fn iter(&self) -> (r: &[Keyword])
        ensures
            views_of(r@) == self@,
    {
        self.keywords.as_slice()
    }
}

impl Clone for Header {
    fn clone(&self) -> (r: Self)
        ensures
            r@ == self@,
    {
        let mut out: Vec<Keyword> = Vec::new();
        let mut i: usize = 0;
        while i < self.keywords.len()
            invariant
                i <= self.keywords@.len(),
                views_of(out@) == self@.take(i as int),
            decreases self.keywords@.len() - i,
        {
            let ghost before = views_of(out@);
            out.push(self.keywords[i].clone());
            i += 1;
            assert(views_of(out@) =~= before.push(self@[i - 1]));
            assert(views_of(out@) =~= self@.take(i as int));
        }
        let r = Header { keywords: out };
        assert(r@ =~= self@);
        r
    }
}

impl Default for Header {
    fn default() -> (r: Self)
        ensures
            r@ == Seq::<KeywordView>::empty(),
    {
        Header::new()
    }
}

/// What `set` stored is what a lookup finds.
pub proof fn lookup_after_set(
    h: Seq<KeywordView>,
    name: Seq<char>,
    value: ValueView,
    comment: Option<Seq<char>>,
)
    requires
        vstd::utf8::is_ascii_chars(name),
    ensures
        lookup(with_set(h, name, value, comment), name) == Some(value),
{
    lemma_position(h, name);
    let g = with_set(h, name, value, comment);
    let k = position(h, name);
    lemma_upper_twice(name);
    lemma_position_is(g, name, k);
}

/// Setting one keyword leaves the others as they were.
pub proof fn lookup_of_other_after_set(
    h: Seq<KeywordView>,
    name: Seq<char>,
    value: ValueView,
    comment: Option<Seq<char>>,
    other: Seq<char>,
)
    requires
        vstd::utf8::is_ascii_chars(name),
        !text::same_ignoring_case(name, other),
    ensures
        lookup(with_set(h, name, value, comment), other) == lookup(h, other),
{
    lemma_position(h, name);
    lemma_position(h, other);
    let g = with_set(h, name, value, comment);
    let k = position(h, other);
    lemma_upper_twice(name);
    if k < h.len() {
        lemma_position_is(g, other, k);
    } else {
        assert forall|i: int| 0 <= i < g.len() implies !text::same_ignoring_case(
            #[trigger] g[i].name,
            other,
        ) by {
            if i < h.len() {
                assert(g[i].name == h[i].name);
            }
        }
        lemma_position(g, other);
    }
}

pub proof fn lemma_upper_twice(s: Seq<char>)
    ensures
        text::ascii_upper(text::ascii_upper(s)) == text::ascii_upper(s),
{
    assert(text::ascii_upper(text::ascii_upper(s)) =~= text::ascii_upper(s));
}

/// A position with no match before it and a match at it is the first.
pub proof fn lemma_position_is(h: Seq<KeywordView>, name: Seq<char>, k: int)
    requires
        0 <= k < h.len(),
        text::same_ignoring_case(h[k].name, name),
        forall|i: int| 0 <= i < k ==> !text::same_ignoring_case(#[trigger] h[i].name, name),
    ensures
        position(h, name) == k,
{
    lemma_position(h, name);
    let p = position(h, name);
    if p < k {
        assert(!text::same_ignoring_case(h[p].name, name));
    }
}

/// A card that ends the header.
pub open spec fn is_end(record: Seq<u8>) -> bool {
    &&& record[0] == 0x45
    &&& record[1] == 0x4e
    &&& record[2] == 0x44
    &&& forall|i: int| 3 <= i < 8 ==> #[trigger] record[i] == 0x20
}

/// The list of keywords with a card's keyword added. A CONTINUE card adds its
/// string to that of the last keyword, and gives it its comment.
pub open spec fn with_card(h: Seq<KeywordView>, k: KeywordView) -> Seq<KeywordView> {
    if k.name == "CONTINUE"@ && h.len() > 0 {
        let prev = h.last();
        match prev.value {
            Some(ValueView::Text(s)) => h.drop_last().push(
                KeywordView {
                    name: prev.name,
                    value: Some(
                        ValueView::Text(
                            match k.value {
                                Some(ValueView::Text(t)) => s + t,
                                _ => s,
                            },
                        ),
                    ),
                    comment: if k.comment is Some {
                        k.comment
                    } else {
                        prev.comment
                    },
                },
            ),
            _ => h,
        }
    } else {
        h.push(k)
    }
}

/// Record `i` of a byte sequence.
pub open spec fn record_at(data: Seq<u8>, i: int) -> Seq<u8> {
    data.subrange(80 * i, 80 * i + 80)
}

/// The keywords of a header whose records from `i` on are still to be read, and
/// the number of bytes of all its blocks. It is an error where the data ends
/// before the END record, or a record is malformed.
pub open spec fn read_records(data: Seq<u8>, i: nat, h: Seq<KeywordView>) -> std::result::Result<
    (Seq<KeywordView>, nat),
    ErrorView,
>
    decreases data.len() - 80 * i,
{
    let block_end = (80 * i) / 2880 * 2880 + 2880;
    if data.len() < block_end {
        Err(io_utils::eof())
    } else if is_end(record_at(data, i as int)) {
        Ok((h, block_end as nat))
    } else {
        match keyword::card_keyword(record_at(data, i as int)) {
            None => Err(keyword::card_fault(record_at(data, i as int))),
            Some(k) => read_records(data, i + 1, with_card(h, k)),
        }
    }
}

/// All cards of a list of keywords.
pub open spec fn all_cards(h: Seq<KeywordView>) -> Seq<u8>
    decreases h.len(),
{
    if h.len() == 0 {
        Seq::empty()
    } else {
        all_cards(h.drop_last()) + joined(keyword::cards_of(h.last()))
    }
}

/// Byte sequences one after the other.
pub open spec fn joined(parts: Seq<Seq<u8>>) -> Seq<u8>
    decreases parts.len(),
{
    if parts.len() == 0 {
        Seq::empty()
    } else {
        joined(parts.drop_last()) + parts.last()
    }
}

/// The END card.
pub open spec fn end_card() -> Seq<u8> {
    keyword::card_of(text::bytes_of("END"@))
}

/// The blocks of a header: its cards, the END card, and blanks.
pub open spec fn header_bytes(h: Seq<KeywordView>) -> Seq<u8> {
    io_utils::padded_with(all_cards(h) + end_card(), 0x20)
}

proof fn lemma_joined_push(parts: Seq<Seq<u8>>, part: Seq<u8>)
    ensures
        joined(parts.push(part)) == joined(parts) + part,
{
    assert(parts.push(part).drop_last() =~= parts);
}

impl Header {
    /// Serialize the header to block-aligned bytes (a multiple of 2880).
    pub fn to_bytes(&self) -> (r: Vec<u8>)
        ensures
            r@ == header_bytes(self@),
            r@.len() % 2880 == 0,
    {
        let mut out: Vec<u8> = Vec::new();
        let mut i: usize = 0;
        assert(self@.take(0) =~= Seq::empty());
        assert(out@ =~= all_cards(self@.take(0)));
        while i < self.keywords.len()
            invariant
                i <= self.keywords@.len(),
                out@ == all_cards(self@.take(i as int)),
            decreases self.keywords@.len() - i,
        {
            let cards: Vec<[u8; 80]> = self.keywords[i].to_cards();
            let ghost parts = keyword::card_bytes(cards@);
            let ghost before = out@;
            let mut j: usize = 0;
            assert(parts.take(0) =~= Seq::empty());
            assert(out@ =~= before + joined(parts.take(0)));
            while j < cards.len()
                invariant
                    j <= cards@.len(),
                    parts == keyword::card_bytes(cards@),
                    out@ == before + joined(parts.take(j as int)),
                decreases cards@.len() - j,
            {
                out.extend_from_slice(cards[j].as_slice());
                proof {
                    lemma_joined_push(parts.take(j as int), parts[j as int]);
                    assert(parts.take(j + 1) =~= parts.take(j as int).push(parts[j as int]));
                    assert(out@ =~= before + joined(parts.take(j + 1)));
                }
                j += 1;
            }
            i += 1;
            proof {
                assert(parts.take(j as int) =~= parts);
                assert(self@.take(i as int).drop_last() =~= self@.take(i - 1));
            }
        }
        assert(self@.take(i as int) =~= self@);
        let end = Keyword { name: "END".to_owned(), value: None, comment: None };
        let cards: Vec<[u8; 80]> = end.to_cards();
        proof {
            assert(end@.name == "END"@);
            assert(keyword::card_bytes(cards@).len() == 1);
            assert(keyword::card_bytes(cards@)[0] == end_card());
        }
        out.extend_from_slice(cards[0].as_slice());
        assert(out@ =~= all_cards(self@) + end_card());
        io_utils::write_padding_after(&mut out, 0x20);
        out
    }

    /// Write the header as block-aligned 2880-byte blocks.
    pub fn write_to(&self, out: &mut Vec<u8>) -> (r: Result<()>)
        ensures
            r is Ok,
            final(out)@ == old(out)@ + header_bytes(self@),
    {
        let bytes: Vec<u8> = self.to_bytes();
        out.extend_from_slice(bytes.as_slice());
        assert(out@ =~= old(out)@ + header_bytes(self@));
        Ok(())
    }

    /// Add the keyword of a card.
    fn absorb(&mut self, kw: Keyword)
        ensures
            final(self)@ == with_card(old(self)@, kw@),
    {
        let ghost before = self@;
        let ghost k = kw@;
        let name: Vec<char> = text::char_vec(kw.name.as_str());
        if text::is_text(name.as_slice(), "CONTINUE") && self.keywords.len() > 0 {
            let n: usize = self.keywords.len();
            let prev: &Keyword = &self.keywords[n - 1];
            assert(prev@ == before.last());
            match &prev.value {
                Some(HeaderValue::String(s)) => {
                    let joined_text: String = match &kw.value {
                        Some(HeaderValue::String(t)) => s.clone().concat(t.as_str()),
                        _ => s.clone(),
                    };
                    let comment: Option<String> = match kw.comment {
                        Some(c) => Some(c),
                        None => match &prev.comment {
                            Some(c) => Some(c.clone()),
                            None => None,
                        },
                    };
                    let updated = Keyword {
                        name: prev.name.clone(),
                        value: Some(HeaderValue::String(joined_text)),
                        comment,
                    };
                    self.keywords.set(n - 1, updated);
                    assert(self@ =~= with_card(before, k));
                },
                _ => {},
            }
        } else {
            self.push(kw);
        }
    }

    /// Read a header from a block-aligned reader.
    /// Handles CONTINUE long-string assembly.
    pub fn read_from(reader: &mut ByteReader<'_>) -> (r: Result<Self>)
        ensures
            final(reader).bytes() == old(reader).bytes(),
            match (r, read_records(old(reader).rest(), 0, Seq::empty())) {
                (Ok(h), Ok((g, n))) => h@ == g && final(reader).offset() == old(reader).offset()
                    + n && n <= old(reader).rest().len(),
                (Err(e), Err(f)) => e@ == f,
                _ => false,
            },
    {
        let ghost data = reader.rest();
        let start: usize = reader.position();
        let mut header = Header::new();
        let ghost mut blocks: int = 0;
        loop
            invariant
                reader.bytes() == old(reader).bytes(),
                data == old(reader).rest(),
                start == old(reader).offset(),
                start <= old(reader).bytes().len(),
                reader.offset() == start + 2880 * blocks,
                blocks >= 0,
                2880 * blocks <= data.len(),
                read_records(data, 0, Seq::empty()) == read_records(
                    data,
                    (36 * blocks) as nat,
                    header@,
                ),
            decreases data.len() - 2880 * blocks,
        {
            let ghost rest = reader.rest();
            assert(rest =~= data.skip(2880 * blocks));
            let block = match reader.take(2880) {
                Some(b) => b,
                None => {
                    return Err(io_utils::unexpected_eof());
                },
            };
            proof {
                assert(block@ =~= data.subrange(2880 * blocks, 2880 * blocks + 2880));
            }
            let mut i: usize = 0;
            while i < 36
                invariant
                    i <= 36,
                    block@.len() == 2880,
                    blocks >= 0,
                    2880 * blocks + 2880 <= data.len(),
                    block@ == data.subrange(2880 * blocks, 2880 * blocks + 2880),
                    reader.bytes() == old(reader).bytes(),
                    data == old(reader).rest(),
                    start == old(reader).offset(),
                    start <= old(reader).bytes().len(),
                    reader.offset() == start + 2880 * blocks + 2880,
                    read_records(data, 0, Seq::empty()) == read_records(
                        data,
                        (36 * blocks + i) as nat,
                        header@,
                    ),
                decreases 36 - i,
            {
                let record = record_of(block, 80 * i);
                proof {
                    assert(record@ =~= record_at(data, 36 * blocks + i));
                    assert((80 * (36 * blocks + i)) / 2880 == blocks) by {
                        assert(80 * (36 * blocks + i) == 2880 * blocks + 80 * i);
                    }
                }
                if ends_header(&record) {
                    return Ok(header);
                }
                let kw: Keyword = match Keyword::parse(&record) {
                    Ok(k) => k,
                    Err(e) => return Err(e),
                };
                header.absorb(kw);
                i += 1;
            }
            proof {
                blocks = blocks + 1;
                assert((36 * (blocks - 1) + 36) as nat == (36 * blocks) as nat);
            }
        }
    }
}

/// The 80 bytes at a position.
fn record_of(block: &[u8], from: usize) -> (r: [u8; 80])
    requires
        from + 80 <= block@.len(),
    ensures
        r@ == block@.subrange(from as int, from + 80),
{
    let n: usize = block.len();
    let mut record: [u8; 80] = [0u8; 80];
    let mut i: usize = 0;
    while i < 80
        invariant
            i <= 80,
            n == block@.len(),
            from + 80 <= n,
            forall|k: int| 0 <= k < i ==> record@[k] == block@[from + k],
        decreases 80 - i,
    {
        record[i] = block[from + i];
        i += 1;
    }
    assert(record@ =~= block@.subrange(from as int, from + 80));
    record
}

fn ends_header(record: &[u8; 80]) -> (r: bool)
    ensures
        r == is_end(record@),
{
    record[0] == 0x45 && record[1] == 0x4e && record[2] == 0x44 && record[3] == 0x20 && record[4]
        == 0x20 && record[5] == 0x20 && record[6] == 0x20 && record[7] == 0x20
}

/// The product of the axes from `i` on, times `product`; an error at the first
/// axis that is missing or with which the product is too large for a size.
pub open spec fn axes_product(
    h: Seq<KeywordView>,
    i: nat,
    naxis: nat,
    product: int,
) -> std::result::Result<int, ErrorView>
    decreases naxis + 1 - i,
{
    if i > naxis {
        Ok(product)
    } else {
        match required_int(h, "NAXIS"@ + text::decimal(i as int)) {
            Err(e) => Err(e),
            Ok(n) => if product * casts::size_of(n) > usize::MAX {
                Err(ErrorView::InvalidFormat("axis dimensions overflow"@))
            } else {
                axes_product(h, i + 1, naxis, product * casts::size_of(n))
            },
        }
    }
}

/// An optional integer, or a default.
pub open spec fn int_or(h: Seq<KeywordView>, name: Seq<char>, default: int) -> int {
    match int_of(h, name) {
        Some(i) => i,
        None => default,
    }
}

/// The magnitude of an integer.
pub open spec fn magnitude(v: int) -> int {
    if v < 0 {
        -v
    } else {
        v
    }
}

/// The bytes of one value for a BITPIX.
pub open spec fn value_width(bitpix: int) -> int {
    magnitude(bitpix) / 8
}

/// The number of data bytes that a header describes.
pub open spec fn data_bytes(h: Seq<KeywordView>) -> std::result::Result<int, ErrorView> {
    match required_int(h, "NAXIS"@) {
        Err(e) => Err(e),
        Ok(naxis) => if casts::size_of(naxis) == 0 {
            Ok(0)
        } else {
            match required_int(h, "BITPIX"@) {
                Err(e) => Err(e),
                Ok(bitpix) => match axes_product(h, 1, casts::size_of(naxis) as nat, 1) {
                    Err(e) => Err(e),
                    Ok(product) => {
                        let pcount = casts::size_of(int_or(h, "PCOUNT"@, 0)) as int;
                        let gcount = casts::size_of(int_or(h, "GCOUNT"@, 1)) as int;
                        let groups = value_width(bitpix) * gcount;
                        let each = pcount + product;
                        if value_width(bitpix) > usize::MAX || groups > usize::MAX || each
                            > usize::MAX || groups * each > usize::MAX {
                            Err(ErrorView::InvalidFormat("data size overflow"@))
                        } else {
                            Ok(groups * each)
                        }
                    },
                },
            }
        },
    }
}

impl Header {
    /// An optional integer, or a default.
    pub fn int_or(&self, name: &str, default: i64) -> (r: i64)
        ensures
            r == int_or(self@, name@, default as int),
    {
        match self.get_int(name) {
            Some(i) => i,
            None => default,
        }
    }

    /// The product of all axes.
    fn axes_product(&self, naxis: usize) -> (r: Result<usize>)
        ensures
            match (r, axes_product(self@, 1, naxis as nat, 1)) {
                (Ok(n), Ok(m)) => n == m,
                (Err(e), Err(f)) => e@ == f,
                _ => false,
            },
    {
        let mut product: usize = 1;
        let mut i: usize = 0;
        while i < naxis
            invariant
                i <= naxis,
                axes_product(self@, 1, naxis as nat, 1) == axes_product(
                    self@,
                    (i + 1) as nat,
                    naxis as nat,
                    product as int,
                ),
            decreases naxis - i,
        {
            let key: String = text::numbered("NAXIS", i + 1);
            let n: usize = match self.require_int(key.as_str()) {
                Ok(n) => casts::usize_of_i64(n),
                Err(e) => return Err(e),
            };
            product = match product.checked_mul(n) {
                Some(p) => p,
                None => return Err(Error::InvalidFormat("axis dimensions overflow".to_owned())),
            };
            i += 1;
        }
        Ok(product)
    }

    /// Compute the number of data bytes described by this header.
    /// For primary/image: |BITPIX|/8 * product(NAXISn)
    /// For extensions: |BITPIX|/8 * GCOUNT * (PCOUNT + product(NAXISn))
    pub fn data_byte_count(&self) -> (r: Result<usize>)
        ensures
            match (r, data_bytes(self@)) {
                (Ok(n), Ok(m)) => n == m,
                (Err(e), Err(f)) => e@ == f,
                _ => false,
            },
    {
        let naxis: usize = match self.require_int("NAXIS") {
            Ok(n) => casts::usize_of_i64(n),
            Err(e) => return Err(e),
        };
        if naxis == 0 {
            return Ok(0);
        }
        let bitpix: i64 = match self.require_int("BITPIX") {
            Ok(n) => n,
            Err(e) => return Err(e),
        };
        let product: usize = match self.axes_product(naxis) {
            Ok(p) => p,
            Err(e) => return Err(e),
        };
        let pcount: usize = casts::usize_of_i64(self.int_or("PCOUNT", 0));
        let gcount: usize = casts::usize_of_i64(self.int_or("GCOUNT", 1));
        let total: Option<usize> = match (pcount.checked_add(product), width_of(bitpix)) {
            (Some(each), Some(width)) => match width.checked_mul(gcount) {
                Some(groups) => groups.checked_mul(each),
                None => None,
            },
            _ => None,
        };
        match total {
            Some(n) => Ok(n),
            None => Err(Error::InvalidFormat("data size overflow".to_owned())),
        }
    }
}

/// The bytes of one value for a BITPIX, where they are a size.
fn width_of(bitpix: i64) -> (r: Option<usize>)
    ensures
        match r {
            Some(w) => w == value_width(bitpix as int),
            None => value_width(bitpix as int) > usize::MAX,
        },
{
    let wide: i128 = if bitpix < 0 {
        -(bitpix as i128)
    } else {
        bitpix as i128
    };
    let width: i128 = wide / 8;
    if width <= usize::MAX as i128 {
        Some(width as usize)
    } else {
        None
    }
}

proof fn lemma_continue_cards(rest: Seq<u8>, comment: Option<Seq<char>>)
    ensures
        forall|i: int|
            0 <= i < keyword::continue_cards(rest, comment).len()
                ==> #[trigger] keyword::continue_cards(rest, comment)[i].len() == 80,
    decreases rest.len(),
{
    if rest.len() > 67 {
        let more = keyword::continue_cards(rest.skip(67), comment);
        lemma_continue_cards(rest.skip(67), comment);
        assert forall|i: int|
            0 <= i < keyword::continue_cards(rest, comment).len() implies #[trigger] keyword::continue_cards(
            rest,
            comment,
        )[i].len() == 80 by {
            if i > 0 {
                assert(keyword::continue_cards(rest, comment)[i] == more[i - 1]);
            }
        }
    }
}

/// Every card has 80 bytes, and a keyword has at least one.
pub proof fn lemma_cards(k: KeywordView)
    ensures
        keyword::cards_of(k).len() > 0,
        forall|i: int|
            0 <= i < keyword::cards_of(k).len() ==> #[trigger] keyword::cards_of(k)[i].len() == 80,
{
    match k.value {
        Some(ValueView::Text(s)) => {
            let content = keyword::doubled_quotes(text::bytes_of(s));
            let cut: int = if content.len() < 67 {
                content.len() as int
            } else {
                67
            };
            lemma_continue_cards(content.skip(cut), k.comment);
        },
        _ => {},
    }
}

pub proof fn lemma_joined_len(parts: Seq<Seq<u8>>)
    requires
        forall|i: int| 0 <= i < parts.len() ==> #[trigger] parts[i].len() == 80,
    ensures
        joined(parts).len() == 80 * parts.len(),
    decreases parts.len(),
{
    if parts.len() > 0 {
        lemma_joined_len(parts.drop_last());
    }
}

/// The cards of a list of keywords are whole records.
pub proof fn lemma_all_cards_len(h: Seq<KeywordView>)
    ensures
        all_cards(h).len() % 80 == 0,
    decreases h.len(),
{
    if h.len() > 0 {
        lemma_all_cards_len(h.drop_last());
        lemma_cards(h.last());
        lemma_joined_len(keyword::cards_of(h.last()));
    }
}

/// A header is written as whole blocks, at least one.
pub proof fn header_bytes_are_blocks(h: Seq<KeywordView>)
    ensures
        header_bytes(h).len() % 2880 == 0,
        header_bytes(h).len() > 0,
{
    io_utils::padded_is_least_multiple((all_cards(h) + end_card()).len() as int);
}

/// The product of axes.
pub open spec fn product_of(axes: Seq<int>) -> int
    decreases axes.len(),
{
    if axes.len() == 0 {
        1
    } else {
        product_of(axes.drop_last()) * axes.last()
    }
}

proof fn lemma_axes_product(h: Seq<KeywordView>, axes: Seq<int>, i: nat)
    requires
        1 <= i <= axes.len() + 1,
        forall|a: int|
            0 <= a < axes.len() ==> int_of(h, "NAXIS"@ + text::decimal(a + 1)) == Some(
                #[trigger] axes[a],
            ) && 0 <= axes[a] <= i64::MAX && axes[a] <= usize::MAX,
        forall|k: int|
            0 <= k <= axes.len() ==> product_of(#[trigger] axes.take(k)) <= usize::MAX,
    ensures
        axes_product(h, i, axes.len(), product_of(axes.take(i - 1))) == Ok::<int, ErrorView>(
            product_of(axes),
        ),
    decreases axes.len() + 1 - i,
{
    if i <= axes.len() {
        assert(int_of(h, "NAXIS"@ + text::decimal(i as int)) == Some(axes[i - 1]));
        assert(axes.take(i as int).drop_last() =~= axes.take(i - 1));
        assert(product_of(axes.take(i as int)) <= usize::MAX);
        lemma_axes_product(h, axes, i + 1);
    } else {
        assert(axes.take(i - 1) =~= axes);
    }
}

/// Data has, for each group, as many values as the array has elements and as it has
/// parameters, of as many bits each as the magnitude of BITPIX; without axes there is none.
/// By default there is one group, without parameters.
pub proof fn data_size(h: Seq<KeywordView>, axes: Seq<int>, w: int, pcount: int, gcount: int)
    requires
        int_of(h, "NAXIS"@) == Some(axes.len() as int),
        axes.len() <= i64::MAX,
        axes.len() <= usize::MAX,
        int_of(h, "BITPIX"@) == Some(8 * w) || int_of(h, "BITPIX"@) == Some(-8 * w),
        w >= 0,
        forall|a: int|
            0 <= a < axes.len() ==> int_of(h, "NAXIS"@ + text::decimal(a + 1)) == Some(
                #[trigger] axes[a],
            ) && 0 <= axes[a] <= i64::MAX && axes[a] <= usize::MAX,
        forall|k: int|
            0 <= k <= axes.len() ==> product_of(#[trigger] axes.take(k)) <= usize::MAX,
        int_of(h, "PCOUNT"@) == Some(pcount) || int_of(h, "PCOUNT"@) is None && pcount == 0,
        int_of(h, "GCOUNT"@) == Some(gcount) || int_of(h, "GCOUNT"@) is None && gcount == 1,
        0 <= pcount <= i64::MAX,
        pcount <= usize::MAX,
        0 <= gcount <= i64::MAX,
        gcount <= usize::MAX,
        w <= usize::MAX,
        w * gcount <= usize::MAX,
        pcount + product_of(axes) <= usize::MAX,
        w * gcount * (pcount + product_of(axes)) <= usize::MAX,
    ensures
        data_bytes(h) == Ok::<int, ErrorView>(
            if axes.len() == 0 {
                0
            } else {
                w * gcount * (pcount + product_of(axes))
            },
        ),
{
    lemma_axes_product(h, axes, 1);
    assert(axes.take(0) =~= Seq::empty());
    assert(product_of(axes.take(0)) == 1);
}

/// A name finds the first keyword that has it, in any case, and each getter its value where
/// it is of the type: an integer is also a floating-point number.
pub proof fn getters_find_first(h: Seq<KeywordView>, k: int, name: Seq<char>)
    requires
        0 <= k < h.len(),
        text::ascii_upper(h[k].name) == text::ascii_upper(name),
        forall|i: int|
            0 <= i < k ==> text::ascii_upper(#[trigger] h[i].name) != text::ascii_upper(name),
    ensures
        position(h, name) == k,
        match h[k].value {
            Some(ValueView::Integer(i)) => int_of(h, name) == Some(i) && float_of(h, name) == Some(
                text::decimal(i),
            ) && string_of(h, name) is None && bool_of(h, name) is None,
            Some(ValueView::Float(f)) => float_of(h, name) == Some(f) && int_of(h, name) is None
                && string_of(h, name) is None && bool_of(h, name) is None,
            Some(ValueView::Text(s)) => string_of(h, name) == Some(s) && int_of(h, name) is None
                && float_of(h, name) is None && bool_of(h, name) is None,
            Some(ValueView::Logical(b)) => bool_of(h, name) == Some(b) && int_of(h, name) is None
                && float_of(h, name) is None && string_of(h, name) is None,
            _ => int_of(h, name) is None && float_of(h, name) is None && string_of(h, name) is None
                && bool_of(h, name) is None,
        },
{
    lemma_position(h, name);
    let p = position(h, name);
    if p < k {
        assert(text::ascii_upper(h[p].name) != text::ascii_upper(name));
    } else if p > k {
        assert(!text::same_ignoring_case(h[k].name, name));
    }
}

/// Setting a keyword changes the first of that name and no other: it gets the value, and the
/// comment where there is one. Without one of that name, a new keyword comes last.
pub proof fn set_changes_one(
    h: Seq<KeywordView>,
    name: Seq<char>,
    value: ValueView,
    comment: Option<Seq<char>>,
    i: int,
)
    requires
        0 <= i < with_set(h, name, value, comment).len(),
    ensures
        ({
            let g = with_set(h, name, value, comment);
            let k = position(h, name);
            &&& k < h.len() ==> g.len() == h.len()
            &&& k == h.len() ==> g.len() == h.len() + 1
            &&& i != k ==> g[i] == h[i]
            &&& i == k ==> g[i].value == Some(value)
            &&& i == k && comment is Some ==> g[i].comment == comment
            &&& i == k && i < h.len() ==> g[i].name == h[i].name
            &&& i == k && i < h.len() && comment is None ==> g[i].comment == h[i].comment
            &&& i == h.len() ==> g[i].name == text::upper(name) && g[i].comment == comment
        }),
{
    lemma_position(h, name);
}

} // verus!
