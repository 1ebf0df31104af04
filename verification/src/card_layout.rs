//! Where the parts of a keyword stand on its cards.
use crate::keyword;
use crate::keyword::{KeywordView, ValueView};
use crate::text;
use vstd::prelude::*;

verus! {

/// What byte `i` of a name field is: the name, and blanks behind it.
pub open spec fn name_byte(name: Seq<char>, i: int) -> u8 {
    if i < text::bytes_of(name).len() {
        text::bytes_of(name)[i]
    } else {
        0x20
    }
}

/// What byte `i` of a card is behind a value that ends before `end`: a comment between a slash
/// and blanks, as far as it fits, where at least one byte of it would.
pub open spec fn remark_byte(comment: Option<Seq<char>>, end: int, i: int) -> u8 {
    match comment {
        None => 0x20,
        Some(c) => if end + 3 >= 80 {
            0x20
        } else if i == end + 1 {
            0x2f
        } else if i >= end + 3 && i - end - 3 < text::bytes_of(c).len() {
            text::bytes_of(c)[i - end - 3]
        } else {
            0x20
        },
    }
}

/// The length of the start of a card with a value.
proof fn lemma_start(name: Seq<char>)
    ensures
        keyword::valued_start(name).len() == 10,
        forall|i: int|
            0 <= i < 8 ==> #[trigger] keyword::valued_start(name)[i] == name_byte(name, i),
        keyword::valued_start(name)[8] == 0x3d,
        keyword::valued_start(name)[9] == 0x20,
{
}

/// A line with its comment.
proof fn lemma_remark(line: Seq<u8>, comment: Option<Seq<char>>, i: int)
    requires
        0 <= i < 80,
    ensures
        keyword::card_of(keyword::commented(line, comment)).len() == 80,
        i < line.len() ==> keyword::card_of(keyword::commented(line, comment))[i] == line[i],
        i >= line.len() ==> keyword::card_of(keyword::commented(line, comment))[i] == remark_byte(
            comment,
            line.len() as int,
            i,
        ),
{
    match comment {
        None => {},
        Some(c) => {
            if line.len() + 3 < 80 {
                let l = line + seq![0x20u8, 0x2f, 0x20] + text::bytes_of(c);
                assert(l.len() == line.len() + 3 + text::bytes_of(c).len());
                if line.len() <= i < line.len() + 3 && i < l.len() {
                    assert(l[i] == seq![0x20u8, 0x2f, 0x20][i - line.len()]);
                }
            }
        },
    }
}

/// A value that is no string ends in column 30, or, where it has more than 20 bytes, starts in
/// column 11. The name stands in the first eight columns, and an equals sign and a blank behind
/// it.
pub proof fn plain_values_on_card(k: KeywordView, v: ValueView, i: int)
    requires
        k.name != "END"@,
        k.value == Some(v),
        !(v is Text),
        0 <= i < 80,
    ensures
        ({
            let b = text::bytes_of(v.plain_text());
            let end = if b.len() <= 20 {
                30
            } else {
                10 + b.len() as int
            };
            let card = keyword::cards_of(k)[0];
            &&& keyword::cards_of(k).len() == 1
            &&& card.len() == 80
            &&& card[i] == if i < 8 {
                name_byte(k.name, i)
            } else if i == 8 {
                0x3d
            } else if i < end - b.len() {
                0x20
            } else if i < end {
                b[i - (end - b.len())]
            } else {
                remark_byte(k.comment, end, i)
            }
        }),
{
    let b = text::bytes_of(v.plain_text());
    let line = keyword::valued_start(k.name) + keyword::justified(b);
    lemma_start(k.name);
    lemma_remark(line, k.comment, i);
}

/// Content with ASCII bytes only.
pub open spec fn plain_bytes(s: Seq<u8>) -> bool {
    forall|i: int| 0 <= i < s.len() ==> #[trigger] s[i] < 0x80
}

proof fn lemma_count(s: Seq<u8>)
    requires
        plain_bytes(s),
    ensures
        keyword::char_count(s) == s.len(),
    decreases s.len(),
{
    if s.len() > 0 {
        let t = s.drop_last();
        assert forall|i: int| 0 <= i < t.len() implies #[trigger] t[i] < 0x80 by {
            assert(t[i] == s[i]);
        }
        lemma_count(t);
        assert(s[s.len() - 1] < 0x80);
    }
}

/// What byte `i` of a card is from column 11 on that holds a whole string: quotes around it,
/// of which the second stands in column 20 at least, and the comment.
pub open spec fn string_byte(content: Seq<u8>, comment: Option<Seq<char>>, i: int) -> u8 {
    let n = if content.len() < 8 {
        8
    } else {
        content.len() as int
    };
    if i == 10 || i == 11 + n {
        0x27
    } else if i < 11 + content.len() {
        content[i - 11]
    } else if i < 11 + n {
        0x20
    } else {
        remark_byte(comment, 12 + n, i)
    }
}

proof fn lemma_string(start: Seq<u8>, content: Seq<u8>, comment: Option<Seq<char>>, i: int)
    requires
        start.len() == 10,
        plain_bytes(content),
        0 <= i < 80,
    ensures
        ({
            let card = keyword::card_of(
                keyword::commented(keyword::whole_string(start, content), comment),
            );
            card.len() == 80 && card[i] == if i < 10 {
                start[i]
            } else {
                string_byte(content, comment, i)
            }
        }),
{
    let line = keyword::whole_string(start, content);
    lemma_count(content);
    let padded = keyword::padded_content(content);
    let n = if content.len() < 8 {
        8
    } else {
        content.len() as int
    };
    assert(padded.len() == n);
    assert(line.len() == 12 + n);
    lemma_remark(line, comment, i);
}

/// A string that fits stands on one card, with its quotes doubled: up to 67 bytes without a
/// comment, and up to 55 with one.
pub proof fn strings_on_card(k: KeywordView, s: Seq<char>, i: int)
    requires
        k.name != "END"@,
        k.value == Some(ValueView::Text(s)),
        plain_bytes(keyword::doubled_quotes(text::bytes_of(s))),
        ({
            let n = keyword::doubled_quotes(text::bytes_of(s)).len();
            n <= 55 || k.comment is None && n <= 67
        }),
        0 <= i < 80,
    ensures
        ({
            let content = keyword::doubled_quotes(text::bytes_of(s));
            let card = keyword::cards_of(k)[0];
            &&& keyword::cards_of(k).len() == 1
            &&& card.len() == 80
            &&& card[i] == if i < 8 {
                name_byte(k.name, i)
            } else if i == 8 {
                0x3d
            } else if i == 9 {
                0x20
            } else {
                string_byte(content, k.comment, i)
            }
        }),
{
    let content = keyword::doubled_quotes(text::bytes_of(s));
    lemma_start(k.name);
    lemma_string(keyword::valued_start(k.name), content, k.comment, i);
}

/// A card that holds 67 bytes of a string that goes on: it is full.
proof fn lemma_part(start: Seq<u8>, content: Seq<u8>, i: int)
    requires
        start.len() == 10,
        content.len() <= 67,
        0 <= i < 80,
    ensures
        ({
            let n = content.len() as int;
            let card = keyword::card_of(keyword::part_string(start, content));
            card.len() == 80 && card[i] == if i < 10 {
                start[i]
            } else if i == 10 {
                0x27
            } else if i < 11 + n {
                content[i - 11]
            } else if i == 11 + n {
                0x26
            } else if i == 12 + n {
                0x27
            } else {
                0x20
            }
        }),
{
    let line = keyword::part_string(start, content);
    let n = content.len() as int;
    assert(line.len() == 13 + n);
    if i == 11 + n || i == 12 + n {
        assert(line[i] == seq![0x26u8, 0x27][i - 11 - n]);
    }
}

/// The cards that go on with a string: 67 bytes on each.
proof fn lemma_continued(rest: Seq<u8>, comment: Option<Seq<char>>, j: int)
    requires
        0 <= j,
        67 * j < rest.len(),
    ensures
        ({
            let cards = keyword::continue_cards(rest, comment);
            &&& j < cards.len()
            &&& cards.len() == (rest.len() + 66) / 67
            &&& rest.len() - 67 * j <= 67 ==> cards[j] == keyword::card_of(
                keyword::commented(
                    keyword::whole_string(keyword::continue_start(), rest.skip(67 * j)),
                    comment,
                ),
            )
            &&& rest.len() - 67 * j > 67 ==> cards[j] == keyword::card_of(
                keyword::part_string(
                    keyword::continue_start(),
                    rest.subrange(67 * j, 67 * j + 67),
                ),
            )
        }),
    decreases rest.len(),
{
    if rest.len() <= 67 {
        assert(j == 0);
        assert(rest.skip(0) =~= rest);
    } else {
        let after = rest.skip(67);
        if j == 0 {
            lemma_continued(after, comment, 0);
            assert(rest.subrange(0, 67) =~= rest.take(67));
        } else {
            lemma_continued(after, comment, j - 1);
            assert(after.skip(67 * (j - 1)) =~= rest.skip(67 * j));
            if rest.len() - 67 * j > 67 {
                assert(after.subrange(67 * (j - 1), 67 * (j - 1) + 67) =~= rest.subrange(
                    67 * j,
                    67 * j + 67,
                ));
            }
        }
    }
}

proof fn lemma_continue_start(i: int)
    requires
        0 <= i < 10,
    ensures
        keyword::continue_start().len() == 10,
        keyword::continue_start()[i] == name_byte("CONTINUE"@, i),
{
    reveal_strlit("CONTINUE");
    text::lemma_bytes_chars("CONTINUE"@);
    assert(text::bytes_of("CONTINUE"@).len() == 8);
    let s = keyword::continue_start();
    if i >= 8 {
        assert(s[i] == seq![0x20u8, 0x20][i - 8]);
    }
}

/// A longer string stands on as many cards as it takes, 67 bytes on each, counted with doubled
/// quotes. Each but the last has the mark for what follows behind them, in column 79, and the
/// quote in column 80; the cards behind the first are called CONTINUE, and the last has the
/// comment.
pub proof fn long_strings_on_cards(k: KeywordView, s: Seq<char>, j: int, i: int)
    requires
        k.name != "END"@,
        k.value == Some(ValueView::Text(s)),
        plain_bytes(keyword::doubled_quotes(text::bytes_of(s))),
        keyword::doubled_quotes(text::bytes_of(s)).len() > 67,
        0 <= j,
        67 * j < keyword::doubled_quotes(text::bytes_of(s)).len(),
        0 <= i < 80,
    ensures
        ({
            let content = keyword::doubled_quotes(text::bytes_of(s));
            let n = content.len() as int;
            let card = keyword::cards_of(k)[j];
            &&& keyword::cards_of(k).len() == (n + 66) / 67
            &&& card.len() == 80
            &&& card[i] == if j == 0 && i < 8 {
                name_byte(k.name, i)
            } else if j == 0 && i == 8 {
                0x3d
            } else if i < 10 {
                name_byte("CONTINUE"@, if j == 0 {
                    9
                } else {
                    i
                })
            } else if n - 67 * j <= 67 {
                string_byte(content.skip(67 * j), k.comment, i)
            } else if i == 10 || i == 79 {
                0x27
            } else if i == 78 {
                0x26
            } else {
                content[67 * j + i - 11]
            }
        }),
{
    let content = keyword::doubled_quotes(text::bytes_of(s));
    let rest = content.skip(67);
    lemma_start(k.name);
    if i < 10 {
        lemma_continue_start(i);
    }
    lemma_continue_start(9);
    lemma_continued(rest, k.comment, if j > 0 {
        j - 1
    } else {
        0
    });
    let cards = keyword::continue_cards(rest, k.comment);
    let first = keyword::card_of(
        keyword::part_string(keyword::valued_start(k.name), content.take(67)),
    );
    assert(keyword::cards_of(k) == seq![first] + cards);
    if j == 0 {
        lemma_part(keyword::valued_start(k.name), content.take(67), i);
    } else {
        let at = 67 * (j - 1);
        assert(keyword::cards_of(k)[j] == cards[j - 1]);
        assert(rest.skip(at) =~= content.skip(67 * j));
        if rest.len() - at <= 67 {
            let last = content.skip(67 * j);
            assert forall|m: int| 0 <= m < last.len() implies #[trigger] last[m] < 0x80 by {
                assert(last[m] == content[67 * j + m]);
            }
            lemma_string(keyword::continue_start(), last, k.comment, i);
        } else {
            let part = rest.subrange(at, at + 67);
            lemma_part(keyword::continue_start(), part, i);
            if 11 <= i < 78 {
                assert(part[i - 11] == content[67 * j + i - 11]);
            }
        }
    }
}

/// The text of a keyword without a value starts in column 9.
pub proof fn commentary_on_card(k: KeywordView, i: int)
    requires
        k.name != "END"@,
        k.value is None,
        0 <= i < 80,
    ensures
        ({
            let card = keyword::cards_of(k)[0];
            &&& keyword::cards_of(k).len() == 1
            &&& card.len() == 80
            &&& card[i] == if i < 8 {
                name_byte(k.name, i)
            } else {
                match k.comment {
                    None => 0x20,
                    Some(c) => name_byte(c, i - 8),
                }
            }
        }),
{
}

} // verus!
