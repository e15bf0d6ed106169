//! The corpus arena and its record views.
//!
//! A [`Bible`] owns two contiguous character buffers — the display text of
//! all records concatenated, and their normalized search text concatenated —
//! plus one lightweight descriptor per record (offset/length pairs into each
//! buffer and the record's book/chapter/verse numbers). It is built once
//! from a sequence of [`RawRecord`]s and never mutated afterwards; borrowed
//! [`Verse`] views are derived from it on demand.

use vstd::prelude::*;
use vstd::slice::slice_subrange;

verus! {

use crate::normalise::normal_of;
use crate::normalise::normalise_text;
use crate::normalise::text_chars;

/// One record as handed to the arena builder: identifying numbers plus the
/// raw display text.
#[derive(Debug, Clone)]
pub struct RawRecord {
    pub book: u8,
    pub chapter: u8,
    pub verse: u8,
    pub text: String,
}

/// The ways corpus construction can fail.
#[derive(Debug, Clone, Copy, PartialEq, Eq, Structural)]
pub enum CorpusError {
    /// The record source could not be opened or read at all. Produced at
    /// the source boundary (the caller reading records), never by the
    /// arena itself.
    SourceUnavailable,
    /// A record lacks a required field, or its book/chapter/verse field
    /// does not parse as a small non-negative integer.
    MalformedRecord,
    /// A record's text exceeds the per-record 16-bit length budget, or the
    /// concatenated buffers would exceed the 32-bit offset range.
    RecordTooLarge,
}

// Identifies one record's spans inside the two flat buffers.
#[derive(Debug, Clone, Copy)]
struct VerseSelect {
    read_position: u32,
    read_length: u16,
    search_position: u32,
    search_length: u16,
    verse: u8,
    chapter: u8,
    book: u8,
}

/// The corpus arena: verses as two flat character buffers (display form and
/// normalized search form) with per-record descriptors marking each verse.
#[derive(Debug)]
pub struct Bible {
    read_chars: Vec<char>,
    search_chars: Vec<char>,
    verse_selects: Vec<VerseSelect>,
}

/// A borrowed, zero-copy view of one record: slices into the arena's two
/// buffers plus the record's identifying numbers.
#[derive(Debug, Clone, Copy)]
pub struct Verse<'a> {
    pub book: u8,
    pub chapter: u8,
    pub verse: u8,
    pub read_text: &'a [char],
    pub search_text: &'a [char],
}

/// What one record of the arena holds, mathematically.
pub ghost struct VerseModel {
    pub display: Seq<char>,
    pub search: Seq<char>,
    pub book: u8,
    pub chapter: u8,
    pub verse: u8,
}

impl View for Bible {
    type V = Seq<VerseModel>;

    closed spec fn view(&self) -> Seq<VerseModel> {
        Seq::new(
            self.verse_selects@.len(),
            |i: int|
                VerseModel {
                    display: self.read_chars@.subrange(
                        self.verse_selects@[i].read_position as int,
                        self.verse_selects@[i].read_position as int
                            + self.verse_selects@[i].read_length as int,
                    ),
                    search: self.search_chars@.subrange(
                        self.verse_selects@[i].search_position as int,
                        self.verse_selects@[i].search_position as int
                            + self.verse_selects@[i].search_length as int,
                    ),
                    book: self.verse_selects@[i].book,
                    chapter: self.verse_selects@[i].chapter,
                    verse: self.verse_selects@[i].verse,
                },
        )
    }
}

/// Sum of the display-text lengths of the first `n` records.
pub open spec fn display_total(records: Seq<RawRecord>, n: int) -> int
    decreases n,
{
    if n <= 0 {
        0
    } else {
        display_total(records, n - 1) + records[n - 1].text@.len()
    }
}

/// Sum of the normalized-text lengths of the first `n` records.
pub open spec fn search_total(records: Seq<RawRecord>, n: int) -> int
    decreases n,
{
    if n <= 0 {
        0
    } else {
        search_total(records, n - 1) + normal_of(records[n - 1].text@).len()
    }
}

/// One record's text fits the per-record 16-bit length budget, in both its
/// display form and its normalized form.
pub open spec fn record_fits(r: RawRecord) -> bool {
    r.text@.len() <= 0xFFFF && normal_of(r.text@).len() <= 0xFFFF
}

/// The whole corpus fits the arena's layout: every record within the
/// 16-bit per-record budget, and both concatenated buffers within the
/// 32-bit offset range.
pub open spec fn corpus_fits(records: Seq<RawRecord>) -> bool {
    &&& forall|i: int| 0 <= i < records.len() ==> record_fits(#[trigger] records[i])
    &&& display_total(records, records.len() as int) <= u32::MAX
    &&& search_total(records, records.len() as int) <= u32::MAX
}

/// The arena holds exactly the given records, in order: record `i`'s
/// display text is the raw text, its search text is the normalized raw
/// text, and the identifying numbers are carried through unchanged.
pub open spec fn built_from(b: Bible, records: Seq<RawRecord>) -> bool {
    &&& b@.len() == records.len()
    &&& forall|i: int|
        0 <= i < records.len() ==> {
            &&& (#[trigger] b@[i]).display == records[i].text@
            &&& b@[i].search == normal_of(records[i].text@)
            &&& b@[i].book == records[i].book
            &&& b@[i].chapter == records[i].chapter
            &&& b@[i].verse == records[i].verse
        }
}

/// The views are the arena's records, in order: view `i` borrows record
/// `i`'s display and search spans and carries its identifying numbers.
pub open spec fn views_of(views: Seq<Verse>, b: Bible) -> bool {
    &&& views.len() == b@.len()
    &&& forall|i: int|
        0 <= i < views.len() ==> {
            &&& (#[trigger] views[i]).read_text@ == b@[i].display
            &&& views[i].search_text@ == b@[i].search
            &&& views[i].book == b@[i].book
            &&& views[i].chapter == b@[i].chapter
            &&& views[i].verse == b@[i].verse
        }
}

impl Bible {
    /// Layout invariant: every descriptor's spans lie inside the buffers,
    /// record spans are appended back to back (record 0 starts at offset 0,
    /// each next record starts where the previous one ended), and the
    /// buffers hold nothing else.
    #[verifier::type_invariant]
    closed spec fn wf(&self) -> bool {
        let vs = self.verse_selects@;
        &&& forall|i: int|
            0 <= i < vs.len() ==> (#[trigger] vs[i]).read_position as int
                + vs[i].read_length as int <= self.read_chars@.len()
        &&& forall|i: int|
            0 <= i < vs.len() ==> (#[trigger] vs[i]).search_position as int
                + vs[i].search_length as int <= self.search_chars@.len()
        &&& (vs.len() > 0 ==> vs[0].read_position == 0 && vs[0].search_position == 0)
        &&& forall|i: int|
            0 <= i && i + 1 < vs.len() ==> {
                &&& (#[trigger] vs[i + 1]).read_position as int == vs[i].read_position as int
                    + vs[i].read_length as int
                &&& vs[i + 1].search_position as int == vs[i].search_position as int
                    + vs[i].search_length as int
            }
        &&& (vs.len() > 0 ==> {
            &&& vs[vs.len() - 1].read_position as int + vs[vs.len() - 1].read_length as int
                == self.read_chars@.len()
            &&& vs[vs.len() - 1].search_position as int + vs[vs.len() - 1].search_length as int
                == self.search_chars@.len()
        })
        &&& (vs.len() == 0 ==> self.read_chars@.len() == 0 && self.search_chars@.len() == 0)
    }

    /// Build the arena from a sequence of records.
    ///
    /// For each record in order, the raw text's characters are appended to
    /// the display buffer and the normalized text's characters to the
    /// search buffer, and a descriptor recording both spans is appended.
    /// Fails with `RecordTooLarge` exactly when some record's display or
    /// normalized text exceeds the 16-bit per-record length budget, or the
    /// concatenated buffers would exceed the 32-bit offset range; nothing
    /// is ever silently truncated.
    pub fn new(records: &Vec<RawRecord>) -> (r: Result<Bible, CorpusError>)
        ensures
            r is Ok <==> corpus_fits(records@),
            r matches Ok(b) ==> built_from(b, records@),
            r is Err ==> r == Result::<Bible, CorpusError>::Err(CorpusError::RecordTooLarge),
    {
        let mut read_chars: Vec<char> = Vec::new();
        let mut search_chars: Vec<char> = Vec::new();
        let mut verse_selects: Vec<VerseSelect> = Vec::new();
        let n = records.len();
        let mut i: usize = 0;
        while i < n
            invariant
                n == records@.len(),
                i <= n,
                verse_selects@.len() == i,
                read_chars@.len() == display_total(records@, i as int),
                search_chars@.len() == search_total(records@, i as int),
                read_chars@.len() <= u32::MAX,
                search_chars@.len() <= u32::MAX,
                forall|j: int| 0 <= j < i ==> record_fits(#[trigger] records@[j]),
                forall|j: int|
                    0 <= j < i ==> (#[trigger] verse_selects@[j]).read_position as int
                        + verse_selects@[j].read_length as int <= read_chars@.len(),
                forall|j: int|
                    0 <= j < i ==> (#[trigger] verse_selects@[j]).search_position as int
                        + verse_selects@[j].search_length as int <= search_chars@.len(),
                i > 0 ==> verse_selects@[0].read_position == 0
                    && verse_selects@[0].search_position == 0,
                forall|j: int|
                    0 <= j && j + 1 < i ==> {
                        &&& (#[trigger] verse_selects@[j + 1]).read_position as int
                            == verse_selects@[j].read_position as int
                            + verse_selects@[j].read_length as int
                        &&& verse_selects@[j + 1].search_position as int
                            == verse_selects@[j].search_position as int
                            + verse_selects@[j].search_length as int
                    },
                i > 0 ==> {
                    &&& verse_selects@[i - 1].read_position as int
                        + verse_selects@[i - 1].read_length as int == read_chars@.len()
                    &&& verse_selects@[i - 1].search_position as int
                        + verse_selects@[i - 1].search_length as int == search_chars@.len()
                },
                forall|j: int|
                    0 <= j < i ==> {
                        &&& read_chars@.subrange(
                            (#[trigger] verse_selects@[j]).read_position as int,
                            verse_selects@[j].read_position as int
                                + verse_selects@[j].read_length as int,
                        ) == records@[j].text@
                        &&& search_chars@.subrange(
                            verse_selects@[j].search_position as int,
                            verse_selects@[j].search_position as int
                                + verse_selects@[j].search_length as int,
                        ) == normal_of(records@[j].text@)
                        &&& verse_selects@[j].book == records@[j].book
                        &&& verse_selects@[j].chapter == records@[j].chapter
                        &&& verse_selects@[j].verse == records@[j].verse
                    },
            decreases n - i,
        {
            let text_vec = text_chars(records[i].text.as_str());
            let search_string = normalise_text(records[i].text.as_str());
            let search_vec = text_chars(search_string.as_str());

            if text_vec.len() > 0xFFFF || search_vec.len() > 0xFFFF {
                proof {
                    assert(!record_fits(records@[i as int]));
                }
                return Err(CorpusError::RecordTooLarge);
            }
            if (u32::MAX as usize) - read_chars.len() < text_vec.len()
                || (u32::MAX as usize) - search_chars.len() < search_vec.len() {
                proof {
                    lemma_display_total_mono(records@, i + 1, records@.len() as int);
                    lemma_search_total_mono(records@, i + 1, records@.len() as int);
                }
                return Err(CorpusError::RecordTooLarge);
            }

            let read_position: u32 = read_chars.len() as u32;
            let search_position: u32 = search_chars.len() as u32;
            let read_length: u16 = text_vec.len() as u16;
            let search_length: u16 = search_vec.len() as u16;

            let ghost old_read = read_chars@;
            let ghost old_search = search_chars@;
            read_chars.extend_from_slice(text_vec.as_slice());
            search_chars.extend_from_slice(search_vec.as_slice());

            verse_selects.push(
                VerseSelect {
                    read_position,
                    read_length,
                    search_position,
                    search_length,
                    book: records[i].book,
                    chapter: records[i].chapter,
                    verse: records[i].verse,
                },
            );

            proof {
                assert(read_chars@.subrange(
                    read_position as int,
                    read_position as int + read_length as int,
                ) =~= records@[i as int].text@);
                assert(search_chars@.subrange(
                    search_position as int,
                    search_position as int + search_length as int,
                ) =~= normal_of(records@[i as int].text@));
                assert forall|j: int| 0 <= j < i implies {
                    &&& read_chars@.subrange(
                        (#[trigger] verse_selects@[j]).read_position as int,
                        verse_selects@[j].read_position as int
                            + verse_selects@[j].read_length as int,
                    ) == records@[j].text@
                    &&& search_chars@.subrange(
                        verse_selects@[j].search_position as int,
                        verse_selects@[j].search_position as int
                            + verse_selects@[j].search_length as int,
                    ) == normal_of(records@[j].text@)
                } by {
                    assert(read_chars@.subrange(
                        verse_selects@[j].read_position as int,
                        verse_selects@[j].read_position as int
                            + verse_selects@[j].read_length as int,
                    ) =~= old_read.subrange(
                        verse_selects@[j].read_position as int,
                        verse_selects@[j].read_position as int
                            + verse_selects@[j].read_length as int,
                    ));
                    assert(search_chars@.subrange(
                        verse_selects@[j].search_position as int,
                        verse_selects@[j].search_position as int
                            + verse_selects@[j].search_length as int,
                    ) =~= old_search.subrange(
                        verse_selects@[j].search_position as int,
                        verse_selects@[j].search_position as int
                            + verse_selects@[j].search_length as int,
                    ));
                }
            }
            i = i + 1;
        }

        let bible = Bible { read_chars, search_chars, verse_selects };
        proof {
            assert(built_from(bible, records@));
        }
        Ok(bible)
    }

    /// Derive the borrowed record views, in record order.
    pub fn get_verses<'a>(&'a self) -> (r: Vec<Verse<'a>>)
        ensures
            views_of(r@, *self),
    {
        proof {
            use_type_invariant(self);
        }
        let mut verses: Vec<Verse<'a>> = Vec::new();
        let n = self.verse_selects.len();
        let mut i: usize = 0;
        while i < n
            invariant
                self.wf(),
                n == self.verse_selects@.len(),
                i <= n,
                verses@.len() == i,
                forall|j: int|
                    0 <= j < i ==> {
                        &&& (#[trigger] verses@[j]).read_text@ == self@[j].display
                        &&& verses@[j].search_text@ == self@[j].search
                        &&& verses@[j].book == self@[j].book
                        &&& verses@[j].chapter == self@[j].chapter
                        &&& verses@[j].verse == self@[j].verse
                    },
            decreases n - i,
        {
            let vs = self.verse_selects[i];
            let read_position = vs.read_position as usize;
            let read_length = vs.read_length as usize;
            let search_position = vs.search_position as usize;
            let search_length = vs.search_length as usize;
            let read_buf_len = self.read_chars.len();
            let search_buf_len = self.search_chars.len();
            proof {
                assert(self.verse_selects@[i as int].read_position as int
                    + self.verse_selects@[i as int].read_length as int
                    <= self.read_chars@.len());
                assert(self.verse_selects@[i as int].search_position as int
                    + self.verse_selects@[i as int].search_length as int
                    <= self.search_chars@.len());
            }
            let read_text = slice_subrange(
                self.read_chars.as_slice(),
                read_position,
                read_position + read_length,
            );
            let search_text = slice_subrange(
                self.search_chars.as_slice(),
                search_position,
                search_position + search_length,
            );
            verses.push(
                Verse {
                    book: vs.book,
                    chapter: vs.chapter,
                    verse: vs.verse,
                    read_text,
                    search_text,
                },
            );
            i = i + 1;
        }
        verses
    }
}

/// ASCII whitespace, as ignored around a numeric field.
pub open spec fn is_ascii_space(c: char) -> bool {
    c == ' ' || c == '\t' || c == '\n' || c == '\r'
}

/// The sequence with leading ASCII whitespace removed.
pub open spec fn trim_front(s: Seq<char>) -> Seq<char>
    decreases s.len(),
{
    if s.len() > 0 && is_ascii_space(s[0]) {
        trim_front(s.drop_first())
    } else {
        s
    }
}

/// The sequence with trailing ASCII whitespace removed.
pub open spec fn trim_back(s: Seq<char>) -> Seq<char>
    decreases s.len(),
{
    if s.len() > 0 && is_ascii_space(s.last()) {
        trim_back(s.drop_last())
    } else {
        s
    }
}

/// The sequence with surrounding ASCII whitespace removed.
pub open spec fn trimmed(s: Seq<char>) -> Seq<char> {
    trim_back(trim_front(s))
}

/// Whether `c` is a decimal digit.
pub open spec fn is_digit_char(c: char) -> bool {
    '0' as int <= c as int <= '9' as int
}

/// The numeric value of a decimal digit.
pub open spec fn digit_val(c: char) -> int {
    c as int - '0' as int
}

/// Whether every character of `s` is a decimal digit.
pub open spec fn all_digits(s: Seq<char>) -> bool {
    forall|i: int| 0 <= i < s.len() ==> is_digit_char(#[trigger] s[i])
}

/// The value of `s` read as a decimal numeral.
pub open spec fn digits_value(s: Seq<char>) -> int
    decreases s.len(),
{
    if s.len() == 0 {
        0
    } else {
        10 * digits_value(s.drop_last()) + digit_val(s.last())
    }
}

/// The trimmed field with one leading `+`, if any, removed.
pub open spec fn plus_stripped(s: Seq<char>) -> Seq<char> {
    let t = trimmed(s);
    if t.len() > 0 && t[0] == '+' {
        t.drop_first()
    } else {
        t
    }
}

/// How a book/chapter/verse field parses: surrounding ASCII whitespace is
/// ignored, one leading `+` is allowed, and what remains must be a
/// non-empty run of decimal digits whose value is at most 255.
pub open spec fn parse_field(s: Seq<char>) -> Option<u8> {
    let d = plus_stripped(s);
    if d.len() > 0 && all_digits(d) && digits_value(d) <= 255 {
        Some(digits_value(d) as u8)
    } else {
        None
    }
}

fn digit_of(c: char) -> (r: Option<u8>)
    ensures
        r is Some <==> is_digit_char(c),
        r matches Some(d) ==> d as int == digit_val(c),
{
    match c {
        '0' => Some(0),
        '1' => Some(1),
        '2' => Some(2),
        '3' => Some(3),
        '4' => Some(4),
        '5' => Some(5),
        '6' => Some(6),
        '7' => Some(7),
        '8' => Some(8),
        '9' => Some(9),
        _ => None,
    }
}

fn is_space_char(c: char) -> (r: bool)
    ensures
        r == is_ascii_space(c),
{
    c == ' ' || c == '\t' || c == '\n' || c == '\r'
}

/// Parse a book/chapter/verse field as a small non-negative integer,
/// returning `None` when it does not fit the field grammar.
pub fn parse_small_int(s: &str) -> (r: Option<u8>)
    ensures
        r == parse_field(s@),
{
    let cs = text_chars(s);
    let n = cs.len();
    let mut lo: usize = 0;
    proof {
        assert(s@.skip(0) =~= s@);
    }
    while lo < n && is_space_char(cs[lo])
        invariant
            cs@ == s@,
            n == s@.len(),
            lo <= n,
            trim_front(s@) == trim_front(s@.skip(lo as int)),
        decreases n - lo,
    {
        proof {
            assert(s@.skip(lo as int).drop_first() =~= s@.skip(lo as int + 1));
        }
        lo = lo + 1;
    }
    proof {
        if lo < n {
            assert(trim_front(s@.skip(lo as int)) == s@.skip(lo as int));
        } else {
            assert(s@.skip(lo as int) =~= Seq::<char>::empty());
        }
        assert(trim_front(s@) == s@.skip(lo as int));
    }
    let mut hi: usize = n;
    while hi > lo && is_space_char(cs[hi - 1])
        invariant
            cs@ == s@,
            n == s@.len(),
            lo <= hi <= n,
            trim_front(s@) == s@.skip(lo as int),
            trim_back(s@.skip(lo as int)) == trim_back(s@.subrange(lo as int, hi as int)),
        decreases hi,
    {
        proof {
            assert(s@.subrange(lo as int, hi as int).drop_last() =~= s@.subrange(
                lo as int,
                hi as int - 1,
            ));
            assert(s@.subrange(lo as int, hi as int).last() == s@[hi - 1]);
        }
        hi = hi - 1;
    }
    proof {
        assert(s@.skip(lo as int) =~= s@.subrange(lo as int, n as int));
        if hi > lo {
            assert(s@.subrange(lo as int, hi as int).last() == s@[hi - 1]);
            assert(trim_back(s@.subrange(lo as int, hi as int)) == s@.subrange(
                lo as int,
                hi as int,
            ));
        } else {
            assert(s@.subrange(lo as int, hi as int) =~= Seq::<char>::empty());
        }
        assert(trimmed(s@) == s@.subrange(lo as int, hi as int));
    }
    let ghost t = s@.subrange(lo as int, hi as int);
    if hi > lo && cs[lo] == '+' {
        lo = lo + 1;
        proof {
            assert(t.drop_first() =~= s@.subrange(lo as int, hi as int));
        }
    }
    let ghost d = s@.subrange(lo as int, hi as int);
    proof {
        assert(d == plus_stripped(s@));
    }
    if hi == lo {
        return None;
    }
    let mut acc: u32 = 0;
    let mut i: usize = lo;
    while i < hi
        invariant
            cs@ == s@,
            n == s@.len(),
            lo <= i <= hi <= n,
            d == s@.subrange(lo as int, hi as int),
            d == plus_stripped(s@),
            d.len() > 0,
            forall|j: int| lo <= j < i ==> is_digit_char(#[trigger] s@[j]),
            digits_value(s@.subrange(lo as int, i as int)) <= 255 ==> acc == digits_value(
                s@.subrange(lo as int, i as int),
            ),
            digits_value(s@.subrange(lo as int, i as int)) > 255 ==> acc > 255,
            acc <= 2559,
        decreases hi - i,
    {
        let c = cs[i];
        let dv: u32 = match digit_of(c) {
            Some(v) => v as u32,
            None => {
                proof {
                    assert(d[i - lo] == s@[i as int]);
                    assert(!is_digit_char(d[i - lo]));
                }
                return None;
            },
        };
        proof {
            assert(is_digit_char(s@[i as int]));
        }
        proof {
            assert(s@.subrange(lo as int, i as int + 1).drop_last() =~= s@.subrange(
                lo as int,
                i as int,
            ));
            assert(s@.subrange(lo as int, i as int + 1).last() == s@[i as int]);
        }
        if acc <= 255 {
            acc = 10 * acc + dv;
        }
        i = i + 1;
    }
    proof {
        assert(d =~= s@.subrange(lo as int, hi as int));
        assert(forall|j: int| 0 <= j < d.len() ==> is_digit_char(#[trigger] d[j]));
    }
    if acc > 255 {
        return None;
    }
    Some(acc as u8)
}

/// Assemble one raw record from the textual fields of a source row.
///
/// Fails with `MalformedRecord` exactly when a required field is absent or
/// a book/chapter/verse field does not parse as a small non-negative
/// integer.
pub fn parse_record(
    book: Option<&str>,
    chapter: Option<&str>,
    verse: Option<&str>,
    text: Option<&str>,
) -> (r: Result<RawRecord, CorpusError>)
    ensures
        r is Ok <==> {
            &&& book matches Some(b) && parse_field(b@) is Some
            &&& chapter matches Some(c) && parse_field(c@) is Some
            &&& verse matches Some(v) && parse_field(v@) is Some
            &&& text is Some
        },
        r matches Ok(rec) ==> {
            &&& book matches Some(b) && rec.book == parse_field(b@).unwrap()
            &&& chapter matches Some(c) && rec.chapter == parse_field(c@).unwrap()
            &&& verse matches Some(v) && rec.verse == parse_field(v@).unwrap()
            &&& text matches Some(t) && rec.text@ == t@
        },
        r is Err ==> r == Result::<RawRecord, CorpusError>::Err(CorpusError::MalformedRecord),
{
    let book_num = match book {
        Some(b) => match parse_small_int(b) {
            Some(v) => v,
            None => {
                return Err(CorpusError::MalformedRecord);
            },
        },
        None => {
            return Err(CorpusError::MalformedRecord);
        },
    };
    let chapter_num = match chapter {
        Some(c) => match parse_small_int(c) {
            Some(v) => v,
            None => {
                return Err(CorpusError::MalformedRecord);
            },
        },
        None => {
            return Err(CorpusError::MalformedRecord);
        },
    };
    let verse_num = match verse {
        Some(v) => match parse_small_int(v) {
            Some(v) => v,
            None => {
                return Err(CorpusError::MalformedRecord);
            },
        },
        None => {
            return Err(CorpusError::MalformedRecord);
        },
    };
    let text_string = match text {
        Some(t) => t.to_owned(),
        None => {
            return Err(CorpusError::MalformedRecord);
        },
    };
    Ok(RawRecord { book: book_num, chapter: chapter_num, verse: verse_num, text: text_string })
}

proof fn lemma_display_total_mono(records: Seq<RawRecord>, m: int, n: int)
    requires
        m <= n,
    ensures
        display_total(records, m) <= display_total(records, n),
    decreases n - m,
{
    if m < n {
        lemma_display_total_mono(records, m, n - 1);
    }
}

proof fn lemma_search_total_mono(records: Seq<RawRecord>, m: int, n: int)
    requires
        m <= n,
    ensures
        search_total(records, m) <= search_total(records, n),
    decreases n - m,
{
    if m < n {
        lemma_search_total_mono(records, m, n - 1);
    }
}

/// Arena round trip: every ingested record can be read back exactly from
/// its view — the display text equals the raw text with no normalization
/// applied, and the search text equals the normalized raw text.
pub proof fn lemma_arena_round_trip(b: Bible, records: Seq<RawRecord>, views: Seq<Verse>)
    requires
        built_from(b, records),
        views_of(views, b),
    ensures
        views.len() == records.len(),
        forall|i: int|
            0 <= i < records.len() ==> {
                &&& (#[trigger] views[i]).read_text@ == records[i].text@
                &&& views[i].search_text@ == normal_of(records[i].text@)
                &&& views[i].book == records[i].book
                &&& views[i].chapter == records[i].chapter
                &&& views[i].verse == records[i].verse
            },
{
}

} // verus!
