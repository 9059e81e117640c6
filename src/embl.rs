//! The reader of the simpler ID/SQ flat file form: per record an id, the
//! declared length and the sequence, with no features.
use vstd::prelude::*;
use vstd::slice::slice_subrange;
use vstd::string::*;
use crate::gbk::{end_marker, join_tokens, line_views, ParseError};
use crate::text::{char_pred, has_prefix, next_where, parse_unsigned, split_tokens, starts_with, tokens, unsigned_value};

verus! {

pub open spec fn id_marker() -> Seq<char> {
    "ID"@
}

pub open spec fn sq_marker() -> Seq<char> {
    "SQ"@
}

/// Piece `n` (from 0) of `l` split at `d`, or None when `l` has fewer pieces.
pub open spec fn piece(l: Seq<char>, d: char, n: nat) -> Option<Seq<char>>
    decreases n,
{
    let e = next_where(l, 0, char_pred(d));
    if n == 0 {
        Some(l.subrange(0, e))
    } else if e >= l.len() {
        None
    } else {
        piece(l.subrange(e + 1, l.len() as int), d, (n - 1) as nat)
    }
}

/// Id and declared length of an ID line: the second token of its first
/// `;`-piece, and the first token of its seventh, as a number.
pub open spec fn id_header(l: Seq<char>) -> Option<(Seq<char>, u32)> {
    match (piece(l, ';', 0), piece(l, ';', 6)) {
        (Some(p0), Some(p6)) => {
            let t0 = tokens(p0);
            let t6 = tokens(p6);
            if t0.len() >= 2 && t6.len() >= 1 {
                match unsigned_value(t6[0], 0xFFFF_FFFF) {
                    Some(v) => Some((t0[1], v as u32)),
                    None => None,
                }
            } else {
                None
            }
        },
        _ => None,
    }
}

/// The bases of one sequence line: its tokens but the last (the position
/// counter), joined with no separator.
pub open spec fn sq_bases(l: Seq<char>) -> Seq<char> {
    let t = tokens(l);
    if t.len() == 0 { seq![] } else { t.subrange(0, t.len() - 1).flatten() }
}

/// How scanning for one ID/SQ record ends.
pub enum EmblEnd {
    Incomplete,
    Failed(ParseError),
    Complete { id: Seq<char>, length: u32, sequence: Seq<char>, next: int },
}

/// Scanning from line `i` between sections, with the header so far.
pub open spec fn scan_embl(lines: Seq<Seq<char>>, i: int, id: Seq<char>, length: u32) -> EmblEnd
    decreases lines.len() - i,
{
    if i < 0 || i >= lines.len() {
        EmblEnd::Incomplete
    } else if has_prefix(lines[i], id_marker()) {
        match id_header(lines[i]) {
            Some(h) => scan_embl(lines, i + 1, h.0, h.1),
            None => EmblEnd::Failed(ParseError::Locus),
        }
    } else if has_prefix(lines[i], sq_marker()) {
        scan_sq(lines, i + 1, id, length, seq![])
    } else {
        scan_embl(lines, i + 1, id, length)
    }
}

/// Scanning the sequence lines from line `j`, with the sequence so far.
pub open spec fn scan_sq(lines: Seq<Seq<char>>, j: int, id: Seq<char>, length: u32, sequence: Seq<char>) -> EmblEnd
    decreases lines.len() - j,
{
    if j < 0 || j >= lines.len() {
        EmblEnd::Incomplete
    } else if has_prefix(lines[j], end_marker()) {
        EmblEnd::Complete { id, length, sequence, next: j + 1 }
    } else {
        scan_sq(lines, j + 1, id, length, sequence + sq_bases(lines[j]))
    }
}

/// Piece `n` of `line` split at `d`.
pub fn piece_of(line: &str, d: char, n: usize) -> (r: Option<String>)
    ensures
        match piece(line@, d, n as nat) {
            Some(p) => r matches Some(s) && s@ == p,
            None => r is None,
        },
    decreases n,
{
    let len = line.unicode_len();
    let mut e: usize = 0;
    while e < len && line.get_char(e) != d
        invariant
            len == line@.len(),
            e <= len,
            next_where(line@, e as int, char_pred(d)) == next_where(line@, 0, char_pred(d)),
        decreases len - e,
    {
        e = e + 1;
    }
    if n == 0 {
        Some(line.substring_char(0, e).to_owned())
    } else if e >= len {
        None
    } else {
        let rest = line.substring_char(e + 1, len);
        piece_of(rest, d, n - 1)
    }
}

/// The id and declared length of an ID line.
pub fn parse_id_line(line: &str) -> (r: Option<(String, u32)>)
    ensures
        match id_header(line@) {
            Some(h) => r matches Some((id, n)) && id@ == h.0 && n == h.1,
            None => r is None,
        },
{
    let p0 = match piece_of(line, ';', 0) {
        Some(p) => p,
        None => return None,
    };
    let p6 = match piece_of(line, ';', 6) {
        Some(p) => p,
        None => return None,
    };
    let t0 = split_tokens(p0.as_str());
    let t6 = split_tokens(p6.as_str());
    if t0.len() < 2 || t6.len() < 1 {
        return None;
    }
    match parse_unsigned(t6[0].as_str(), 0xFFFF_FFFF) {
        Some(v) => Some((t0[1].clone(), v as u32)),
        None => None,
    }
}

/// The bases of one sequence line.
pub fn parse_sq_line(line: &str) -> (r: String)
    ensures
        r@ == sq_bases(line@),
{
    let t = split_tokens(line);
    if t.len() == 0 {
        return String::new();
    }
    let body = slice_subrange(t.as_slice(), 0, t.len() - 1);
    let r = join_tokens(body);
    proof {
        assert(body@.map_values(|s: String| s@) =~= tokens(line@).subrange(0, tokens(line@).len() - 1));
    }
    r
}

/// One ID/SQ record: id, declared length and sequence.
#[derive(Clone, Debug)]
pub struct Record {
    id: String,
    length: u32,
    sequence: String,
}

impl Record {
    pub closed spec fn id_view(&self) -> Seq<char> {
        self.id@
    }

    pub closed spec fn length_view(&self) -> u32 {
        self.length
    }

    pub closed spec fn sequence_view(&self) -> Seq<char> {
        self.sequence@
    }

    pub open spec fn is_blank(&self) -> bool {
        self.id_view().len() == 0 && self.length_view() == 0 && self.sequence_view().len() == 0
    }

    /// The record has neither an id nor a length.
    pub open spec fn is_empty_spec(&self) -> bool {
        self.id_view().len() == 0 && self.length_view() == 0
    }

    /// Create a new, blank record.
    pub fn new() -> (r: Record)
        ensures
            r.is_blank(),
    {
        Record { id: String::new(), length: 0, sequence: String::new() }
    }

    /// The record has neither an id nor a length.
    pub fn is_empty(&self) -> (r: bool)
        ensures
            r == self.is_empty_spec(),
    {
        self.id.unicode_len() == 0 && self.length == 0
    }

    /// Fails when the record has no id.
    pub fn check(&self) -> (r: Result<(), &'static str>)
        ensures
            r is Err <==> self.id_view().len() == 0,
            r matches Err(m) ==> m@ == "Expecting id for Gbk record."@,
    {
        if self.id.unicode_len() == 0 {
            return Err("Expecting id for Gbk record.");
        }
        Ok(())
    }

    pub fn id(&self) -> (r: &str)
        ensures
            r@ == self.id_view(),
    {
        self.id.as_str()
    }

    pub fn length(&self) -> (r: u32)
        ensures
            r == self.length_view(),
    {
        self.length
    }

    pub fn sequence(&self) -> (r: &str)
        ensures
            r@ == self.sequence_view(),
    {
        self.sequence.as_str()
    }

    /// Makes the record blank again.
    pub fn rec_clear(&mut self)
        ensures
            final(self).is_blank(),
    {
        self.id = String::new();
        self.length = 0;
        self.sequence = String::new();
    }
}

/// Reading ID/SQ records one after the other.
pub trait GbkRead: Sized {
    /// What one read does: the reader before and after, the record it fills
    /// and the outcome.
    spec fn read_post(before: Self, after: Self, record: Record, r: Result<(), ParseError>) -> bool;

    fn read(&mut self, record: &mut Record) -> (r: Result<(), ParseError>)
        ensures
            Self::read_post(*old(self), *final(self), *final(record), r),
    ;
}

/// A reader over the lines of an ID/SQ flat file, with a cursor on the next
/// line to scan.
pub struct Reader {
    lines: Vec<String>,
    pos: usize,
}

impl Reader {
    pub closed spec fn lines_view(&self) -> Seq<Seq<char>> {
        line_views(self.lines@)
    }

    pub closed spec fn position(&self) -> int {
        self.pos as int
    }

    /// A reader at the first of the given lines.
    pub fn from_bufread(lines: Vec<String>) -> (r: Reader)
        ensures
            r.lines_view() == line_views(lines@),
            r.position() == 0,
    {
        Reader { lines, pos: 0 }
    }

    /// The records that this reader yields.
    pub fn records(self) -> (r: Records)
        ensures
            r.reader_view() == self,
            !r.failed_view(),
    {
        Records { reader: self, error_has_occurred: false }
    }
}

/// What reading one ID/SQ record from `lines` at `pos` gives.
pub open spec fn embl_outcome(lines: Seq<Seq<char>>, pos: int, after: Reader, record: Record, r: Result<(), ParseError>) -> bool {
    &&& after.lines_view() == lines
    &&& match scan_embl(lines, pos, seq![], 0) {
        EmblEnd::Incomplete => r is Ok && record.is_blank() && after.position() == lines.len(),
        EmblEnd::Failed(e) => r == Err::<(), ParseError>(e),
        EmblEnd::Complete { id, length, sequence, next } => {
            &&& r is Ok
            &&& after.position() == next
            &&& record.id_view() == id
            &&& record.length_view() == length
            &&& record.sequence_view() == sequence
        },
    }
}

/// The sequence lines from line `j` on: the index after the `//` line and
/// the sequence they spell, or None when the input runs out first.
fn read_sq(lines: &Vec<String>, j: usize, Ghost(id): Ghost<Seq<char>>, Ghost(length): Ghost<u32>) -> (r: Option<(usize, String)>)
    requires
        j <= lines@.len(),
    ensures
        scan_sq(line_views(lines@), j as int, id, length, seq![]) == match r {
            Some((k, s)) => EmblEnd::Complete { id, length, sequence: s@, next: k as int },
            None => EmblEnd::Incomplete,
        },
{
    let ghost lv = line_views(lines@);
    let n = lines.len();
    let mut k = j;
    let mut sequence = String::new();
    assert(sequence@ =~= seq![]);
    while k < n
        invariant
            lv == line_views(lines@),
            n == lines@.len(),
            j <= k <= n,
            scan_sq(lv, k as int, id, length, sequence@) == scan_sq(lv, j as int, id, length, seq![]),
        decreases n - k,
    {
        let line = lines[k].as_str();
        assert(lv[k as int] == line@);
        if starts_with(line, "//") {
            return Some((k + 1, sequence));
        }
        let b = parse_sq_line(line);
        sequence.append(b.as_str());
        k = k + 1;
    }
    None
}

impl GbkRead for Reader {
    open spec fn read_post(before: Reader, after: Reader, record: Record, r: Result<(), ParseError>) -> bool {
        embl_outcome(before.lines_view(), before.position(), after, record, r)
    }

    /// Scans from the cursor to the end of the next record; the cursor moves
    /// past what was read.
    fn read(&mut self, record: &mut Record) -> (r: Result<(), ParseError>) {
        record.rec_clear();
        let ghost lv = line_views(self.lines@);
        let ghost target = scan_embl(lv, self.pos as int, seq![], 0);
        let n = self.lines.len();
        let mut i: usize = if self.pos < n { self.pos } else { n };
        let mut id = String::new();
        let mut length: u32 = 0;
        assert(id@ =~= seq![]);
        while i < n
            invariant
                lv == line_views(self.lines@),
                lv == old(self).lines_view(),
                target == scan_embl(old(self).lines_view(), old(self).position(), seq![], 0),
                n == self.lines@.len(),
                i <= n,
                scan_embl(lv, i as int, id@, length) == target,
                record.is_blank(),
            decreases n - i,
        {
            let line = self.lines[i].as_str();
            assert(lv[i as int] == line@);
            if starts_with(line, "ID") {
                match parse_id_line(line) {
                    Some((a, b)) => {
                        id = a;
                        length = b;
                        i = i + 1;
                    },
                    None => {
                        self.pos = n;
                        return Err(ParseError::Locus);
                    },
                }
            } else if starts_with(line, "SQ") {
                match read_sq(&self.lines, i + 1, Ghost(id@), Ghost(length)) {
                    Some((k, sequence)) => {
                        self.pos = k;
                        record.id = id;
                        record.length = length;
                        record.sequence = sequence;
                        return Ok(());
                    },
                    None => {
                        self.pos = n;
                        return Ok(());
                    },
                }
            } else {
                i = i + 1;
            }
        }
        self.pos = n;
        Ok(())
    }
}

/// The records of a reader, one after the other, until the input runs out or
/// an error has been reported once.
pub struct Records {
    reader: Reader,
    error_has_occurred: bool,
}

impl Records {
    pub closed spec fn reader_view(&self) -> Reader {
        self.reader
    }

    pub closed spec fn failed_view(&self) -> bool {
        self.error_has_occurred
    }

    /// The next record: None once the input holds no further complete record
    /// or after an error; otherwise the record, or the error that reading it
    /// met.
    pub fn next(&mut self) -> (r: Option<Result<Record, ParseError>>)
        ensures
            old(self).failed_view() ==> r is None && *final(self) == *old(self),
            !old(self).failed_view() ==> exists|rec: Record, res: Result<(), ParseError>| {
                &&& embl_outcome(old(self).reader_view().lines_view(), old(self).reader_view().position(),
                    final(self).reader_view(), rec, res)
                &&& match res {
                    Ok(()) => if rec.is_empty_spec() {
                        r is None && !final(self).failed_view()
                    } else {
                        r == Some(Ok::<Record, ParseError>(rec)) && !final(self).failed_view()
                    },
                    Err(e) => r == Some(Err::<Record, ParseError>(e)) && final(self).failed_view(),
                }
            },
    {
        if self.error_has_occurred {
            return None;
        }
        let mut record = Record::new();
        let res = self.reader.read(&mut record);
        let ghost rec = record;
        let r = match res {
            Ok(()) => {
                if record.is_empty() {
                    None
                } else {
                    Some(Ok(record))
                }
            },
            Err(e) => {
                self.error_has_occurred = true;
                Some(Err(e))
            },
        };
        assert(embl_outcome(old(self).reader_view().lines_view(), old(self).reader_view().position(),
            self.reader_view(), rec, res));
        r
    }
}

} // verus!
