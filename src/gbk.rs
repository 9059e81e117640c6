//! The GenBank record scanner: LOCUS header, CDS features with their
//! qualifiers, the ORIGIN sequence, and the translation of every CDS.
use vstd::prelude::*;
use vstd::slice::slice_subrange;
use vstd::string::*;
use vstd::utf8::encode_utf8;
use itertools::Itertools;
use crate::bases::{cut_at_stop, peptide_of, reverse_complement, truncate_at_stop, window_peptide};
use crate::table::{text_lt, FeatureTable, Location};
use crate::text::{
    contains, find_digit_pair, parse_unsigned, second_piece, second_piece_of, split_tokens,
    starts_with, tokens, trim, trim_text, unsigned_value, digit_pair, has_prefix, occurs_in,
};

verus! {

/// Why a record could not be read.
#[derive(Clone, Copy, Debug, PartialEq, Eq, Structural)]
pub enum ParseError {
    /// A header line (LOCUS, or ID in the EMBL form) without an id and a
    /// numeric length.
    Locus,
    /// A CDS line without a usable pair of coordinates.
    Location,
    /// A `/locus_tag` line without a double quote.
    LocusTag,
    /// A `/codon_start` line without `=` and a number from 0 to 255.
    CodonStart,
    /// A CDS whose reading window does not lie inside the sequence, or
    /// whose `/codon_start` is 0.
    Window,
}

pub open spec fn locus_marker() -> Seq<char> {
    "LOCUS"@
}

pub open spec fn cds_marker() -> Seq<char> {
    "     CDS"@
}

pub open spec fn origin_marker() -> Seq<char> {
    "ORIGIN"@
}

pub open spec fn end_marker() -> Seq<char> {
    "//"@
}

/// Id and declared length of a LOCUS line: its second and third tokens.
pub open spec fn locus_header(l: Seq<char>) -> Option<(Seq<char>, u32)> {
    let t = tokens(l);
    if t.len() < 3 {
        None
    } else {
        match unsigned_value(t[2], 0xFFFF_FFFF) {
            Some(v) => Some((t[1], v as u32)),
            None => None,
        }
    }
}

/// The location that a CDS line gives: the first coordinate made 0-based,
/// the second as it stands, strand -1 where `complement` occurs, frame 1.
pub open spec fn cds_location(l: Seq<char>) -> Option<Location> {
    match digit_pair(l) {
        Some(g) => match (unsigned_value(g.0, 0xFFFF_FFFF), unsigned_value(g.1, 0xFFFF_FFFF)) {
            (Some(a), Some(b)) => if a >= 1 {
                Some(Location {
                    start: (a - 1) as u32,
                    end: b as u32,
                    strand: if occurs_in(l, "complement"@) { -1i32 } else { 1i32 },
                    codon_start: 1,
                })
            } else {
                None
            },
            _ => None,
        },
        None => None,
    }
}

/// The locus tag and frame after a qualifier line: `/locus_tag` takes the text
/// between the first two double quotes, `/codon_start` the number after `=`.
pub open spec fn qualifier_update(l: Seq<char>, tag: Seq<char>, codon: u8) -> Result<(Seq<char>, u8), ParseError> {
    let t: Result<Seq<char>, ParseError> = if occurs_in(l, "/locus_tag"@) {
        match second_piece(l, '"') {
            Some(v) => Ok(v),
            None => Err(ParseError::LocusTag),
        }
    } else {
        Ok(tag)
    };
    let c: Result<u8, ParseError> = if occurs_in(l, "/codon_start"@) {
        match second_piece(l, '=') {
            Some(v) => match unsigned_value(trim(v), 255) {
                Some(n) => Ok(n as u8),
                None => Err(ParseError::CodonStart),
            },
            None => Err(ParseError::CodonStart),
        }
    } else {
        Ok(codon)
    };
    match t {
        Err(e) => Err(e),
        Ok(t2) => match c {
            Err(e) => Err(e),
            Ok(c2) => Ok((t2, c2)),
        },
    }
}

/// The bases that an ORIGIN line holds: its tokens after the first (the
/// position counter), joined with no separator.
pub open spec fn origin_bases(l: Seq<char>) -> Seq<char> {
    let t = tokens(l);
    if t.len() == 0 { seq![] } else { t.skip(1).flatten() }
}

/// How scanning for one record ends.
pub enum ScanEnd {
    /// The input ran out before the ORIGIN block was closed.
    Incomplete,
    /// A line could not be parsed.
    Failed(ParseError),
    /// The record was closed by `//`; reading goes on at line `next`.
    Complete {
        id: Seq<char>,
        length: u32,
        features: Map<Seq<char>, Location>,
        sequence: Seq<char>,
        next: int,
    },
}

/// Scanning from line `i` between sections, with the header and features so far.
pub open spec fn scan(
    lines: Seq<Seq<char>>,
    i: int,
    id: Seq<char>,
    length: u32,
    features: Map<Seq<char>, Location>,
) -> ScanEnd
    decreases lines.len() - i, 0nat,
{
    if i < 0 || i >= lines.len() {
        ScanEnd::Incomplete
    } else {
        let l = lines[i];
        if has_prefix(l, locus_marker()) {
            match locus_header(l) {
                Some(h) => scan(lines, i + 1, h.0, h.1, Map::empty()),
                None => ScanEnd::Failed(ParseError::Locus),
            }
        } else if has_prefix(l, cds_marker()) {
            match cds_location(l) {
                Some(loc) => scan_qualifiers(lines, i + 1, id, length, features, loc, seq![]),
                None => ScanEnd::Failed(ParseError::Location),
            }
        } else if has_prefix(l, origin_marker()) {
            scan_origin(lines, i + 1, id, length, features, seq![])
        } else {
            scan(lines, i + 1, id, length, features)
        }
    }
}

/// Scanning the qualifier lines of a CDS from line `j`, with its location
/// (frame included) and locus tag so far. The next CDS or ORIGIN line stores
/// the feature and is scanned again between sections.
pub open spec fn scan_qualifiers(
    lines: Seq<Seq<char>>,
    j: int,
    id: Seq<char>,
    length: u32,
    features: Map<Seq<char>, Location>,
    loc: Location,
    tag: Seq<char>,
) -> ScanEnd
    decreases lines.len() - j, 1nat,
{
    if j < 0 || j >= lines.len() {
        ScanEnd::Incomplete
    } else {
        let l = lines[j];
        match qualifier_update(l, tag, loc.codon_start) {
            Err(e) => ScanEnd::Failed(e),
            Ok(u) => {
                let loc2 = Location { codon_start: u.1, ..loc };
                if has_prefix(l, cds_marker()) || has_prefix(l, origin_marker()) {
                    scan(lines, j, id, length, features.insert(u.0, loc2))
                } else {
                    scan_qualifiers(lines, j + 1, id, length, features, loc2, u.0)
                }
            },
        }
    }
}

/// Scanning the ORIGIN block from line `j`, with the sequence so far.
pub open spec fn scan_origin(
    lines: Seq<Seq<char>>,
    j: int,
    id: Seq<char>,
    length: u32,
    features: Map<Seq<char>, Location>,
    sequence: Seq<char>,
) -> ScanEnd
    decreases lines.len() - j, 0nat,
{
    if j < 0 || j >= lines.len() {
        ScanEnd::Incomplete
    } else if has_prefix(lines[j], end_marker()) {
        ScanEnd::Complete { id, length, features, sequence, next: j + 1 }
    } else {
        scan_origin(lines, j + 1, id, length, features, sequence + origin_bases(lines[j]))
    }
}

/// Relies on itertools' `Itertools::join`: the tokens written one after the
/// other, with the empty separator between them.
#[verifier::external_body]
pub(crate) fn join_tokens(t: &[String]) -> (r: String)
    ensures
        r@ == t@.map_values(|s: String| s@).flatten(),
{
    t.iter().join("")
}

/// The id and declared length of a LOCUS line.
pub fn parse_locus_line(line: &str) -> (r: Option<(String, u32)>)
    ensures
        match locus_header(line@) {
            Some(h) => match r {
                Some((id, n)) => id@ == h.0 && n == h.1,
                None => false,
            },
            None => r is None,
        },
{
    let t = split_tokens(line);
    if t.len() < 3 {
        return None;
    }
    match parse_unsigned(t[2].as_str(), 0xFFFF_FFFF) {
        Some(v) => Some((t[1].clone(), v as u32)),
        None => None,
    }
}

/// The location that a CDS line gives.
pub fn parse_cds_line(line: &str) -> (r: Option<Location>)
    ensures
        r == cds_location(line@),
{
    match find_digit_pair(line) {
        Some((a, b)) => {
            let x = parse_unsigned(a.as_str(), 0xFFFF_FFFF);
            let y = parse_unsigned(b.as_str(), 0xFFFF_FFFF);
            match (x, y) {
                (Some(s), Some(e)) => {
                    if s >= 1 {
                        let strand: i32 = if contains(line, "complement") { -1 } else { 1 };
                        Some(Location { start: (s - 1) as u32, end: e as u32, strand, codon_start: 1 })
                    } else {
                        None
                    }
                },
                _ => None,
            }
        },
        None => None,
    }
}

/// The locus tag and frame after one qualifier line.
pub fn apply_qualifiers(line: &str, tag: String, codon: u8) -> (r: Result<(String, u8), ParseError>)
    ensures
        match qualifier_update(line@, tag@, codon) {
            Ok(u) => match r {
                Ok((t, c)) => t@ == u.0 && c == u.1,
                Err(_) => false,
            },
            Err(e) => r == Err::<(String, u8), ParseError>(e),
        },
{
    let t = if contains(line, "/locus_tag") {
        match second_piece_of(line, '"') {
            Some(v) => v,
            None => return Err(ParseError::LocusTag),
        }
    } else {
        tag
    };
    let c = if contains(line, "/codon_start") {
        match second_piece_of(line, '=') {
            Some(v) => {
                let w = trim_text(v.as_str());
                match parse_unsigned(w.as_str(), 255) {
                    Some(n) => n as u8,
                    None => return Err(ParseError::CodonStart),
                }
            },
            None => return Err(ParseError::CodonStart),
        }
    } else {
        codon
    };
    Ok((t, c))
}

/// The bases of one ORIGIN line.
pub fn parse_origin_line(line: &str) -> (r: String)
    ensures
        r@ == origin_bases(line@),
{
    let t = split_tokens(line);
    if t.len() == 0 {
        return String::new();
    }
    let rest = slice_subrange(t.as_slice(), 1, t.len());
    let r = join_tokens(rest);
    proof {
        assert(rest@.map_values(|s: String| s@) =~= tokens(line@).skip(1));
    }
    r
}

/// The translation of one CDS.
#[derive(Clone, Debug)]
pub struct Protein {
    pub locus_tag: String,
    pub peptide: String,
}

/// Where the reading window of a CDS begins: `codon_start` 3 or more moves it
/// by `codon_start - 1`; frames 1 and 2 leave it at `start`.
pub open spec fn window_start(loc: Location) -> int {
    if loc.codon_start as int - 1 > 1 {
        loc.start as int + loc.codon_start as int - 1
    } else {
        loc.start as int
    }
}

/// The reading window of a CDS lies inside a sequence of `n` bytes, and its
/// frame is 1-based.
pub open spec fn window_fits(loc: Location, n: int) -> bool {
    loc.codon_start >= 1 && window_start(loc) <= loc.end && loc.end <= n
}

/// The peptide of a CDS before it is cut at a stop: its window, reverse
/// complemented on strand -1, through the genetic code.
pub open spec fn raw_peptide(seq: Seq<u8>, loc: Location) -> Seq<char> {
    let w = seq.subrange(window_start(loc), loc.end as int);
    if loc.strand == -1 {
        peptide_of(reverse_complement(w))
    } else {
        peptide_of(w)
    }
}

/// The protein of one CDS of `seq`, or None when its window does not fit.
pub fn translate_feature(seq: &[u8], loc: Location) -> (r: Option<String>)
    ensures
        match r {
            Some(p) => window_fits(loc, seq@.len() as int) && cut_at_stop(raw_peptide(seq@, loc), p@),
            None => !window_fits(loc, seq@.len() as int),
        },
{
    if loc.codon_start < 1 {
        return None;
    }
    let cod: u64 = (loc.codon_start - 1) as u64;
    let from: u64 = if cod > 1 { loc.start as u64 + cod } else { loc.start as u64 };
    if from > loc.end as u64 || loc.end as usize > seq.len() {
        return None;
    }
    let raw = window_peptide(seq, from as usize, loc.end as usize, loc.strand == -1);
    Some(truncate_at_stop(raw.as_str()))
}

/// The proteins of all features of a table over `seq`, in the table's order
/// (ascending locus tag). Fails with `Window` when a window does not fit.
pub fn translate_features(table: &FeatureTable, seq: &[u8]) -> (r: Result<Vec<Protein>, ParseError>)
    requires
        table.wf(),
    ensures
        match r {
            Ok(ps) => {
                &&& forall|i: int| 0 <= i < table.keys().len() ==> window_fits(#[trigger] table.locations()[i], seq@.len() as int)
                &&& ps@.len() == table.keys().len()
                &&& forall|i: int| 0 <= i < ps@.len() ==> (#[trigger] ps@[i]).locus_tag@ == table.keys()[i]
                    && cut_at_stop(raw_peptide(seq@, table.locations()[i]), ps@[i].peptide@)
                &&& forall|i: int, j: int| 0 <= i < j < ps@.len() ==> text_lt(#[trigger] ps@[i].locus_tag@, #[trigger] ps@[j].locus_tag@)
            },
            Err(e) => e == ParseError::Window && exists|i: int| 0 <= i < table.keys().len()
                && !window_fits(#[trigger] table.locations()[i], seq@.len() as int),
        },
{
    let n = table.len();
    let mut out: Vec<Protein> = Vec::new();
    let mut i: usize = 0;
    while i < n
        invariant
            n == table.keys().len(),
            table.wf(),
            i <= n,
            out@.len() == i,
            forall|k: int| 0 <= k < i ==> window_fits(#[trigger] table.locations()[k], seq@.len() as int),
            forall|k: int| 0 <= k < i ==> (#[trigger] out@[k]).locus_tag@ == table.keys()[k]
                && cut_at_stop(raw_peptide(seq@, table.locations()[k]), out@[k].peptide@),
        decreases n - i,
    {
        let (tag, loc) = table.entry(i);
        match translate_feature(seq, loc) {
            Some(p) => {
                out.push(Protein { locus_tag: tag.clone(), peptide: p });
            },
            None => {
                return Err(ParseError::Window);
            },
        }
        i = i + 1;
    }
    proof {
        assert forall|a: int, b: int| 0 <= a < b < out@.len() implies text_lt(#[trigger] out@[a].locus_tag@, #[trigger] out@[b].locus_tag@) by {
            assert(text_lt(table.keys()[a], table.keys()[b]));
        }
    }
    Ok(out)
}

/// The views of a list of lines.
pub open spec fn line_views(lines: Seq<String>) -> Seq<Seq<char>> {
    lines.map_values(|s: String| s@)
}

/// A table holds exactly the entries of a map, and its tags ascend.
pub open spec fn table_models(t: FeatureTable, m: Map<Seq<char>, Location>) -> bool {
    &&& t.wf()
    &&& forall|k: Seq<char>, l: Location| #[trigger] t.has_entry(k, l) <==> (m.contains_key(k) && m[k] == l)
}

/// `ps` are the proteins of the features of `t` over the sequence `seq`, one
/// for each tag in ascending order.
pub open spec fn proteins_of(t: FeatureTable, seq: Seq<u8>, ps: Seq<Protein>) -> bool {
    &&& ps.len() == t.keys().len()
    &&& forall|i: int| 0 <= i < ps.len() ==> (#[trigger] ps[i]).locus_tag@ == t.keys()[i]
        && cut_at_stop(raw_peptide(seq, t.locations()[i]), ps[i].peptide@)
}

/// The qualifier lines of a CDS from line `j` on. Ok gives the index of the
/// CDS or ORIGIN line that ends them, the locus tag and the location with its
/// frame; Err(None) that the input ran out, Err(Some(e)) a failure.
fn read_qualifiers(
    lines: &Vec<String>,
    j: usize,
    loc: Location,
    Ghost(id): Ghost<Seq<char>>,
    Ghost(length): Ghost<u32>,
    Ghost(features): Ghost<Map<Seq<char>, Location>>,
) -> (r: Result<(usize, String, Location), Option<ParseError>>)
    requires
        j <= lines@.len(),
    ensures
        scan_qualifiers(line_views(lines@), j as int, id, length, features, loc, seq![]) == match r {
            Ok((k, t, l)) => scan(line_views(lines@), k as int, id, length, features.insert(t@, l)),
            Err(None) => ScanEnd::Incomplete,
            Err(Some(e)) => ScanEnd::Failed(e),
        },
        r matches Ok((k, _, _)) ==> j <= k < lines@.len(),
{
    let ghost lv = line_views(lines@);
    let n = lines.len();
    let mut k = j;
    let mut tag = String::new();
    let mut cur = loc;
    assert(tag@ =~= seq![]);
    while k < n
        invariant
            lv == line_views(lines@),
            n == lines@.len(),
            j <= k <= n,
            scan_qualifiers(lv, k as int, id, length, features, cur, tag@)
                == scan_qualifiers(lv, j as int, id, length, features, loc, seq![]),
        decreases n - k,
    {
        let line = lines[k].as_str();
        assert(lv[k as int] == line@);
        match apply_qualifiers(line, tag, cur.codon_start) {
            Err(e) => {
                return Err(Some(e));
            },
            Ok((t2, c2)) => {
                tag = t2;
                cur = Location { codon_start: c2, ..cur };
            },
        }
        if starts_with(line, "     CDS") || starts_with(line, "ORIGIN") {
            return Ok((k, tag, cur));
        }
        k = k + 1;
    }
    Err(None)
}

/// The ORIGIN block from line `j` on: the index after its `//` line and the
/// sequence it spells, or None when the input runs out first.
fn read_origin(
    lines: &Vec<String>,
    j: usize,
    Ghost(id): Ghost<Seq<char>>,
    Ghost(length): Ghost<u32>,
    Ghost(features): Ghost<Map<Seq<char>, Location>>,
) -> (r: Option<(usize, String)>)
    requires
        j <= lines@.len(),
    ensures
        scan_origin(line_views(lines@), j as int, id, length, features, seq![]) == match r {
            Some((k, s)) => ScanEnd::Complete { id, length, features, sequence: s@, next: k as int },
            None => ScanEnd::Incomplete,
        },
        r matches Some((k, _)) ==> j < k <= lines@.len(),
{
    let ghost lv = line_views(lines@);
    let n = lines.len();
    let mut k = j;
    let mut sequence = String::new();
    assert(sequence@ =~= seq![]);
    while k < n
        invariant
            lv == line_views(lines@),
            n == lines@.len(),
            j <= k <= n,
            scan_origin(lv, k as int, id, length, features, sequence@)
                == scan_origin(lv, j as int, id, length, features, seq![]),
        decreases n - k,
    {
        let line = lines[k].as_str();
        assert(lv[k as int] == line@);
        if starts_with(line, "//") {
            return Some((k + 1, sequence));
        }
        let b = parse_origin_line(line);
        sequence.append(b.as_str());
        k = k + 1;
    }
    None
}

/// One GenBank record: its header, sequence, CDS feature table and the
/// proteins of its features.
#[derive(Clone, Debug)]
pub struct Record {
    id: String,
    length: u32,
    sequence: String,
    start: u32,
    end: u32,
    strand: i32,
    locus_tag: String,
    features: FeatureTable,
    proteins: Vec<Protein>,
}

impl Record {
    pub closed spec fn id_view(&self) -> Seq<char> {
        self.id@
    }

    pub closed spec fn length_view(&self) -> u32 {
        self.length
    }

    pub closed spec fn sequence_view(&self) -> Seq<char> {
        self.sequence@
    }

    pub closed spec fn start_view(&self) -> u32 {
        self.start
    }

    pub closed spec fn end_view(&self) -> u32 {
        self.end
    }

    pub closed spec fn strand_view(&self) -> i32 {
        self.strand
    }

    pub closed spec fn locus_tag_view(&self) -> Seq<char> {
        self.locus_tag@
    }

    pub closed spec fn features_view(&self) -> FeatureTable {
        self.features
    }

    pub closed spec fn proteins_view(&self) -> Seq<Protein> {
        self.proteins@
    }

    /// Nothing has been read into the record.
    pub open spec fn is_blank(&self) -> bool {
        &&& self.id_view().len() == 0
        &&& self.length_view() == 0
        &&& self.sequence_view().len() == 0
        &&& self.start_view() == 0
        &&& self.end_view() == 0
        &&& self.strand_view() == 0
        &&& self.locus_tag_view().len() == 0
        &&& self.features_view().wf()
        &&& self.features_view().keys().len() == 0
        &&& self.proteins_view().len() == 0
    }

    /// Create a new, blank record.
    pub fn new() -> (r: Record)
        ensures
            r.is_blank(),
    {
        Record {
            id: String::new(),
            length: 0,
            sequence: String::new(),
            start: 0,
            end: 0,
            strand: 0,
            locus_tag: String::new(),
            features: FeatureTable::new(),
            proteins: Vec::new(),
        }
    }

    /// The record has neither an id nor a length.
    pub fn is_empty(&self) -> (r: bool)
        ensures
            r == (self.id_view().len() == 0 && self.length_view() == 0),
    {
        self.id.unicode_len() == 0 && self.length == 0
    }

    /// Fails when the record has no id.
    pub fn check(&self) -> (r: Result<(), &'static str>)
        ensures
            r is Err <==> self.id_view().len() == 0,
            r matches Err(m) ==> m@ == "Expecting id for Gbk record."@,
    {
        if self.id.unicode_len() == 0 {
            return Err("Expecting id for Gbk record.");
        }
        Ok(())
    }

    pub fn id(&self) -> (r: &str)
        ensures
            r@ == self.id_view(),
    {
        self.id.as_str()
    }

    pub fn length(&self) -> (r: u32)
        ensures
            r == self.length_view(),
    {
        self.length
    }

    pub fn sequence(&self) -> (r: &str)
        ensures
            r@ == self.sequence_view(),
    {
        self.sequence.as_str()
    }

    pub fn start(&self) -> (r: u32)
        ensures
            r == self.start_view(),
    {
        self.start
    }

    pub fn end(&self) -> (r: u32)
        ensures
            r == self.end_view(),
    {
        self.end
    }

    pub fn strand(&self) -> (r: i32)
        ensures
            r == self.strand_view(),
    {
        self.strand
    }

    pub fn locus_tag(&self) -> (r: &str)
        ensures
            r@ == self.locus_tag_view(),
    {
        self.locus_tag.as_str()
    }

    /// The CDS feature table of the record.
    pub fn features(&self) -> (r: &FeatureTable)
        ensures
            *r == self.features_view(),
    {
        &self.features
    }

    /// The proteins of the record's features, in ascending locus tag order.
    pub fn proteins(&self) -> (r: &Vec<Protein>)
        ensures
            r@ == self.proteins_view(),
    {
        &self.proteins
    }

    /// Makes the record blank again.
    pub fn rec_clear(&mut self)
        ensures
            final(self).is_blank(),
    {
        self.id = String::new();
        self.length = 0;
        self.sequence = String::new();
        self.start = 0;
        self.end = 0;
        self.strand = 0;
        self.locus_tag = String::new();
        self.features = FeatureTable::new();
        self.proteins = Vec::new();
    }
}

/// Reading records one after the other.
pub trait GbkRead: Sized {
    /// What one read does: the reader before and after, the record it fills
    /// and the outcome.
    spec fn read_post(before: Self, after: Self, record: Record, r: Result<(), ParseError>) -> bool;

    fn read(&mut self, record: &mut Record) -> (r: Result<(), ParseError>)
        ensures
            Self::read_post(*old(self), *final(self), *final(record), r),
    ;
}

/// A reader over the lines of a GenBank flat file, with a cursor on the next
/// line to scan.
pub struct Reader {
    lines: Vec<String>,
    pos: usize,
}

impl Reader {
    pub closed spec fn lines_view(&self) -> Seq<Seq<char>> {
        line_views(self.lines@)
    }

    pub closed spec fn position(&self) -> int {
        self.pos as int
    }

    /// A reader at the first of the given lines (each as a buffered reader
    /// hands it out, line terminator included or not).
    pub fn from_bufread(lines: Vec<String>) -> (r: Reader)
        ensures
            r.lines_view() == line_views(lines@),
            r.position() == 0,
    {
        Reader { lines, pos: 0 }
    }

    /// The records that this reader yields.
    pub fn records(self) -> (r: Records)
        ensures
            r.reader_view() == self,
            !r.failed_view(),
    {
        Records { reader: self, error_has_occurred: false }
    }
}

/// Every feature's reading window lies inside a sequence of `n` bytes.
pub open spec fn all_windows_fit(features: Map<Seq<char>, Location>, n: int) -> bool {
    forall|k: Seq<char>| #[trigger] features.contains_key(k) ==> window_fits(features[k], n)
}

/// What reading one record from `lines` at `pos` gives, as `GbkRead::read`
/// does it.
pub open spec fn read_outcome(
    lines: Seq<Seq<char>>,
    pos: int,
    after: Reader,
    record: Record,
    r: Result<(), ParseError>,
) -> bool {
    &&& after.lines_view() == lines
    &&& match scan(lines, pos, seq![], 0, Map::empty()) {
        ScanEnd::Incomplete => r is Ok && record.is_blank() && after.position() == lines.len(),
        ScanEnd::Failed(e) => r == Err::<(), ParseError>(e),
        ScanEnd::Complete { id, length, features, sequence, next } => {
            &&& after.position() == next
            &&& if all_windows_fit(features, encode_utf8(sequence).len() as int) {
                &&& r is Ok
                &&& record.id_view() == id
                &&& record.length_view() == length
                &&& record.sequence_view() == sequence
                &&& record.start_view() == 0 && record.end_view() == 0 && record.strand_view() == 0
                &&& record.locus_tag_view().len() == 0
                &&& table_models(record.features_view(), features)
                &&& proteins_of(record.features_view(), encode_utf8(sequence), record.proteins_view())
            } else {
                r == Err::<(), ParseError>(ParseError::Window)
            }
        },
    }
}

impl GbkRead for Reader {
    open spec fn read_post(before: Reader, after: Reader, record: Record, r: Result<(), ParseError>) -> bool {
        read_outcome(before.lines_view(), before.position(), after, record, r)
    }

    /// Scans from the cursor to the end of the next record and translates
    /// its features; the cursor moves past what was read.
    fn read(&mut self, record: &mut Record) -> (r: Result<(), ParseError>) {
        record.rec_clear();
        let ghost lv = line_views(self.lines@);
        let ghost target = scan(lv, self.pos as int, seq![], 0, Map::empty());
        let n = self.lines.len();
        let mut i: usize = if self.pos < n { self.pos } else { n };
        let mut id = String::new();
        let mut length: u32 = 0;
        let mut table = FeatureTable::new();
        let ghost mut features: Map<Seq<char>, Location> = Map::empty();
        assert(id@ =~= seq![]);
        proof {
            assert forall|k: Seq<char>, l: Location| #[trigger] table.has_entry(k, l) <==> (features.contains_key(k) && features[k] == l) by {
                if table.has_entry(k, l) {
                    assert(table.has_tag(k));
                }
            }
        }
        while i < n
            invariant
                lv == line_views(self.lines@),
                lv == old(self).lines_view(),
                target == scan(old(self).lines_view(), old(self).position(), seq![], 0, Map::empty()),
                n == self.lines@.len(),
                i <= n,
                scan(lv, i as int, id@, length, features) == target,
                table_models(table, features),
                record.is_blank(),
            decreases n - i,
        {
            let line = self.lines[i].as_str();
            assert(lv[i as int] == line@);
            if starts_with(line, "LOCUS") {
                match parse_locus_line(line) {
                    Some((a, b)) => {
                        id = a;
                        length = b;
                        table = FeatureTable::new();
                        proof {
                            features = Map::empty();
                            assert forall|k: Seq<char>, l: Location| #[trigger] table.has_entry(k, l) <==> (features.contains_key(k) && features[k] == l) by {
                                if table.has_entry(k, l) {
                                    assert(table.has_tag(k));
                                }
                            }
                        }
                        i = i + 1;
                    },
                    None => {
                        assert(scan(lv, i as int, id@, length, features) == ScanEnd::Failed(ParseError::Locus));
                        self.pos = n;
                        return Err(ParseError::Locus);
                    },
                }
            } else if starts_with(line, "     CDS") {
                let loc = match parse_cds_line(line) {
                    Some(l) => l,
                    None => {
                        assert(!has_prefix(line@, locus_marker()));
                        assert(scan(lv, i as int, id@, length, features) == ScanEnd::Failed(ParseError::Location));
                        self.pos = n;
                        return Err(ParseError::Location);
                    },
                };
                match read_qualifiers(&self.lines, i + 1, loc, Ghost(id@), Ghost(length), Ghost(features)) {
                    Ok((k, tag, l)) => {
                        let ghost old_table = table;
                        let ghost tv = tag@;
                        table.insert(tag, l);
                        proof {
                            let nf = features.insert(tv, l);
                            assert forall|k2: Seq<char>, l2: Location| #[trigger] table.has_entry(k2, l2) <==> (nf.contains_key(k2) && nf[k2] == l2) by {
                                if k2 == tv {
                                    if table.has_entry(k2, l2) {
                                        assert(l2 == l);
                                    }
                                } else {
                                    assert(table.has_entry(k2, l2) <==> old_table.has_entry(k2, l2));
                                }
                            }
                            features = nf;
                        }
                        i = k;
                    },
                    Err(None) => {
                        self.pos = n;
                        return Ok(());
                    },
                    Err(Some(e)) => {
                        self.pos = n;
                        return Err(e);
                    },
                }
            } else if starts_with(line, "ORIGIN") {
                match read_origin(&self.lines, i + 1, Ghost(id@), Ghost(length), Ghost(features)) {
                    Some((k, sequence)) => {
                        self.pos = k;
                        let bytes = sequence.as_str().as_bytes();
                        match translate_features(&table, bytes) {
                            Ok(ps) => {
                                proof {
                                    assert forall|key: Seq<char>| #[trigger] features.contains_key(key)
                                        implies window_fits(features[key], encode_utf8(sequence@).len() as int) by {
                                        assert(table.has_entry(key, features[key]));
                                        let x = choose|x: int| 0 <= x < table.keys().len() && #[trigger] table.keys()[x] == key
                                            && table.locations()[x] == features[key];
                                        assert(window_fits(table.locations()[x], bytes@.len() as int));
                                    }
                                }
                                record.id = id;
                                record.length = length;
                                record.sequence = sequence;
                                record.features = table;
                                record.proteins = ps;
                                return Ok(());
                            },
                            Err(e) => {
                                proof {
                                    assert(bytes@ == encode_utf8(sequence@));
                                    assert(e == ParseError::Window);
                                    let x = choose|x: int| 0 <= x < table.keys().len()
                                        && !window_fits(#[trigger] table.locations()[x], bytes@.len() as int);
                                    let key = table.keys()[x];
                                    assert(table.has_entry(key, table.locations()[x]));
                                    assert(features.contains_key(key));
                                    assert(!window_fits(features[key], encode_utf8(sequence@).len() as int));
                                    assert(self.lines_view() == lv);
                                    assert(target == ScanEnd::Complete { id: id@, length, features, sequence: sequence@, next: k as int });
                                    assert(!all_windows_fit(features, encode_utf8(sequence@).len() as int));
                                }
                                return Err(e);
                            },
                        }
                    },
                    None => {
                        self.pos = n;
                        return Ok(());
                    },
                }
            } else {
                i = i + 1;
            }
        }
        self.pos = n;
        Ok(())
    }
}

/// The records of a reader, one after the other, until the input runs out or
/// an error has been reported once.
pub struct Records {
    reader: Reader,
    error_has_occurred: bool,
}

impl Records {
    pub closed spec fn reader_view(&self) -> Reader {
        self.reader
    }

    pub closed spec fn failed_view(&self) -> bool {
        self.error_has_occurred
    }

    /// The next record: None once the input holds no further complete record
    /// or after an error; otherwise the record, or the error that reading it
    /// met.
    pub fn next(&mut self) -> (r: Option<Result<Record, ParseError>>)
        ensures
            old(self).failed_view() ==> r is None && *final(self) == *old(self),
            !old(self).failed_view() ==> exists|rec: Record, res: Result<(), ParseError>| {
                &&& read_outcome(old(self).reader_view().lines_view(), old(self).reader_view().position(),
                    final(self).reader_view(), rec, res)
                &&& match res {
                    Ok(()) => if rec.is_empty_spec() {
                        r is None && !final(self).failed_view()
                    } else {
                        r == Some(Ok::<Record, ParseError>(rec)) && !final(self).failed_view()
                    },
                    Err(e) => r == Some(Err::<Record, ParseError>(e)) && final(self).failed_view(),
                }
            },
    {
        if self.error_has_occurred {
            return None;
        }
        let mut record = Record::new();
        let res = self.reader.read(&mut record);
        let ghost rec = record;
        let r = match res {
            Ok(()) => {
                if record.is_empty() {
                    None
                } else {
                    Some(Ok(record))
                }
            },
            Err(e) => {
                self.error_has_occurred = true;
                Some(Err(e))
            },
        };
        assert(read_outcome(old(self).reader_view().lines_view(), old(self).reader_view().position(),
            self.reader_view(), rec, res));
        r
    }
}

impl Record {
    /// The record has neither an id nor a length.
    pub open spec fn is_empty_spec(&self) -> bool {
        self.id_view().len() == 0 && self.length_view() == 0
    }
}

/// The bases of lines `a` up to `b` of an ORIGIN block, one line after the other.
pub open spec fn block_bases(lines: Seq<Seq<char>>, a: int, b: int) -> Seq<char>
    decreases b - a,
{
    if a >= b {
        seq![]
    } else {
        block_bases(lines, a, b - 1) + origin_bases(lines[b - 1])
    }
}

/// A closed ORIGIN block spells exactly its lines' bases (the tokens after
/// each position counter), joined in order: nothing is dropped or added.
pub proof fn lemma_origin_round_trip(
    lines: Seq<Seq<char>>,
    j: int,
    id: Seq<char>,
    length: u32,
    features: Map<Seq<char>, Location>,
    sequence: Seq<char>,
)
    requires
        0 <= j,
        scan_origin(lines, j, id, length, features, sequence) is Complete,
    ensures
        scan_origin(lines, j, id, length, features, sequence)->Complete_sequence
            == sequence + block_bases(lines, j, scan_origin(lines, j, id, length, features, sequence)->Complete_next - 1),
        j < scan_origin(lines, j, id, length, features, sequence)->Complete_next,
    decreases lines.len() - j,
{
    if has_prefix(lines[j], end_marker()) {
        assert(sequence + block_bases(lines, j, j) =~= sequence);
    } else {
        let s2 = sequence + origin_bases(lines[j]);
        lemma_origin_round_trip(lines, j + 1, id, length, features, s2);
        let next = scan_origin(lines, j + 1, id, length, features, s2)->Complete_next;
        lemma_block_bases_front(lines, j, next - 1);
        assert(s2 + block_bases(lines, j + 1, next - 1) =~= sequence + (origin_bases(lines[j]) + block_bases(lines, j + 1, next - 1)));
    }
}

proof fn lemma_block_bases_front(lines: Seq<Seq<char>>, a: int, b: int)
    requires
        a < b,
    ensures
        block_bases(lines, a, b) == origin_bases(lines[a]) + block_bases(lines, a + 1, b),
    decreases b - a,
{
    if a + 1 == b {
        assert(block_bases(lines, a, a) =~= seq![]);
        assert(block_bases(lines, a, b) =~= origin_bases(lines[a]));
        assert(block_bases(lines, a + 1, b) =~= seq![]);
        assert(origin_bases(lines[a]) + seq![] =~= origin_bases(lines[a]));
    } else {
        lemma_block_bases_front(lines, a, b - 1);
        assert(block_bases(lines, a, b) =~= origin_bases(lines[a]) + block_bases(lines, a + 1, b));
    }
}

/// `codon_start` 2 reads the same window, hence the same peptide, as
/// `codon_start` 1; `codon_start` 3 moves the window start by two bases.
pub proof fn lemma_frame_offsets(seq: Seq<u8>, loc: Location)
    ensures
        raw_peptide(seq, Location { codon_start: 2, ..loc }) == raw_peptide(seq, Location { codon_start: 1, ..loc }),
        window_start(Location { codon_start: 1, ..loc }) == loc.start,
        window_start(Location { codon_start: 2, ..loc }) == loc.start,
        window_start(Location { codon_start: 3, ..loc }) == loc.start + 2,
{
}

/// The sequence of a record scanned from line `i` is its ORIGIN block spelled
/// out: there is an ORIGIN line `o`, and the sequence is the bases of the lines
/// after it up to the closing `//` line, joined in order. `GbkRead::read` hands
/// this sequence to the record.
pub proof fn lemma_record_sequence_round_trip(
    lines: Seq<Seq<char>>,
    i: int,
    id: Seq<char>,
    length: u32,
    features: Map<Seq<char>, Location>,
)
    requires
        0 <= i,
        scan(lines, i, id, length, features) is Complete,
    ensures
        exists|o: int|
            i <= o && o < scan(lines, i, id, length, features)->Complete_next - 1
                && #[trigger] has_prefix(lines[o], origin_marker())
                && has_prefix(lines[scan(lines, i, id, length, features)->Complete_next - 1], end_marker())
                && scan(lines, i, id, length, features)->Complete_sequence == block_bases(
                lines,
                o + 1,
                scan(lines, i, id, length, features)->Complete_next - 1,
            ),
    decreases lines.len() - i, 0nat,
{
    let l = lines[i];
    let out = scan(lines, i, id, length, features);
    if has_prefix(l, locus_marker()) {
        let h = locus_header(l)->Some_0;
        lemma_record_sequence_round_trip(lines, i + 1, h.0, h.1, Map::empty());
        let o = choose|o: int|
            i + 1 <= o && o < out->Complete_next - 1 && #[trigger] has_prefix(lines[o], origin_marker())
                && has_prefix(lines[out->Complete_next - 1], end_marker())
                && out->Complete_sequence == block_bases(lines, o + 1, out->Complete_next - 1);
        assert(has_prefix(lines[o], origin_marker()));
    } else if has_prefix(l, cds_marker()) {
        let loc = cds_location(l)->Some_0;
        lemma_qualifiers_sequence_round_trip(lines, i + 1, id, length, features, loc, seq![]);
        let o = choose|o: int|
            i + 1 <= o && o < out->Complete_next - 1 && #[trigger] has_prefix(lines[o], origin_marker())
                && has_prefix(lines[out->Complete_next - 1], end_marker())
                && out->Complete_sequence == block_bases(lines, o + 1, out->Complete_next - 1);
        assert(has_prefix(lines[o], origin_marker()));
    } else if has_prefix(l, origin_marker()) {
        lemma_origin_round_trip(lines, i + 1, id, length, features, seq![]);
        lemma_origin_closes(lines, i + 1, id, length, features, seq![]);
        assert(seq![] + block_bases(lines, i + 1, out->Complete_next - 1) =~= block_bases(lines, i + 1, out->Complete_next - 1));
        assert(has_prefix(lines[i], origin_marker()));
    } else {
        lemma_record_sequence_round_trip(lines, i + 1, id, length, features);
        let o = choose|o: int|
            i + 1 <= o && o < out->Complete_next - 1 && #[trigger] has_prefix(lines[o], origin_marker())
                && has_prefix(lines[out->Complete_next - 1], end_marker())
                && out->Complete_sequence == block_bases(lines, o + 1, out->Complete_next - 1);
        assert(has_prefix(lines[o], origin_marker()));
    }
}

proof fn lemma_qualifiers_sequence_round_trip(
    lines: Seq<Seq<char>>,
    j: int,
    id: Seq<char>,
    length: u32,
    features: Map<Seq<char>, Location>,
    loc: Location,
    tag: Seq<char>,
)
    requires
        0 <= j,
        scan_qualifiers(lines, j, id, length, features, loc, tag) is Complete,
    ensures
        exists|o: int|
            j <= o && o < scan_qualifiers(lines, j, id, length, features, loc, tag)->Complete_next - 1
                && #[trigger] has_prefix(lines[o], origin_marker())
                && has_prefix(lines[scan_qualifiers(lines, j, id, length, features, loc, tag)->Complete_next - 1], end_marker())
                && scan_qualifiers(lines, j, id, length, features, loc, tag)->Complete_sequence == block_bases(
                lines,
                o + 1,
                scan_qualifiers(lines, j, id, length, features, loc, tag)->Complete_next - 1,
            ),
    decreases lines.len() - j, 1nat,
{
    let l = lines[j];
    let u = qualifier_update(l, tag, loc.codon_start)->Ok_0;
    let loc2 = Location { codon_start: u.1, ..loc };
    if has_prefix(l, cds_marker()) || has_prefix(l, origin_marker()) {
        lemma_record_sequence_round_trip(lines, j, id, length, features.insert(u.0, loc2));
    } else {
        lemma_qualifiers_sequence_round_trip(lines, j + 1, id, length, features, loc2, u.0);
        let out = scan_qualifiers(lines, j, id, length, features, loc, tag);
        let o = choose|o: int|
            j + 1 <= o && o < out->Complete_next - 1 && #[trigger] has_prefix(lines[o], origin_marker())
                && has_prefix(lines[out->Complete_next - 1], end_marker())
                && out->Complete_sequence == block_bases(lines, o + 1, out->Complete_next - 1);
        assert(has_prefix(lines[o], origin_marker()));
    }
}

/// A closed ORIGIN block ends on a `//` line.
proof fn lemma_origin_closes(
    lines: Seq<Seq<char>>,
    j: int,
    id: Seq<char>,
    length: u32,
    features: Map<Seq<char>, Location>,
    sequence: Seq<char>,
)
    requires
        0 <= j,
        scan_origin(lines, j, id, length, features, sequence) is Complete,
    ensures
        has_prefix(lines[scan_origin(lines, j, id, length, features, sequence)->Complete_next - 1], end_marker()),
        j < scan_origin(lines, j, id, length, features, sequence)->Complete_next,
    decreases lines.len() - j,
{
    if !has_prefix(lines[j], end_marker()) {
        lemma_origin_closes(lines, j + 1, id, length, features, sequence + origin_bases(lines[j]));
    }
}

/// A CDS line `a..b` (or `complement(a..b)`) with frame 1 or 2 translates the
/// 0-based window `[a - 1, b)` of the sequence, reverse-complemented exactly
/// when `complement` occurs; with frame 3 the window starts two bases later.
pub proof fn lemma_cds_line_window(l: Seq<char>, seq: Seq<u8>, codon_start: u8)
    requires
        cds_location(l) is Some,
    ensures
        ({
            let loc = cds_location(l)->Some_0;
            let g = digit_pair(l)->Some_0;
            let a = unsigned_value(g.0, 0xFFFF_FFFF)->Some_0;
            let b = unsigned_value(g.1, 0xFFFF_FFFF)->Some_0;
            let w = seq.subrange(a - 1, b as int);
            &&& loc.start == a - 1 && loc.end == b
            &&& (loc.strand == -1 <==> occurs_in(l, "complement"@))
            &&& (codon_start == 1 || codon_start == 2) ==> raw_peptide(seq, Location { codon_start, ..loc })
                == if occurs_in(l, "complement"@) { peptide_of(reverse_complement(w)) } else { peptide_of(w) }
            &&& codon_start == 3 ==> window_start(Location { codon_start, ..loc }) == a + 1
        }),
{
}

/// Storing a later CDS under a tag that an earlier CDS used leaves no trace
/// of the earlier one: the features are as if only the later was stored.
pub proof fn lemma_later_cds_replaces_earlier(
    features: Map<Seq<char>, Location>,
    tag: Seq<char>,
    earlier: Location,
    later: Location,
)
    ensures
        features.insert(tag, earlier).insert(tag, later) == features.insert(tag, later),
{
    assert(features.insert(tag, earlier).insert(tag, later) =~= features.insert(tag, later));
}

} // verus!
