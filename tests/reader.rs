use gbk2faa::bases::{truncate_at_stop, window_peptide};
use gbk2faa::gbk::{
    parse_cds_line, parse_locus_line, parse_origin_line, translate_feature, translate_features,
    GbkRead, ParseError, Reader, Record,
};
use gbk2faa::table::{FeatureTable, Location};
use gbk2faa::text::{find_digit_pair, parse_unsigned, split_tokens, trim_text};

fn lines(v: &[&str]) -> Vec<String> {
    v.iter().map(|s| format!("{}\n", s)).collect()
}

fn read_one(v: &[&str]) -> (Result<(), ParseError>, Record) {
    let mut reader = Reader::from_bufread(lines(v));
    let mut record = Record::new();
    let r = reader.read(&mut record);
    (r, record)
}

fn proteins(record: &Record) -> Vec<(String, String)> {
    record
        .proteins()
        .iter()
        .map(|p| (p.locus_tag.clone(), p.peptide.clone()))
        .collect()
}

#[test]
fn end_to_end_single_cds() {
    let (r, record) = read_one(&[
        "LOCUS       X 12 bp    DNA     linear",
        "FEATURES             Location/Qualifiers",
        "     CDS             1..9",
        "                     /locus_tag=\"geneA\"",
        "                     /codon_start=1",
        "ORIGIN",
        "        1 atgaaatag",
        "//",
    ]);
    assert_eq!(r, Ok(()));
    assert_eq!(record.id(), "X");
    assert_eq!(record.length(), 12);
    assert_eq!(record.sequence(), "atgaaatag");
    assert_eq!(proteins(&record), vec![("geneA".to_string(), "MK".to_string())]);
}

#[test]
fn later_cds_with_same_tag_wins() {
    let (r, record) = read_one(&[
        "LOCUS       Y 12 bp",
        "     CDS             1..3",
        "                     /locus_tag=\"g\"",
        "     CDS             4..9",
        "                     /locus_tag=\"g\"",
        "ORIGIN",
        "        1 atgaaatgg tga",
        "//",
    ]);
    assert_eq!(r, Ok(()));
    assert_eq!(record.features().len(), 1);
    let (tag, loc) = record.features().entry(0);
    assert_eq!(tag.as_str(), "g");
    assert_eq!((loc.start, loc.end), (3, 9));
    assert_eq!(proteins(&record), vec![("g".to_string(), "KW".to_string())]);
}

#[test]
fn headers_come_in_ascending_tag_order() {
    let (r, record) = read_one(&[
        "LOCUS       Z 9 bp",
        "     CDS             1..3",
        "                     /locus_tag=\"zeta\"",
        "     CDS             1..3",
        "                     /locus_tag=\"alpha\"",
        "     CDS             1..3",
        "                     /locus_tag=\"mid\"",
        "ORIGIN",
        "        1 atg",
        "//",
    ]);
    assert_eq!(r, Ok(()));
    let tags: Vec<String> = proteins(&record).into_iter().map(|p| p.0).collect();
    assert_eq!(tags, vec!["alpha", "mid", "zeta"]);
}

#[test]
fn origin_tokens_are_joined() {
    let (r, record) = read_one(&[
        "LOCUS       S 25 bp",
        "ORIGIN",
        "        1 acgtacgtac gtacgtacgt",
        "       21 acgta",
        "//",
    ]);
    assert_eq!(r, Ok(()));
    assert_eq!(record.sequence(), "acgtacgtacgtacgtacgtacgta");
    assert_eq!(parse_origin_line("       61 aa cc gg"), "aaccgg");
    assert_eq!(parse_origin_line(""), "");
}

fn long_sequence() -> Vec<u8> {
    let unit = b"ATGGCTAAACCCGGGTTTTAGCAT";
    let mut s = Vec::new();
    while s.len() < 500 {
        s.extend_from_slice(unit);
    }
    s
}

fn cut(p: &str) -> String {
    p.split('*').next().unwrap().to_string()
}

#[test]
fn plus_strand_window() {
    let seq = long_sequence();
    let loc = Location { start: 122, end: 456, strand: 1, codon_start: 1 };
    let expected = cut(&protein_translate::translate(&seq[122..456]));
    assert_eq!(translate_feature(&seq, loc), Some(expected));
}

#[test]
fn minus_strand_window() {
    let seq = long_sequence();
    let loc = Location { start: 122, end: 456, strand: -1, codon_start: 1 };
    let rc = bio::alphabets::dna::revcomp(&seq[122..456]);
    let expected = cut(&protein_translate::translate(&rc));
    assert_eq!(translate_feature(&seq, loc), Some(expected));
    assert_eq!(window_peptide(b"TTACAT", 0, 6, true), "M*");
    assert_eq!(window_peptide(b"TTACAT", 0, 6, false), "LH");
}

#[test]
fn frame_two_equals_frame_one_and_three_shifts() {
    let seq = b"CAATGAAATGGTAA".to_vec();
    let one = Location { start: 0, end: 14, strand: 1, codon_start: 1 };
    let two = Location { codon_start: 2, ..one };
    let three = Location { codon_start: 3, ..one };
    assert_eq!(translate_feature(&seq, one), translate_feature(&seq, two));
    let shifted = cut(&protein_translate::translate(&seq[2..14]));
    assert_eq!(translate_feature(&seq, three), Some(shifted.clone()));
    assert_eq!(shifted, "MKW");
    let zero = Location { codon_start: 0, ..one };
    assert_eq!(translate_feature(&seq, zero), None);
}

#[test]
fn codon_start_qualifier_is_read() {
    let (r, record) = read_one(&[
        "LOCUS       F 14 bp",
        "     CDS             1..14",
        "                     /locus_tag=\"f\"",
        "                     /codon_start=3",
        "ORIGIN",
        "        1 caatgaaatg gtaa",
        "//",
    ]);
    assert_eq!(r, Ok(()));
    assert_eq!(proteins(&record), vec![("f".to_string(), "MKW".to_string())]);
}

#[test]
fn truncation_at_first_stop() {
    assert_eq!(truncate_at_stop("MAK*TT"), "MAK");
    assert_eq!(truncate_at_stop("MAK"), "MAK");
    assert_eq!(truncate_at_stop("*M"), "");
    assert_eq!(truncate_at_stop(""), "");
}

#[test]
fn complement_location_flips_strand() {
    let loc = parse_cds_line("     CDS             complement(123..456)").unwrap();
    assert_eq!(loc, Location { start: 122, end: 456, strand: -1, codon_start: 1 });
    let loc = parse_cds_line("     CDS             <5..>20").unwrap();
    assert_eq!(loc, Location { start: 4, end: 20, strand: 1, codon_start: 1 });
    assert_eq!(parse_cds_line("     CDS             join"), None);
    assert_eq!(parse_cds_line("     CDS             0..5"), None);
}

#[test]
fn locus_line_fields() {
    assert_eq!(parse_locus_line("LOCUS  NC_1  4641652 bp"), Some(("NC_1".to_string(), 4641652)));
    assert_eq!(parse_locus_line("LOCUS  NC_1"), None);
    assert_eq!(parse_locus_line("LOCUS  NC_1 many bp"), None);
    assert_eq!(parse_locus_line("LOCUS  NC_1 4294967296 bp"), None);
}

#[test]
fn malformed_lines_are_errors() {
    let (r, _) = read_one(&["LOCUS       X"]);
    assert_eq!(r, Err(ParseError::Locus));
    let (r, _) = read_one(&["LOCUS       X 3", "     CDS             abc"]);
    assert_eq!(r, Err(ParseError::Location));
    let (r, _) = read_one(&["LOCUS       X 3", "     CDS             1..3", "  /locus_tag=none", "ORIGIN"]);
    assert_eq!(r, Err(ParseError::LocusTag));
    let (r, _) = read_one(&["LOCUS       X 3", "     CDS             1..3", "  /codon_start=x", "ORIGIN"]);
    assert_eq!(r, Err(ParseError::CodonStart));
    let (r, _) = read_one(&["LOCUS       X 3", "     CDS             1..30", "  /locus_tag=\"a\"", "ORIGIN", " 1 atg", "//"]);
    assert_eq!(r, Err(ParseError::Window));
}

#[test]
fn input_ending_early_gives_no_record() {
    let mut records = Reader::from_bufread(lines(&["LOCUS       X 3", "ORIGIN", "  1 atg"])).records();
    assert!(records.next().is_none());
    let (r, record) = read_one(&["LOCUS       X 3", "ORIGIN", "  1 atg"]);
    assert_eq!(r, Ok(()));
    assert!(record.is_empty());
}

#[test]
fn records_in_sequence_then_none() {
    let input = lines(&[
        "LOCUS       A 3 bp",
        "     CDS             1..3",
        "                     /locus_tag=\"a1\"",
        "ORIGIN",
        "        1 atg",
        "//",
        "LOCUS       B 3 bp",
        "ORIGIN",
        "        1 ccc",
        "//",
    ]);
    let mut records = Reader::from_bufread(input).records();
    let a = records.next().unwrap().unwrap();
    assert_eq!(a.id(), "A");
    assert_eq!(proteins(&a), vec![("a1".to_string(), "M".to_string())]);
    let b = records.next().unwrap().unwrap();
    assert_eq!(b.id(), "B");
    assert_eq!(b.sequence(), "ccc");
    assert!(proteins(&b).is_empty());
    assert!(records.next().is_none());
}

#[test]
fn record_checks() {
    let mut record = Record::new();
    assert!(record.is_empty());
    assert_eq!(record.check(), Err("Expecting id for Gbk record."));
    assert_eq!((record.start(), record.end(), record.strand(), record.locus_tag()), (0, 0, 0, ""));
    let (_, mut full) = read_one(&["LOCUS       A 3 bp", "ORIGIN", "  1 atg", "//"]);
    assert!(!full.is_empty());
    assert_eq!(full.check(), Ok(()));
    full.rec_clear();
    assert!(full.is_empty());
    record.rec_clear();
}

#[test]
fn table_keeps_tags_sorted() {
    let mut t = FeatureTable::new();
    let l = |s: u32| Location { start: s, end: s + 3, strand: 1, codon_start: 1 };
    t.insert("b".to_string(), l(1));
    t.insert("a".to_string(), l(2));
    t.insert("ab".to_string(), l(3));
    t.insert("b".to_string(), l(4));
    assert_eq!(t.len(), 3);
    let got: Vec<(String, u32)> = (0..t.len()).map(|i| { let (k, v) = t.entry(i); (k.clone(), v.start) }).collect();
    assert_eq!(got, vec![("a".to_string(), 2), ("ab".to_string(), 3), ("b".to_string(), 4)]);
    let ps = translate_features(&t, b"ATGATGATGATGATG").unwrap();
    assert_eq!(ps.len(), 3);
    assert_eq!(ps[0].peptide, "D");
    assert_eq!(ps[1].peptide, "M");
    assert_eq!(ps[2].peptide, "");
}

#[test]
fn text_helpers() {
    assert_eq!(parse_unsigned("+42", 255), Some(42));
    assert_eq!(parse_unsigned("256", 255), None);
    assert_eq!(parse_unsigned("", 255), None);
    assert_eq!(parse_unsigned("+", 255), None);
    assert_eq!(find_digit_pair("a12 x 3..45)"), Some(("3".to_string(), "45".to_string())));
    assert_eq!(split_tokens("  a bb\tc\n"), vec!["a", "bb", "c"]);
    assert_eq!(trim_text("  3 \n"), "3");
}
