use gbk2faa::embl::{parse_id_line, parse_sq_line, piece_of, GbkRead, Reader, Record};
use gbk2faa::gbk::ParseError;

fn lines(v: &[&str]) -> Vec<String> {
    v.iter().map(|s| format!("{}\n", s)).collect()
}

#[test]
fn embl_record_is_read() {
    let input = lines(&[
        "ID   X56734; SV 1; linear; mRNA; STD; PLN; 30 BP.",
        "XX",
        "SQ   Sequence 30 BP; 6 A; 6 C; 6 G; 12 T; 0 other;",
        "     aaacaaacca atatggattt         20",
        "     tatgttgtaa                    30",
        "//",
    ]);
    let mut records = Reader::from_bufread(input).records();
    let r = records.next().unwrap().unwrap();
    assert_eq!(r.id(), "X56734");
    assert_eq!(r.length(), 30);
    assert_eq!(r.sequence(), "aaacaaaccaatatggattttatgttgtaa");
    assert_eq!(r.check(), Ok(()));
    assert!(records.next().is_none());
}

#[test]
fn embl_bad_header_and_early_end() {
    let mut reader = Reader::from_bufread(lines(&["ID   X56734; SV 1"]));
    let mut record = Record::new();
    assert_eq!(reader.read(&mut record), Err(ParseError::Locus));
    let mut reader = Reader::from_bufread(lines(&["ID   A; B; C; D; E; F; 4 BP.", "SQ", "  acgt 4"]));
    let mut record = Record::new();
    assert_eq!(reader.read(&mut record), Ok(()));
    assert!(record.is_empty());
    record.rec_clear();
    assert_eq!(record.check(), Err("Expecting id for Gbk record."));
}

#[test]
fn embl_line_helpers() {
    assert_eq!(piece_of("a;b;c", ';', 2), Some("c".to_string()));
    assert_eq!(piece_of("a;b;c", ';', 3), None);
    assert_eq!(parse_id_line("ID   Q; 1; 2; 3; 4; 5; 77 BP."), Some(("Q".to_string(), 77)));
    assert_eq!(parse_sq_line("     acgt gg   6"), "acgtgg");
}
