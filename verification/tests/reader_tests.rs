use logban::reader::{split_into_lines, FileReader};

#[test]
fn tail_reader_never_redelivers() {
    // A file of length 5 at construction; 3 bytes appended later.
    let mut reader = FileReader::new(5);
    let contents: Vec<u8> = b"hello+++".to_vec();
    let appended = reader.read(&contents);
    assert_eq!(appended, b"+++".to_vec());
    assert_eq!(reader.pos, 8);
    // A second read of the same contents returns nothing new.
    let again = reader.read(&contents);
    assert!(again.is_empty());
    assert_eq!(reader.pos, 8);
}

#[test]
fn tail_reader_starts_at_initial_length() {
    let reader = FileReader::new(42);
    assert_eq!(reader.pos, 42);
}

#[test]
fn tail_reader_from_zero_reads_everything() {
    let mut reader = FileReader::new(0);
    let contents: Vec<u8> = b"abc".to_vec();
    let appended = reader.read(&contents);
    assert_eq!(appended, b"abc".to_vec());
    assert_eq!(reader.pos, 3);
}

#[test]
fn split_lines_cuts_at_line_feeds() {
    let lines = split_into_lines(&b"one\ntwo\nthree".to_vec());
    assert_eq!(lines, vec!["one", "two", "three"]);
}

#[test]
fn split_lines_drops_final_line_feed() {
    let lines = split_into_lines(&b"one\ntwo\n".to_vec());
    assert_eq!(lines, vec!["one", "two"]);
}

#[test]
fn split_lines_strips_carriage_returns() {
    let lines = split_into_lines(&b"one\r\ntwo\r".to_vec());
    assert_eq!(lines, vec!["one", "two"]);
}

#[test]
fn split_lines_of_nothing_is_nothing() {
    let lines = split_into_lines(&Vec::new());
    assert!(lines.is_empty());
}

#[test]
fn split_lines_keeps_empty_records_between_line_feeds() {
    let lines = split_into_lines(&b"a\n\nb".to_vec());
    assert_eq!(lines, vec!["a", "", "b"]);
}

#[test]
fn decoding_replaces_invalid_utf8() {
    // If decoding handed the bytes back unchanged this would be "\xFF".
    let lines = split_into_lines(&vec![0xFF, b'a']);
    assert_eq!(lines, vec!["\u{FFFD}a"]);
}

#[test]
fn read_lines_returns_only_appended_records() {
    let mut reader = FileReader::new(4);
    let contents: Vec<u8> = b"old\nnew one\nnew two\n".to_vec();
    let lines = reader.read_lines(&contents);
    assert_eq!(lines, vec!["new one", "new two"]);
    assert_eq!(reader.pos, contents.len() as u64);
}
