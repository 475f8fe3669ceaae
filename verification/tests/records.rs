use bpe_tokenizer::records::{is_sequence_record, sequence_records};

fn strings(items: &[&str]) -> Vec<String> {
    items.iter().map(|s| s.to_string()).collect()
}

#[test]
fn headers_and_empty_lines_are_no_records() {
    assert!(!is_sequence_record(">sp|P12345"));
    assert!(!is_sequence_record(">"));
    assert!(!is_sequence_record(""));
}

#[test]
fn other_lines_are_records() {
    assert!(is_sequence_record("MKV"));
    assert!(is_sequence_record("A>B"));
    assert!(is_sequence_record(" "));
    assert!(is_sequence_record("é>"));
}

#[test]
fn sequence_records_keeps_the_order() {
    let lines = strings(&[">one", "MKV", "", "LLA", ">two", "CIRA"]);
    assert_eq!(sequence_records(&lines, 10), strings(&["MKV", "LLA", "CIRA"]));
    assert_eq!(sequence_records(&lines, 3), strings(&["MKV", "LLA", "CIRA"]));
}

#[test]
fn sequence_records_stops_at_the_limit() {
    let lines = strings(&[">one", "MKV", "", "LLA", ">two", "CIRA"]);
    assert_eq!(sequence_records(&lines, 2), strings(&["MKV", "LLA"]));
    assert_eq!(sequence_records(&lines, 1), strings(&["MKV"]));
    assert_eq!(sequence_records(&lines, 0), strings(&[]));
}

#[test]
fn sequence_records_of_nothing_is_empty() {
    assert_eq!(sequence_records(&strings(&[]), 5), strings(&[]));
    assert_eq!(sequence_records(&strings(&[">a", "", ">b"]), 5), strings(&[]));
}
