use clw::preview::{peek, show_header};
use clw::sample::{reservoir_sample, sample_rows};
use clw::table::read_table;
use clw::text::{blank, chars_of, split_list};

const DATA: &str = "name,age\nA,1\nB,2\nC,3\nD,4\nE,5\nF,6\nG,7\nH,8\n";

#[test]
fn sample_returns_exactly_k_records() {
    let t = read_table(DATA.as_bytes(), false).unwrap();
    let s = sample_rows(&t, 3, 42, true);
    assert_eq!(s.records.len(), 4);
    assert_eq!(s.records[0], vec!["name".to_string(), "age".to_string()]);
    assert_eq!(s.seen, 8);
    assert!(!s.shortfall);
}

#[test]
fn sample_larger_than_input_returns_all_with_shortfall() {
    let t = read_table(DATA.as_bytes(), false).unwrap();
    let s = sample_rows(&t, 20, 67, false);
    assert_eq!(s.records, t.rows);
    assert!(s.shortfall);
}

#[test]
fn sample_of_zero_records_is_empty() {
    let t = read_table(DATA.as_bytes(), false).unwrap();
    let s = sample_rows(&t, 0, 67, false);
    assert!(s.records.is_empty());
    assert!(!s.shortfall);
}

#[test]
fn sampling_is_reproducible_for_a_seed() {
    let t = read_table(DATA.as_bytes(), false).unwrap();
    let first = sample_rows(&t, 2, 42, true);
    let second = sample_rows(&t, 2, 42, true);
    assert_eq!(first.records, second.records);
    assert_eq!(reservoir_sample(1000, 5, 7), reservoir_sample(1000, 5, 7));
}

#[test]
fn reservoir_slots_hold_distinct_seen_positions() {
    let slots = reservoir_sample(1000, 10, 3);
    assert_eq!(slots.len(), 10);
    let mut sorted = slots.clone();
    sorted.sort();
    sorted.dedup();
    assert_eq!(sorted.len(), 10);
    assert!(slots.iter().all(|&p| p < 1000));
    // later records do get drawn in
    assert!(slots.iter().any(|&p| p >= 10));
}

#[test]
fn peek_takes_first_rows_and_measures_widths() {
    let t = read_table("id,description\n1,short\n22,a much longer text\n3,x\n".as_bytes(), false)
        .unwrap();
    let p = peek(&t, Some(2));
    assert_eq!(p.rows.len(), 2);
    assert_eq!(p.widths, vec![2, 18]);
    let all = peek(&t, None);
    assert_eq!(all.rows.len(), 3);
    assert_eq!(show_header(&t), vec!["id".to_string(), "description".to_string()]);
}

#[test]
fn peek_zero_rows_keeps_header_widths() {
    let t = read_table("name,age\nAlexander,30\n".as_bytes(), false).unwrap();
    let p = peek(&t, Some(0));
    assert!(p.rows.is_empty());
    assert_eq!(p.widths, vec![4, 3]);
}

#[test]
fn list_entries_are_split_and_trimmed() {
    assert_eq!(
        split_list(" a, b ,,c "),
        vec!["a".to_string(), "b".to_string(), "".to_string(), "c".to_string()]
    );
    assert_eq!(split_list(""), vec!["".to_string()]);
}

#[test]
fn blank_and_chars() {
    assert!(blank(" \t\n"));
    assert!(!blank(" x "));
    assert_eq!(chars_of("héllo"), vec!['h', 'é', 'l', 'l', 'o']);
}

#[test]
fn sample_of_header_only_input_reports_shortfall() {
    let t = read_table("name,age\n".as_bytes(), false).unwrap();
    let s = sample_rows(&t, 2, 67, false);
    assert!(s.records.is_empty());
    assert_eq!(s.seen, 0);
    assert!(s.shortfall);
}
