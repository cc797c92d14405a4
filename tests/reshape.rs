use clw::delimiter::Delimiter;
use clw::error::CsvError;
use clw::reshape::{duplicate_columns, filter_rows, paste, select_cols, stack, transpose};
use clw::table::{read_table, resolve_column, Table};

fn strict(text: &str) -> Table {
    read_table(text.as_bytes(), false).unwrap()
}

fn flexible(text: &str) -> Table {
    read_table(text.as_bytes(), true).unwrap()
}

fn rows(v: &[&[&str]]) -> Vec<Vec<String>> {
    v.iter().map(|r| r.iter().map(|s| s.to_string()).collect()).collect()
}

fn names(v: &[&str]) -> Vec<String> {
    v.iter().map(|s| s.to_string()).collect()
}

#[test]
fn read_table_splits_header_and_records() {
    let t = strict("name,age,city\nAlice,30,NYC\nBob,25,LA\n");
    assert_eq!(t.delimiter, Delimiter::Comma);
    assert_eq!(t.header, names(&["name", "age", "city"]));
    assert_eq!(t.rows, rows(&[&["Alice", "30", "NYC"], &["Bob", "25", "LA"]]));
}

#[test]
fn read_table_handles_quotes_and_pipes() {
    let t = strict("id|note\n1|\"a|b\"\n");
    assert_eq!(t.delimiter, Delimiter::Pipe);
    assert_eq!(t.rows, rows(&[&["1", "a|b"]]));
}

#[test]
fn strict_reading_rejects_uneven_records() {
    let err = read_table("a,b\n1,2,3\n".as_bytes(), false).unwrap_err();
    assert!(matches!(err, CsvError::Parse { .. }));
    assert!(!err.message().is_empty());
}

#[test]
fn flexible_reading_keeps_uneven_records() {
    let t = flexible("a,b\n1,2,3\n4\n");
    assert_eq!(t.rows, rows(&[&["1", "2", "3"], &["4"]]));
}

#[test]
fn resolve_column_is_exact_and_lists_columns() {
    let t = strict("name,age,Name\nx,1,y\n");
    assert_eq!(resolve_column(&t.header, "Name").unwrap(), 2);
    let err = resolve_column(&t.header, "nam").unwrap_err();
    match &err {
        CsvError::ColumnNotFound { requested, available } => {
            assert_eq!(requested, "nam");
            assert_eq!(available, &names(&["name", "age", "Name"]));
        }
        other => panic!("unexpected {:?}", other),
    }
    assert_eq!(
        err.message(),
        "Column 'nam' not found in CSV.\nAvailable columns: name, age, Name"
    );
}

#[test]
fn stack_keeps_one_header_and_source_order() {
    let a = strict("name,age\nAlice,30\n");
    let b = strict("name,age\nBob,25\n");
    let out = stack(&a, &b).unwrap();
    assert_eq!(out, rows(&[&["name", "age"], &["Alice", "30"], &["Bob", "25"]]));
}

#[test]
fn stack_rejects_different_delimiters() {
    let a = strict("a,b\n1,2\n");
    let b = strict("a|b\n1|2\n");
    let err = stack(&a, &b).unwrap_err();
    assert!(matches!(
        err,
        CsvError::DelimiterMismatch { first_delimiter: ',', second_delimiter: '|' }
    ));
    assert_eq!(err.message(), "Files have different delimiters: ',' vs '|'");
}

#[test]
fn stack_rejects_different_column_counts() {
    let a = strict("a,b\n1,2\n");
    let b = strict("a,b,c\n1,2,3\n");
    let err = stack(&a, &b).unwrap_err();
    assert!(matches!(err, CsvError::ColumnCountMismatch { first_count: 2, second_count: 3 }));
    assert_eq!(err.message(), "Files have different number of columns: 2 vs 3");
}

#[test]
fn stack_names_first_differing_header() {
    let a = strict("name,age\nA,1\n");
    let b = strict("name,Age\nB,2\n");
    let err = stack(&a, &b).unwrap_err();
    match &err {
        CsvError::HeaderMismatch { position, first_name, second_name } => {
            assert_eq!(*position, 1);
            assert_eq!(first_name, "age");
            assert_eq!(second_name, "Age");
        }
        other => panic!("unexpected {:?}", other),
    }
    assert_eq!(err.message(), "Headers don't match at position 1: 'age' vs 'Age'");
}

#[test]
fn stack_header_only_files() {
    let a = strict("a,b\n");
    let b = strict("a,b\n");
    assert_eq!(stack(&a, &b).unwrap(), rows(&[&["a", "b"]]));
}

#[test]
fn paste_joins_side_by_side() {
    let a = strict("name,age\nAlice,30\nBob,25\n");
    let b = strict("city,name\nNYC,x\nLA,y\n");
    let out = paste(&a, &b).unwrap();
    assert_eq!(
        out,
        rows(&[
            &["name", "age", "city", "name"],
            &["Alice", "30", "NYC", "x"],
            &["Bob", "25", "LA", "y"],
        ])
    );
}

#[test]
fn paste_with_more_rows_in_first_file_fails() {
    let a = strict("a\n1\n2\n3\n");
    let b = strict("b\n1\n2\n");
    let err = paste(&a, &b).unwrap_err();
    assert!(matches!(err, CsvError::RowCountMismatch { longer: 1, row: 3 }));
    assert_eq!(err.message(), "File 1 has more rows than File 2 (at row 3)");
}

#[test]
fn paste_with_more_rows_in_second_file_fails() {
    let a = strict("a\n1\n");
    let b = strict("b\n1\n2\n3\n");
    let err = paste(&a, &b).unwrap_err();
    assert!(matches!(err, CsvError::RowCountMismatch { longer: 2, row: 2 }));
    assert_eq!(err.message(), "File 2 has more rows than File 1 (at row 2)");
}

#[test]
fn paste_rejects_different_delimiters() {
    let a = strict("a\tb\n1\t2\n");
    let b = strict("c,d\n3,4\n");
    let err = paste(&a, &b).unwrap_err();
    assert!(matches!(
        err,
        CsvError::DelimiterMismatch { first_delimiter: '\t', second_delimiter: ',' }
    ));
    assert_eq!(err.message(), "Files have different delimiters: '\t' vs ','");
}

#[test]
fn transpose_jagged_grid() {
    let t = flexible("a,b,c\n1,2\n3,4,5,6\n");
    let out = transpose(&t);
    assert_eq!(out.len(), 4);
    assert_eq!(out[0], names(&["a", "1", "3"]));
    assert_eq!(out[1], names(&["b", "2", "4"]));
    assert_eq!(out[2], names(&["c", "", "5"]));
    assert_eq!(out[3], names(&["", "", "6"]));
}

#[test]
fn transpose_single_row() {
    let t = flexible("x,y\n");
    assert_eq!(transpose(&t), rows(&[&["x"], &["y"]]));
}

#[test]
fn select_reorders_and_trims_names() {
    let t = strict("name,age,city\nAlice,30,NYC\nBob,25,LA\n");
    let out = select_cols(&t, " city , name", false).unwrap().unwrap();
    assert_eq!(out, rows(&[&["city", "name"], &["NYC", "Alice"], &["LA", "Bob"]]));
}

#[test]
fn select_with_duplicates_needs_consent() {
    let t = strict("name,age\nAlice,30\n");
    assert!(select_cols(&t, "name,name", false).unwrap().is_none());
    let out = select_cols(&t, "name,name", true).unwrap().unwrap();
    assert_eq!(out, rows(&[&["name", "name"], &["Alice", "Alice"]]));
}

#[test]
fn select_reports_first_missing_column() {
    let t = strict("name,age\nAlice,30\n");
    let err = select_cols(&t, "age,zip,foo", false).unwrap_err();
    assert_eq!(
        err.message(),
        "Column 'zip' not found in CSV. Available columns: name, age"
    );
    match err {
        CsvError::SelectionNotFound { requested, available } => {
            assert_eq!(requested, "zip");
            assert_eq!(available, names(&["name", "age"]));
        }
        other => panic!("unexpected {:?}", other),
    }
}

#[test]
fn duplicates_are_listed_once_in_order_of_repetition() {
    let d = duplicate_columns(&names(&["a", "b", "b", "a", "b", "c"]));
    assert_eq!(d, names(&["b", "a"]));
    assert!(duplicate_columns(&names(&["a", "b"])).is_empty());
}

#[test]
fn filter_single_value_without_header() {
    let t = strict("name,city\nAlice,NYC\nBob,LA\nCharlie,Chicago\n");
    let f = filter_rows(&t, "city", "Chicago", false).unwrap();
    assert_eq!(f.records, rows(&[&["Charlie", "Chicago"]]));
    assert_eq!(f.matched, 1);
}

#[test]
fn filter_several_trimmed_values_with_header() {
    let t = strict("name,city\nAlice,NYC\nBob,LA\nCharlie,Chicago\n");
    let f = filter_rows(&t, "city", "NYC , Chicago", true).unwrap();
    assert_eq!(
        f.records,
        rows(&[&["name", "city"], &["Alice", "NYC"], &["Charlie", "Chicago"]])
    );
    assert_eq!(f.matched, 2);
    assert_eq!(f.values, names(&["NYC", "Chicago"]));
}

#[test]
fn filter_is_case_sensitive_and_may_match_nothing() {
    let t = strict("name,city\nAlice,NYC\n");
    let f = filter_rows(&t, "city", "nyc", true).unwrap();
    assert_eq!(f.records, rows(&[&["name", "city"]]));
    assert_eq!(f.matched, 0);
}

#[test]
fn filter_missing_column_fails() {
    let t = strict("name,city\nAlice,NYC\n");
    assert!(matches!(
        filter_rows(&t, "town", "NYC", false).unwrap_err(),
        CsvError::ColumnNotFound { .. }
    ));
}

#[test]
fn messages_render_large_numbers_in_decimal() {
    let e = CsvError::ColumnCountMismatch { first_count: 1020, second_count: 7 };
    assert_eq!(e.message(), "Files have different number of columns: 1020 vs 7");
    let e = CsvError::HeaderMismatch {
        position: 10,
        first_name: "a".to_string(),
        second_name: "b".to_string(),
    };
    assert_eq!(e.message(), "Headers don't match at position 10: 'a' vs 'b'");
    let e = CsvError::ColumnNotFound { requested: "x".to_string(), available: vec![] };
    assert_eq!(e.message(), "Column 'x' not found in CSV.\nAvailable columns: ");
    assert_eq!(clw::error::decimal_text(0), "0");
    assert_eq!(clw::error::decimal_text(907), "907");
}
