use clw::error::CsvError;
use clw::summary::{
    column_stats, column_values, count_values, freq, get_info, named_column_values,
    percentile_position, sort_by_count, sort_by_value, ColumnStats, Entry,
};
use clw::table::read_table;

fn strings(v: &[&str]) -> Vec<String> {
    v.iter().map(|s| s.to_string()).collect()
}

fn pairs(entries: &[Entry]) -> Vec<(String, usize)> {
    entries.iter().map(|e| (e.value.clone(), e.count)).collect()
}

fn numeric_flags(values: &[String]) -> Vec<bool> {
    values.iter().map(|v| v.trim().parse::<f64>().is_ok()).collect()
}

#[test]
fn info_counts_and_lists_inconsistent_rows() {
    let t = read_table("a,b,c\n1,2,3\n4,5\n6,7,8,9\n10,11,12\n".as_bytes(), true).unwrap();
    let info = get_info(&t);
    assert_eq!(info.rows, 4);
    assert_eq!(info.columns, 3);
    assert_eq!(info.inconsistent, vec![(3, 2), (4, 4)]);
}

#[test]
fn frequency_sorted_by_count() {
    let values = strings(&["A", "B", "A", "C", "A", "B"]);
    let sorted = sort_by_count(&count_values(&values));
    assert_eq!(
        pairs(&sorted),
        vec![("A".to_string(), 3), ("B".to_string(), 2), ("C".to_string(), 1)]
    );
}

#[test]
fn frequency_table_keeps_first_seen_order_and_empty_values() {
    let t = read_table("k,v\nb,1\n,2\na,3\nb,4\n,5\n".as_bytes(), false).unwrap();
    let entries = freq(&t, "k").unwrap();
    assert_eq!(
        pairs(&entries),
        vec![("b".to_string(), 2), ("".to_string(), 2), ("a".to_string(), 1)]
    );
}

#[test]
fn equal_counts_keep_first_seen_order() {
    let values = strings(&["x", "y", "z", "y", "x"]);
    let sorted = sort_by_count(&count_values(&values));
    assert_eq!(
        pairs(&sorted),
        vec![("x".to_string(), 2), ("y".to_string(), 2), ("z".to_string(), 1)]
    );
}

#[test]
fn sort_by_value_is_lexicographic() {
    let values = strings(&["pear", "Apple", "apple", "app", "10", "9"]);
    let sorted = sort_by_value(&count_values(&values));
    let order: Vec<String> = sorted.iter().map(|e| e.value.clone()).collect();
    assert_eq!(order, strings(&["10", "9", "Apple", "app", "apple", "pear"]));
}

#[test]
fn freq_missing_column_fails() {
    let t = read_table("k,v\n1,2\n".as_bytes(), false).unwrap();
    assert!(matches!(freq(&t, "x").unwrap_err(), CsvError::ColumnNotFound { .. }));
}

#[test]
fn numeric_column_is_classified_with_counts() {
    let t = read_table("v\n1\n2\n\nabc\n3.5\n".as_bytes(), false).unwrap();
    let values = column_values(&t, 0);
    let stats = column_stats(&values, &numeric_flags(&values));
    match stats {
        ColumnStats::Numeric { counts, numbers } => {
            assert_eq!(counts.total, 4);
            assert_eq!(counts.null_count, 0);
            assert_eq!(counts.numeric_count, 3);
            assert_eq!(counts.invalid_count, 1);
            assert_eq!(numbers, vec![0, 1, 3]);
        }
        other => panic!("unexpected {:?}", other),
    }
}

#[test]
fn blank_values_are_nulls() {
    let values = strings(&["1", "  ", "", "2"]);
    let stats = column_stats(&values, &numeric_flags(&values));
    match stats {
        ColumnStats::Numeric { counts, numbers } => {
            assert_eq!(counts.null_count, 2);
            assert_eq!(counts.numeric_count, 2);
            assert_eq!(numbers, vec![0, 3]);
        }
        other => panic!("unexpected {:?}", other),
    }
}

#[test]
fn half_numeric_is_categorical() {
    let values = strings(&["1", "x", "2", "y", "x"]);
    let flags = numeric_flags(&values);
    let stats = column_stats(&values[..4].to_vec(), &flags[..4].to_vec());
    assert!(matches!(stats, ColumnStats::Categorical { .. }));
    let stats = column_stats(&values, &flags);
    match stats {
        ColumnStats::Categorical { counts, unique, top } => {
            assert_eq!(counts.total, 5);
            assert_eq!(counts.numeric_count, 2);
            assert_eq!(counts.invalid_count, 3);
            assert_eq!(unique, 4);
            assert_eq!(
                pairs(&top),
                vec![("x".to_string(), 2), ("1".to_string(), 1), ("2".to_string(), 1)]
            );
        }
        other => panic!("unexpected {:?}", other),
    }
}

#[test]
fn all_blank_column_is_categorical_with_nothing_to_rank() {
    let values = strings(&["", " "]);
    match column_stats(&values, &numeric_flags(&values)) {
        ColumnStats::Categorical { counts, unique, top } => {
            assert_eq!(counts.null_count, 2);
            assert_eq!(unique, 0);
            assert!(top.is_empty());
        }
        other => panic!("unexpected {:?}", other),
    }
}

#[test]
fn median_of_one_to_ten_interpolates() {
    let (lower, upper, fraction) = percentile_position(50, 10).unwrap();
    assert_eq!((lower, upper, fraction), (4, 5, 50));
    let sorted: Vec<f64> = (1..=10).map(|x| x as f64).collect();
    let value = sorted[lower] + (fraction as f64 / 100.0) * (sorted[upper] - sorted[lower]);
    assert_eq!(value, 5.5);
}

#[test]
fn percentile_positions_at_the_ends() {
    assert_eq!(percentile_position(0, 5), Some((0, 0, 0)));
    assert_eq!(percentile_position(100, 5), Some((4, 4, 0)));
    assert_eq!(percentile_position(99, 5), Some((3, 4, 96)));
    assert_eq!(percentile_position(25, 4), Some((0, 1, 75)));
}

#[test]
fn percentiles_of_a_single_value_sit_on_it() {
    for p in [1u64, 25, 50, 75, 99] {
        assert_eq!(percentile_position(p, 1), Some((0, 0, 0)));
    }
}

#[test]
fn percentile_of_no_values_is_absent() {
    assert_eq!(percentile_position(50, 0), None);
}

#[test]
fn freq_lists_values_by_count() {
    let t = read_table("k\nA\nB\nA\nC\nA\nB\n".as_bytes(), false).unwrap();
    let entries = freq(&t, "k").unwrap();
    assert_eq!(
        pairs(&entries),
        vec![("A".to_string(), 3), ("B".to_string(), 2), ("C".to_string(), 1)]
    );
}

#[test]
fn sort_by_value_keeps_ties_in_order() {
    let v = vec![
        Entry { value: "b".to_string(), count: 1 },
        Entry { value: "a".to_string(), count: 2 },
        Entry { value: "b".to_string(), count: 3 },
        Entry { value: "a".to_string(), count: 4 },
    ];
    let sorted = sort_by_value(&v);
    assert_eq!(
        pairs(&sorted),
        vec![
            ("a".to_string(), 2),
            ("a".to_string(), 4),
            ("b".to_string(), 1),
            ("b".to_string(), 3)
        ]
    );
}

#[test]
fn stats_column_by_name() {
    let t = read_table("name,age\nA,1\nB,2\n".as_bytes(), false).unwrap();
    assert_eq!(named_column_values(&t, "age").unwrap(), strings(&["1", "2"]));
    let err = named_column_values(&t, "invalid_column").unwrap_err();
    assert_eq!(
        err.message(),
        "Column 'invalid_column' not found in CSV.\nAvailable columns: name, age"
    );
}
