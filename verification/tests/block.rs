use sds_core::data_block::{DataBlock, DataBlockCreationError, DataBlockRecord, DataBlockValue};

fn row(values: &[&str]) -> DataBlockRecord {
    DataBlockRecord { values: values.iter().map(|v| v.to_string()).collect() }
}

/// The dataset the indexing tests read: four columns, three rows, with
/// an empty C cell in the last two rows.
fn read_test_data_block() -> DataBlock {
    DataBlock::new(
        vec!["A".to_string(), "B".to_string(), "C".to_string(), "D".to_string()],
        vec![
            row(&["a1", "b1", "c1", "d1"]),
            row(&["a2", "b2", "", "d2"]),
            row(&["a1", "b2", "", "d3"]),
        ],
    )
    .unwrap()
}

fn value_from_str(s: &str) -> DataBlockValue {
    let (col, text) = s.split_once(':').unwrap();
    DataBlockValue::new(col.parse::<usize>().unwrap(), text.to_string())
}

fn assert_attr_map_equals(actual: &[(DataBlockValue, Vec<usize>)], expected: &[(&str, Vec<usize>)]) {
    assert_eq!(actual.len(), expected.len());
    for (key, rows) in expected {
        let want = value_from_str(key);
        let found = actual
            .iter()
            .find(|(v, _)| v.column_index == want.column_index && v.value == want.value)
            .unwrap_or_else(|| panic!("missing attribute {}", key));
        assert_eq!(&found.1, rows, "rows for attribute {}", key);
    }
}

fn assert_by_column_equals(
    actual: &[(usize, Vec<(DataBlockValue, Vec<usize>)>)],
    expected: &[(usize, Vec<(&str, Vec<usize>)>)],
) {
    assert_eq!(actual.len(), expected.len());
    for (col, entries) in expected {
        let found = actual.iter().find(|(c, _)| c == col).unwrap();
        assert_attr_map_equals(&found.1, entries);
    }
}

#[test]
fn validate_calc_column_index_by_name() {
    let db = read_test_data_block();
    let m = db.calc_column_index_by_name();
    assert_eq!(m.len(), 4);
    for (name, index) in [("A", 0usize), ("B", 1), ("C", 2), ("D", 3)] {
        let found = m.iter().find(|(n, _)| n == name).unwrap();
        assert_eq!(found.1, index);
    }
}

#[test]
fn validate_calc_attr_rows() {
    let db = read_test_data_block();
    assert_attr_map_equals(
        &db.calc_attr_rows(),
        &[
            ("0:a1", vec![0, 2]),
            ("1:b1", vec![0]),
            ("2:c1", vec![0]),
            ("3:d1", vec![0]),
            ("0:a2", vec![1]),
            ("1:b2", vec![1, 2]),
            ("3:d2", vec![1]),
            ("3:d3", vec![2]),
        ],
    );
}

#[test]
fn validate_calc_attr_rows_by_column_with_no_empty_values() {
    let db = read_test_data_block();
    assert_by_column_equals(
        &db.calc_attr_rows_by_column_with_no_empty_values(),
        &[
            (0, vec![("0:a1", vec![0, 2]), ("0:a2", vec![1])]),
            (1, vec![("1:b1", vec![0]), ("1:b2", vec![1, 2])]),
            (2, vec![("2:c1", vec![0])]),
            (3, vec![("3:d1", vec![0]), ("3:d2", vec![1]), ("3:d3", vec![2])]),
        ],
    );
}

#[test]
fn validate_calc_attr_rows_by_column_with_empty_values() {
    let db = read_test_data_block();
    assert_by_column_equals(
        &db.calc_attr_rows_by_column_with_empty_values(&"".to_string()),
        &[
            (0, vec![("0:a1", vec![0, 2]), ("0:a2", vec![1]), ("0:", vec![])]),
            (1, vec![("1:b1", vec![0]), ("1:b2", vec![1, 2]), ("1:", vec![])]),
            (2, vec![("2:c1", vec![0]), ("2:", vec![1, 2])]),
            (
                3,
                vec![("3:d1", vec![0]), ("3:d2", vec![1]), ("3:d3", vec![2]), ("3:", vec![])],
            ),
        ],
    );
}

#[test]
fn validate_number_of_records() {
    let db = read_test_data_block();
    assert_eq!(db.number_of_records(), 3);
}

#[test]
fn validate_protected_number_of_records() {
    let db = read_test_data_block();
    assert_eq!(db.protected_number_of_records(2), 2);
}

#[test]
fn validate_normalize_reporting_length() {
    let db = read_test_data_block();
    assert_eq!(db.normalize_reporting_length(0), 4);
    assert_eq!(db.normalize_reporting_length(10), 4);
    assert_eq!(db.normalize_reporting_length(2), 2);
}

#[test]
fn with_empty_values_has_one_extra_entry_per_column() {
    let db = read_test_data_block();
    let without = db.calc_attr_rows_by_column_with_no_empty_values();
    let with = db.calc_attr_rows_by_column_with_empty_values(&"".to_string());
    assert_eq!(without.len(), with.len());
    for (c, entries) in &with {
        let plain = without.iter().find(|(c2, _)| c2 == c).unwrap();
        assert_eq!(entries.len(), plain.1.len() + 1);
        let empty_entries: Vec<_> = entries.iter().filter(|(v, _)| v.value.is_empty()).collect();
        assert_eq!(empty_entries.len(), 1);
    }
}

#[test]
fn non_rectangular_rows_are_rejected() {
    let r = DataBlock::new(
        vec!["A".to_string(), "B".to_string()],
        vec![row(&["a", "b"]), row(&["a"])],
    );
    assert_eq!(r.unwrap_err(), DataBlockCreationError::NonRectangularRecord);
}

#[test]
fn duplicate_column_names_are_rejected() {
    let r = DataBlock::new(vec!["A".to_string(), "A".to_string()], vec![row(&["a", "b"])]);
    assert_eq!(r.unwrap_err(), DataBlockCreationError::DuplicateColumnName);
}
