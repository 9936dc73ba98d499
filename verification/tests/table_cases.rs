use simple_query_engine::index::{entry_less, sort_entries, TableIndices, ValueInRow};
use simple_query_engine::table::{Column, ColumnNotFound, ColumnType, LoadError, Row, Table};
use simple_query_engine::value::{NumberError, Value};

fn strings(fields: &[&str]) -> Vec<String> {
    fields.iter().map(|field| field.to_string()).collect()
}

fn table_of(headers: &[&str], records: &[&[&str]]) -> Result<Table, LoadError> {
    let records: Vec<Vec<String>> = records.iter().map(|record| strings(record)).collect();
    Table::load_from(&strings(headers), &records)
}

#[test]
fn record_with_too_few_fields_fails() {
    let error = table_of(&["a", "b"], &[&["1", "2"], &["3"]]).unwrap_err();
    assert_eq!(error, LoadError::FieldCount { record: 1, expected: 2, found: 1 });
    assert_eq!(error.message(), "record 1 has 1 fields, but the header has 2");
}

#[test]
fn record_with_too_many_fields_fails() {
    let error = table_of(&["a", "b"], &[&["1", "2", "3"]]).unwrap_err();
    assert_eq!(error, LoadError::FieldCount { record: 0, expected: 2, found: 3 });
}

#[test]
fn number_out_of_range_fails() {
    let error = table_of(&["a", "b"], &[&["1", "2"], &["x", "99999999999999999999"]]).unwrap_err();
    assert_eq!(
        error,
        LoadError::InvalidField { record: 1, field: 1, error: NumberError::OutOfRange }
    );
    assert_eq!(error.message(), "record 1, field 1: number too large to fit in target type");
}

#[test]
fn number_with_leading_zero_fails() {
    let error = table_of(&["a"], &[&["007"]]).unwrap_err();
    assert_eq!(
        error,
        LoadError::InvalidField { record: 0, field: 0, error: NumberError::LeadingZero }
    );
}

#[test]
fn first_faulty_record_is_reported() {
    let error = table_of(
        &["a", "b"],
        &[&["1", "2"], &["00", "99999999999999999999"], &["3"]],
    )
    .unwrap_err();
    assert_eq!(
        error,
        LoadError::InvalidField { record: 1, field: 0, error: NumberError::LeadingZero }
    );
    let error = table_of(&["a", "b"], &[&["1"], &["00", "2"]]).unwrap_err();
    assert_eq!(error, LoadError::FieldCount { record: 0, expected: 2, found: 1 });
}

#[test]
fn field_count_is_checked_before_the_fields() {
    let error = table_of(&["a", "b"], &[&["00", "2", "3"]]).unwrap_err();
    assert_eq!(error, LoadError::FieldCount { record: 0, expected: 2, found: 3 });
}

#[test]
fn table_without_rows_has_integer_columns() {
    let table = table_of(&["a", "b"], &[]).unwrap();
    assert_eq!(table.row_count(), 0);
    assert_eq!(table.column_count(), 2);
    assert_eq!(table.columns(), &vec![
        Column { name: "a".to_string(), column_type: ColumnType::Integer },
        Column { name: "b".to_string(), column_type: ColumnType::Integer }
    ]);
    assert_eq!(table.rows(), &Vec::<Row>::new());
}

#[test]
fn column_is_integer_only_if_every_field_is() {
    let table = table_of(&["a", "b", "c"], &[&["1", "x", "3"], &["2", "", "y"], &["0", "z", "5"]])
        .unwrap();
    let types: Vec<ColumnType> = table.columns().iter().map(|column| column.column_type).collect();
    assert_eq!(types, vec![ColumnType::Integer, ColumnType::Text, ColumnType::Text]);
    assert_eq!(table.field(1, 1), &Value::Text(String::new()));
    assert_eq!(table.field(2, 0), &Value::Integer(0));
    assert_eq!(table.column_names(), strings(&["a", "b", "c"]));
}

#[test]
fn column_positions_are_found_by_name() {
    let table = table_of(&["a", "b", "a"], &[&["1", "2", "3"]]).unwrap();
    assert_eq!(table.find_column_position(&"a".to_string()), Ok(0));
    assert_eq!(table.find_column_position(&"b".to_string()), Ok(1));
    let error = table.find_column_position(&"c".to_string()).unwrap_err();
    assert_eq!(error, ColumnNotFound { name: "c".to_string(), available_columns: strings(&["a", "b", "a"]) });
    assert_eq!(
        error.message(),
        "Cannot find column c, it does not exist in the table, existing columns a, b, a"
    );
}

#[test]
fn missing_column_of_a_table_without_columns() {
    let table = table_of(&[], &[]).unwrap();
    let error = table.find_column_position(&"c".to_string()).unwrap_err();
    assert_eq!(
        error.message(),
        "Cannot find column c, it does not exist in the table, existing columns "
    );
}

#[test]
fn index_keeps_row_order_among_equal_values() {
    let table = table_of(
        &["k", "v"],
        &[&["b", "2"], &["a", "2"], &["b", "1"], &["a", "1"], &["b", "2"], &["9", "x"]],
    )
    .unwrap();
    let indices = TableIndices::build_for(&table);
    let rows_of = |name: &str| -> Vec<usize> {
        indices
            .get(&name.to_string())
            .unwrap()
            .entries()
            .iter()
            .map(|entry| entry.row_index)
            .collect()
    };
    assert_eq!(rows_of("k"), vec![5, 1, 3, 0, 2, 4]);
    assert_eq!(rows_of("v"), vec![2, 3, 0, 1, 4, 5]);
    assert_eq!(indices.at(0).column_name(), "k");
    assert_eq!(indices.at(1).column_name(), "v");
}

#[test]
fn index_of_a_table_without_rows_is_empty() {
    let table = table_of(&["a"], &[]).unwrap();
    let indices = TableIndices::build_for(&table);
    assert_eq!(indices.len(), 1);
    assert!(indices.at(0).entries().is_empty());
}

#[test]
fn entries_sort_by_value_then_row() {
    let values: Vec<Value> = [5u64, 3, 9, 3, 1, 9, 3, 0, 7, 5, 2]
        .iter()
        .map(|n| Value::Integer(*n))
        .collect();
    let entries: Vec<ValueInRow> = values
        .iter()
        .enumerate()
        .map(|(row_index, value)| ValueInRow { value, row_index })
        .collect();
    let sorted = sort_entries(entries.clone());
    let mut expected = entries.clone();
    expected.sort_by(|x, y| x.value.cmp(y.value));
    assert_eq!(sorted, expected);
    let rows: Vec<usize> = sorted.iter().map(|entry| entry.row_index).collect();
    assert_eq!(rows, vec![7, 4, 10, 1, 3, 6, 0, 9, 8, 2, 5]);
    assert!(entry_less(&sorted[3], &sorted[4]));
    assert!(!entry_less(&sorted[4], &sorted[3]));
    assert!(!entry_less(&sorted[4], &sorted[4]));
}
