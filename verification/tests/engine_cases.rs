use simple_query_engine::query::{Filter, FilterType, Query};
use simple_query_engine::query_engine::{
    apply_filter, execute, filter_by_scanning, filter_using_index, filter_using_index_equal_to,
    filter_using_index_greater_than, project_rows, ResultSet, ResultSetRow,
};
use simple_query_engine::table::Table;
use simple_query_engine::value::Value;

fn strings(fields: &[&str]) -> Vec<String> {
    fields.iter().map(|field| field.to_string()).collect()
}

fn table_of(headers: &[&str], records: &[&[&str]]) -> Table {
    let records: Vec<Vec<String>> = records.iter().map(|record| strings(record)).collect();
    Table::load_from(&strings(headers), &records).unwrap()
}

fn test_table() -> Table {
    table_of(
        &["column1", "column2", "column3"],
        &[
            &["bbb", "3", "b"],
            &["aaa", "1", "10"],
            &["ccc", "2", "11"],
            &["eee", "2", "9"],
            &["ddd", "1", "5"],
        ],
    )
}

fn first_fields(result: &ResultSet) -> Vec<String> {
    result.rows.iter().map(|row| row.fields[0].display()).collect()
}

fn run(table: &Table, query: &str) -> Vec<String> {
    let indexed = table.build_indices();
    first_fields(&execute(&Query::parse(query).unwrap(), &indexed).unwrap())
}

#[test]
fn equal_filter_meets_the_first_entry_of_the_index() {
    let table = test_table();
    assert_eq!(run(&table, "PROJECT column1 FILTER column2 = 1"), vec!["ddd", "aaa"]);
    assert_eq!(run(&table, "PROJECT column1 FILTER column1 = aaa"), vec!["aaa"]);
    assert_eq!(run(&table, "PROJECT column1 FILTER column1 = eee"), vec!["eee"]);
}

#[test]
fn equal_filter_expands_around_the_entry_that_bisection_meets() {
    let table = table_of(
        &["k", "v"],
        &[&["a", "3"], &["b", "3"], &["c", "3"], &["d", "3"], &["e", "3"], &["f", "3"], &["g", "3"]],
    );
    assert_eq!(run(&table, "PROJECT k FILTER v = 3"), vec!["d", "c", "b", "a", "e", "f", "g"]);
}

#[test]
fn greater_filter_returns_rows_in_index_order() {
    let table = table_of(
        &["column1", "column2"],
        &[&["a", "1"], &["b", "2"], &["c", "3"], &["d", "3"], &["e", "3"], &["f", "4"]],
    );
    assert_eq!(run(&table, "PROJECT column1 FILTER column2 > 1"), vec!["b", "c", "d", "e", "f"]);
    assert_eq!(run(&table, "PROJECT column1 FILTER column2 > 0"), vec![
        "a", "b", "c", "d", "e", "f"
    ]);
    assert_eq!(run(&table, "PROJECT column1 FILTER column2 > 4"), Vec::<String>::new());
    let table = table_of(&["k", "v"], &[&["a", "2"], &["b", "1"], &["c", "2"], &["d", "1"]]);
    assert_eq!(run(&table, "PROJECT k FILTER v > 0"), vec!["b", "d", "a", "c"]);
}

#[test]
fn numbers_come_before_texts_in_a_mixed_column() {
    let table = test_table();
    assert_eq!(run(&table, "PROJECT column1 FILTER column3 > 9"), vec!["aaa", "ccc", "bbb"]);
    assert_eq!(run(&table, "PROJECT column1 FILTER column3 > 11"), vec!["bbb"]);
    assert_eq!(run(&table, "PROJECT column1 FILTER column3 > a"), vec!["bbb"]);
    assert_eq!(run(&table, "PROJECT column1 FILTER column3 > b"), Vec::<String>::new());
    assert_eq!(run(&table, "PROJECT column1 FILTER column3 = b"), vec!["bbb"]);
    assert_eq!(run(&table, "PROJECT column1 FILTER column2 > x"), Vec::<String>::new());
    assert_eq!(run(&table, "PROJECT column1 FILTER column1 > 5"), vec![
        "aaa", "bbb", "ccc", "ddd", "eee"
    ]);
}

#[test]
fn projection_follows_the_order_of_the_names() {
    let table = test_table();
    let indexed = table.build_indices();
    let query = Query::parse("PROJECT column2, column1, column2 FILTER column1 = ccc").unwrap();
    assert_eq!(
        execute(&query, &indexed),
        Ok(ResultSet {
            rows: vec![ResultSetRow {
                fields: vec![Value::Integer(2), Value::Text("ccc".to_string()), Value::Integer(2)]
            }]
        })
    );
}

#[test]
fn query_without_columns_returns_rows_without_fields() {
    let table = test_table();
    let indexed = table.build_indices();
    let query = Query { column_names: Vec::new(), filter: None };
    let result = execute(&query, &indexed).unwrap();
    assert_eq!(result.rows.len(), 5);
    assert!(result.rows.iter().all(|row| row.fields.is_empty()));
}

#[test]
fn table_without_rows_gives_empty_results() {
    let table = table_of(&["a", "b"], &[]);
    assert_eq!(run(&table, "PROJECT a"), Vec::<String>::new());
    assert_eq!(run(&table, "PROJECT a FILTER b = 1"), Vec::<String>::new());
    assert_eq!(run(&table, "PROJECT a FILTER b > 1"), Vec::<String>::new());
}

#[test]
fn missing_filter_column_is_reported_before_missing_projection_column() {
    let table = test_table();
    let indexed = table.build_indices();
    let query = Query::parse("PROJECT nope FILTER none > 2").unwrap();
    let error = execute(&query, &indexed).unwrap_err();
    assert_eq!(error.name, "none");
    assert_eq!(error.available_columns, strings(&["column1", "column2", "column3"]));
    let query = Query::parse("PROJECT column1, nope, nada").unwrap();
    let error = execute(&query, &indexed).unwrap_err();
    assert_eq!(error.name, "nope");
}

#[test]
fn index_and_scan_select_the_same_rows() {
    let table = table_of(
        &["k", "v"],
        &[
            &["b", "2"],
            &["a", "x"],
            &["b", "1"],
            &["c", "1"],
            &["b", "2"],
            &["9", "x"],
            &["10", ""],
            &["a", "3"],
        ],
    );
    let indexed = table.build_indices();
    let values = ["", "0", "1", "2", "3", "9", "10", "a", "b", "c", "x", "y"];
    for column in ["k", "v"] {
        for text in values.iter() {
            for filter_type in [FilterType::Greater, FilterType::Equal] {
                let value = Value::parse_value(text.to_string()).unwrap();
                let filter = Filter { column_name: column.to_string(), value, filter_type };
                let index = indexed.indices().get(&filter.column_name).unwrap();
                let mut by_index = filter_using_index(&filter, index);
                let by_scan = filter_by_scanning(&indexed, &filter).unwrap();
                assert_eq!(apply_filter(&indexed, &filter).unwrap(), by_index);
                let mut sorted_scan = by_scan.clone();
                sorted_scan.sort();
                assert_eq!(by_scan, sorted_scan);
                by_index.sort();
                assert_eq!(by_index, by_scan);
                let position = table.find_column_position(&filter.column_name).unwrap();
                let expected: Vec<usize> = (0..table.row_count())
                    .filter(|row| match filter_type {
                        FilterType::Greater => table.field(*row, position) > &filter.value,
                        FilterType::Equal => table.field(*row, position) == &filter.value,
                    })
                    .collect();
                assert_eq!(by_scan, expected);
            }
        }
    }
}

#[test]
fn index_lookups_return_row_positions() {
    let table = test_table();
    let indexed = table.build_indices();
    let index = indexed.indices().get(&"column2".to_string()).unwrap();
    assert_eq!(filter_using_index_greater_than(&Value::Integer(1), index), vec![2, 3, 0]);
    assert_eq!(filter_using_index_greater_than(&Value::Integer(3), index), Vec::<usize>::new());
    assert_eq!(filter_using_index_equal_to(&Value::Integer(2), index), vec![2, 3]);
    assert_eq!(filter_using_index_equal_to(&Value::Integer(1), index), vec![4, 1]);
    assert_eq!(filter_using_index_equal_to(&Value::Integer(3), index), vec![0]);
    assert_eq!(filter_using_index_equal_to(&Value::Integer(7), index), Vec::<usize>::new());
}

#[test]
fn scan_of_a_missing_column_fails() {
    let table = test_table();
    let indexed = table.build_indices();
    let filter = Filter {
        column_name: "column4".to_string(),
        value: Value::Integer(2),
        filter_type: FilterType::Greater,
    };
    let error = filter_by_scanning(&indexed, &filter).unwrap_err();
    assert_eq!(error.name, "column4");
    assert_eq!(apply_filter(&indexed, &filter), Err(error));
}

#[test]
fn rows_project_in_the_order_given() {
    let table = test_table();
    let indexed = table.build_indices();
    let result = project_rows(&indexed, &vec![4, 0, 4], &strings(&["column3", "column1"])).unwrap();
    let lines: Vec<String> = result.rows.iter().map(|row| row.display()).collect();
    assert_eq!(lines, vec!["5,ddd", "b,bbb", "5,ddd"]);
    assert_eq!(indexed.underlying().row_count(), 5);
}

#[test]
fn result_rows_display_with_commas() {
    let row = ResultSetRow {
        fields: vec![Value::Text("eee".to_string()), Value::Integer(2), Value::Text(String::new())],
    };
    assert_eq!(row.display(), "eee,2,");
    assert_eq!(ResultSetRow { fields: Vec::new() }.display(), "");
    assert_eq!(ResultSetRow { fields: vec![Value::Integer(7)] }.display(), "7");
}
