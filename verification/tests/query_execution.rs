use simple_query_engine::query::Query;
use simple_query_engine::query_engine::{execute, ResultSet, ResultSetRow};
use simple_query_engine::table::Table;
use simple_query_engine::value::Value;
use std::io::Cursor;

fn load_csv(input: &str) -> Table {
    let mut reader = csv::ReaderBuilder::new().from_reader(Cursor::new(input));
    let headers: Vec<String> =
        reader.headers().unwrap().iter().map(|header| header.to_string()).collect();
    let mut records: Vec<Vec<String>> = Vec::new();
    for record in reader.records() {
        records.push(record.unwrap().iter().map(|field| field.to_string()).collect());
    }
    Table::load_from(&headers, &records).unwrap()
}

fn load_test_table() -> Table {
    let input = r#"column1,column2,column3
bbb,3,b
aaa,1,10
ccc,2,11
eee,2,9
ddd,1,5
"#;
    load_csv(input)
}

#[test]
fn should_execute_query_with_two_columns_in_projection_and_greater_filter() {
    let table = load_test_table();
    let indexed_table = table.build_indices();
    let query = Query::parse("PROJECT column1, column2 FILTER column1 > \"bbb\"").unwrap();
    let result_set = execute(&query, &indexed_table).unwrap();
    assert_eq!(result_set, ResultSet {
        rows: vec![
            ResultSetRow {
                fields: vec![Value::Text("ccc".to_string()), Value::Integer(2)]
            },
            ResultSetRow {
                fields: vec![Value::Text("ddd".to_string()), Value::Integer(1)]
            },
            ResultSetRow {
                fields: vec![Value::Text("eee".to_string()), Value::Integer(2)]
            }
        ]
    })
}

#[test]
fn should_execute_query_with_two_columns_in_projection_and_equal_filter() {
    let table = load_test_table();
    let indexed_table = table.build_indices();
    let query = Query::parse("PROJECT column1, column2 FILTER column3 = 9").unwrap();
    let result_set = execute(&query, &indexed_table).unwrap();
    assert_eq!(result_set, ResultSet {
        rows: vec![
            ResultSetRow {
                fields: vec![Value::Text("eee".to_string()), Value::Integer(2)]
            }
        ]
    })
}

#[test]
fn should_execute_query_with_two_columns_in_projection_and_no_filter() {
    let table = load_test_table();
    let indexed_table = table.build_indices();
    let query = Query::parse("PROJECT column1, column2").unwrap();
    let result_set = execute(&query, &indexed_table).unwrap();
    assert_eq!(result_set, ResultSet {
        rows: vec![
            ResultSetRow {
                fields: vec![Value::Text("bbb".to_string()), Value::Integer(3)]
            },
            ResultSetRow {
                fields: vec![Value::Text("aaa".to_string()), Value::Integer(1)]
            },
            ResultSetRow {
                fields: vec![Value::Text("ccc".to_string()), Value::Integer(2)]
            },
            ResultSetRow {
                fields: vec![Value::Text("eee".to_string()), Value::Integer(2)]
            },
            ResultSetRow {
                fields: vec![Value::Text("ddd".to_string()), Value::Integer(1)]
            }
        ]
    })
}

#[test]
fn should_execute_query_with_two_columns_in_projection_and_filter_matching_no_rows() {
    let table = load_test_table();
    let indexed_table = table.build_indices();
    let query = Query::parse("PROJECT column1, column2 FILTER column1 > \"eee\"").unwrap();
    let result_set = execute(&query, &indexed_table).unwrap();
    assert_eq!(result_set, ResultSet {
        rows: Vec::new()
    })
}

#[test]
fn should_execute_query_with_single_column_in_projection() {
    let table = load_test_table();
    let indexed_table = table.build_indices();
    let query = Query::parse("PROJECT column1 FILTER column2 > 2").unwrap();
    let result_set = execute(&query, &indexed_table).unwrap();
    assert_eq!(result_set, ResultSet {
        rows: vec![
            ResultSetRow {
                fields: vec![Value::Text("bbb".to_string())]
            }
        ]
    })
}

#[test]
fn should_produce_error_when_non_existent_column_is_used_in_projection() {
    let table = load_test_table();
    let indexed_table = table.build_indices();
    let query = Query::parse("PROJECT column4 FILTER column2 > 2").unwrap();
    let result = execute(&query, &indexed_table);
    match result {
        Err(e) => assert_eq!(
            e.message(),
            "Cannot find column column4, it does not exist in the table, existing columns column1, column2, column3"
        ),
        Ok(_) => panic!("Error expected"),
    }
}

#[test]
fn should_produce_error_when_non_existent_column_is_used_in_filter() {
    let table = load_test_table();
    let indexed_table = table.build_indices();
    let query = Query::parse("PROJECT column1 FILTER column4 > 2").unwrap();
    let result = execute(&query, &indexed_table);
    match result {
        Err(e) => assert_eq!(
            e.message(),
            "Cannot find column column4, it does not exist in the table, existing columns column1, column2, column3"
        ),
        Ok(_) => panic!("Error expected"),
    }
}

#[test]
fn should_find_all_rows_when_using_equal_filter() {
    let input = r#"column1,column2
a,1
b,2
c,3
d,3
e,3
f,4
"#;
    let table = load_csv(input);
    let indexed_table = table.build_indices();
    let query = Query::parse("PROJECT column1 FILTER column2 = 3").unwrap();
    let result_set = execute(&query, &indexed_table).unwrap();
    assert_eq!(result_set, ResultSet {
        rows: vec![
            ResultSetRow {
                fields: vec![Value::Text("d".to_string())]
            },
            ResultSetRow {
                fields: vec![Value::Text("c".to_string())]
            },
            ResultSetRow {
                fields: vec![Value::Text("e".to_string())]
            }
        ]
    })
}

#[test]
fn should_correctly_handle_duplicate_filter_column_values_for_greater_filter() {
    let input = r#"column1,column2
a,1
b,2
c,3
d,3
e,3
f,4
"#;
    let table = load_csv(input);
    let indexed_table = table.build_indices();
    let query = Query::parse("PROJECT column1 FILTER column2 > 3").unwrap();
    let result_set = execute(&query, &indexed_table).unwrap();
    assert_eq!(result_set, ResultSet {
        rows: vec![
            ResultSetRow {
                fields: vec![Value::Text("f".to_string())]
            }
        ]
    })
}

#[test]
fn should_execute_query_with_two_columns_in_projection_and_equal_filter_matching_no_rows() {
    let table = load_test_table();
    let indexed_table = table.build_indices();
    let query = Query::parse("PROJECT column1, column2 FILTER column1 = \"hhh\"").unwrap();
    let result_set = execute(&query, &indexed_table).unwrap();
    assert_eq!(result_set, ResultSet {
        rows: Vec::new()
    })
}
