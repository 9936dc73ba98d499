use simple_query_engine::query_engine::{ResultSet, ResultSetRow};
use simple_query_engine::session::{is_exit_command, render, respond, Reply};
use simple_query_engine::table::Table;
use simple_query_engine::value::Value;

fn strings(fields: &[&str]) -> Vec<String> {
    fields.iter().map(|field| field.to_string()).collect()
}

fn test_table() -> Table {
    let records: Vec<Vec<String>> = [
        ["bbb", "3", "b"],
        ["aaa", "1", "10"],
        ["ccc", "2", "11"],
        ["eee", "2", "9"],
        ["ddd", "1", "5"],
    ]
    .iter()
    .map(|record| strings(record))
    .collect();
    Table::load_from(&strings(&["column1", "column2", "column3"]), &records).unwrap()
}

#[test]
fn exit_commands_end_the_session() {
    let table = test_table();
    let indexed = table.build_indices();
    assert_eq!(respond("exit", &indexed), Reply::Exit);
    assert_eq!(respond("quit\n", &indexed), Reply::Exit);
    assert_eq!(respond("  q \r\n", &indexed), Reply::Exit);
    assert!(is_exit_command(&vec!["exit"]));
    assert!(!is_exit_command(&vec!["exit", "now"]));
    assert!(!is_exit_command(&vec!["Exit"]));
    assert!(!is_exit_command(&Vec::new()));
}

#[test]
fn other_lines_are_read_as_queries() {
    let table = test_table();
    let indexed = table.build_indices();
    assert_eq!(
        respond("exit now\n", &indexed),
        Reply::Failure(
            "Query parsing error: Expected to find keyword PROJECT in [\"exit\", \"now\"] at position 0"
                .to_string()
        )
    );
    assert_eq!(
        respond("\n", &indexed),
        Reply::Failure(
            "Query parsing error: Could not parse projection part in [] at position 0".to_string()
        )
    );
    assert_eq!(
        respond("PROJECT\n", &indexed),
        Reply::Failure("Query parsing error: Projection column list is empty".to_string())
    );
}

#[test]
fn unknown_column_is_reported() {
    let table = test_table();
    let indexed = table.build_indices();
    assert_eq!(
        respond("PROJECT column4 FILTER column2 > 2\n", &indexed),
        Reply::Failure(
            "Query execution error: Cannot find column column4, it does not exist in the table, existing columns column1, column2, column3"
                .to_string()
        )
    );
}

#[test]
fn result_is_printed_under_its_header() {
    let table = test_table();
    let indexed = table.build_indices();
    assert_eq!(
        respond("PROJECT column1, column2 FILTER column1 > \"bbb\"\n", &indexed),
        Reply::Output("column1,column2\n---------------\nccc,2\nddd,1\neee,2\n".to_string())
    );
    assert_eq!(
        respond("PROJECT column3 FILTER column1 > \"eee\"\n", &indexed),
        Reply::Output("column3\n-------\n".to_string())
    );
}

#[test]
fn separator_is_as_long_as_the_header_has_bytes() {
    let result = ResultSet {
        rows: vec![ResultSetRow { fields: vec![Value::Integer(1), Value::Text("ü".to_string())] }],
    };
    assert_eq!(render(&strings(&["é", "b"]), &result), "é,b\n----\n1,ü\n");
    assert_eq!(render(&Vec::new(), &ResultSet { rows: Vec::new() }), "\n\n");
}
