use simple_query_engine::index::{TableIndices, ValueInRow};
use simple_query_engine::table::{Column, ColumnType, Row, Table};
use simple_query_engine::value::Value;
use std::io::Cursor;

fn load_csv(input: &str) -> Table {
    let mut reader = csv::ReaderBuilder::new().from_reader(Cursor::new(input));
    let headers: Vec<String> =
        reader.headers().unwrap().iter().map(|header| header.to_string()).collect();
    let mut records: Vec<Vec<String>> = Vec::new();
    for record in reader.records() {
        records.push(record.unwrap().iter().map(|field| field.to_string()).collect());
    }
    Table::load_from(&headers, &records).unwrap()
}

#[test]
fn should_load_table_from_csv() {
    let input = r#"column1,column2,column3
bbb,3,b
aaa,1,10
ccc,2,11"#;
    let table = load_csv(input);
    assert_eq!(table.columns(), &vec![
        Column {
            name: "column1".to_string(),
            column_type: ColumnType::Text
        },
        Column {
            name: "column2".to_string(),
            column_type: ColumnType::Integer
        },
        Column {
            name: "column3".to_string(),
            column_type: ColumnType::Text
        }
    ]);
    assert_eq!(table.rows(), &vec![
        Row {
            fields: vec![Value::Text("bbb".to_string()), Value::Integer(3), Value::Text("b".to_string())]
        },
        Row {
            fields: vec![Value::Text("aaa".to_string()), Value::Integer(1), Value::Integer(10)]
        },
        Row {
            fields: vec![Value::Text("ccc".to_string()), Value::Integer(2), Value::Integer(11)]
        }
    ])
}

#[test]
fn should_build_indices_for_table() {
    let input = r#"column1,column2,column3
bbb,3,b
aaa,1,10
ccc,2,11"#;
    let table = load_csv(input);
    let indices = TableIndices::build_for(&table);
    let aaa = Value::Text("aaa".to_string());
    let bbb = Value::Text("bbb".to_string());
    let ccc = Value::Text("ccc".to_string());
    let b = Value::Text("b".to_string());
    assert_eq!(indices.len(), 3);
    let column1 = indices.get(&"column1".to_string()).unwrap();
    assert_eq!(column1.column_name(), "column1");
    assert_eq!(column1.entries(), &vec![
        ValueInRow { value: &aaa, row_index: 1 },
        ValueInRow { value: &bbb, row_index: 0 },
        ValueInRow { value: &ccc, row_index: 2 }
    ]);
    let column2 = indices.get(&"column2".to_string()).unwrap();
    assert_eq!(column2.column_name(), "column2");
    assert_eq!(column2.entries(), &vec![
        ValueInRow { value: &Value::Integer(1), row_index: 1 },
        ValueInRow { value: &Value::Integer(2), row_index: 2 },
        ValueInRow { value: &Value::Integer(3), row_index: 0 }
    ]);
    let column3 = indices.get(&"column3".to_string()).unwrap();
    assert_eq!(column3.column_name(), "column3");
    assert_eq!(column3.entries(), &vec![
        ValueInRow { value: &Value::Integer(10), row_index: 1 },
        ValueInRow { value: &Value::Integer(11), row_index: 2 },
        ValueInRow { value: &b, row_index: 0 },
    ]);
    assert!(indices.get(&"column4".to_string()).is_none());
}
