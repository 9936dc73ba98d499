use simple_query_engine::query::{Filter, FilterType, Query};
use simple_query_engine::value::Value;

#[test]
fn should_parse_correct_query_with_projection_and_greater_filter() {
    let input = "PROJECT col1, col2 FILTER col3 > \"value\"";
    let query = Query::parse(input).unwrap();
    assert_eq!(query, Query {
        column_names: vec!["col1".to_string(), "col2".to_string()],
        filter: Some(Filter {
            column_name: "col3".to_string(),
            value: Value::Text("value".to_string()),
            filter_type: FilterType::Greater
        })
    })
}

#[test]
fn should_parse_correct_query_with_projection_using_a_single_column_and_greater_filter() {
    let input = "PROJECT col1 FILTER col3 > \"value\"";
    let query = Query::parse(input).unwrap();
    assert_eq!(query, Query {
        column_names: vec!["col1".to_string()],
        filter: Some(Filter {
            column_name: "col3".to_string(),
            value: Value::Text("value".to_string()),
            filter_type: FilterType::Greater
        })
    })
}

#[test]
fn should_parse_query_which_uses_multiple_blanks_between_words() {
    let input = "PROJECT   col1,   col2  FILTER     col3    >   \"value\"";
    let query = Query::parse(input).unwrap();
    assert_eq!(query, Query {
        column_names: vec!["col1".to_string(), "col2".to_string()],
        filter: Some(Filter {
            column_name: "col3".to_string(),
            value: Value::Text("value".to_string()),
            filter_type: FilterType::Greater
        })
    })
}

#[test]
fn should_parse_query_with_an_equality_filter_and_number() {
    let input = "PROJECT col1, col2 FILTER col3 = 42";
    let query = Query::parse(input).unwrap();
    assert_eq!(query, Query {
        column_names: vec!["col1".to_string(), "col2".to_string()],
        filter: Some(Filter {
            column_name: "col3".to_string(),
            value: Value::Integer(42),
            filter_type: FilterType::Equal
        })
    })
}

#[test]
fn should_produce_error_when_projection_column_list_is_empty() {
    let input = "PROJECT FILTER col3 > \"value\"";
    let query = Query::parse(input);
    match query {
        Err(e) => assert_eq!(e.message(), "Projection column list is empty"),
        Ok(_) => panic!("Error expected"),
    }
}

#[test]
fn should_produce_error_when_column_is_missing_from_the_filter() {
    let input = "PROJECT col1, col2 FILTER > \"value\"";
    let query = Query::parse(input);
    match query {
        Err(e) => assert_eq!(
            e.message(),
            "Unknown filter operator in [\"PROJECT\", \"col1,\", \"col2\", \"FILTER\", \">\", \"\\\"value\\\"\"] at position 5"
        ),
        Ok(_) => panic!("Error expected"),
    }
}

#[test]
fn should_parse_query_with_no_filter() {
    let input = "PROJECT col1, col2";
    let query = Query::parse(input).unwrap();
    assert_eq!(query, Query {
        column_names: vec!["col1".to_string(), "col2".to_string()],
        filter: None
    })
}

#[test]
fn should_produce_error_when_typo_in_project_keyword() {
    let input = "PROJECTION col1, col2 FILTER col3 > \"value\"";
    let query = Query::parse(input);
    match query {
        Err(e) => assert_eq!(
            e.message(),
            "Expected to find keyword PROJECT in [\"PROJECTION\", \"col1,\", \"col2\", \"FILTER\", \"col3\", \">\", \"\\\"value\\\"\"] at position 0"
        ),
        Ok(_) => panic!("Error expected"),
    }
}

#[test]
fn should_produce_error_when_typo_in_filter_keyword() {
    let input = "PROJECT col1, col2 FILTRE col3 > \"value\"";
    let query = Query::parse(input);
    match query {
        Err(e) => assert_eq!(
            e.message(),
            "Expected to find keyword FILTER in [\"PROJECT\", \"col1,\", \"col2\", \"FILTRE\", \"col3\", \">\", \"\\\"value\\\"\"] at position 3"
        ),
        Ok(_) => panic!("Error expected"),
    }
}

#[test]
fn should_produce_error_when_operator_is_missing_in_filter() {
    let input = "PROJECT col1, col2 FILTER col3 \"value\"";
    let query = Query::parse(input);
    match query {
        Err(e) => assert_eq!(
            e.message(),
            "Unknown filter operator in [\"PROJECT\", \"col1,\", \"col2\", \"FILTER\", \"col3\", \"\\\"value\\\"\"] at position 5"
        ),
        Ok(_) => panic!("Error expected"),
    }
}

#[test]
fn should_produce_error_when_value_is_missing_in_filter() {
    let input = "PROJECT col1, col2 FILTER col3 >";
    let query = Query::parse(input);
    match query {
        Err(e) => assert_eq!(
            e.message(),
            "Could not find value to filter by in the filter in [\"PROJECT\", \"col1,\", \"col2\", \"FILTER\", \"col3\", \">\"] at position 6"
        ),
        Ok(_) => panic!("Error expected"),
    }
}

#[test]
fn should_produce_error_when_there_are_dangling_symbols_after_query_left() {
    let input = "PROJECT col1, col2 FILTER col3 > \"value\". abc";
    let query = Query::parse(input);
    match query {
        Err(e) => assert_eq!(
            e.message(),
            "Unexpected suffix found in [\"PROJECT\", \"col1,\", \"col2\", \"FILTER\", \"col3\", \">\", \"\\\"value\\\".\", \"abc\"] at position 7"
        ),
        Ok(_) => panic!("Error expected"),
    }
}
