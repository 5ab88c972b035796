use toydb::query;
use toydb::query_parser::parse_create_table;

#[test]
fn test_parse_create_table_fails_without_fields() {
    assert!(parse_create_table(&mut vec![">", "users"]).is_err());
}

#[test]
fn test_parse_create_table_fails_if_start_token_different() {
    assert!(parse_create_table(&mut vec![">", "users", "id", "int"]).is_err());
    assert!(parse_create_table(&mut vec!["?", "users", "id", "int"]).is_err());
    assert!(parse_create_table(&mut vec![":", "users", "id", "int"]).is_err());
}

#[test]
fn test_parse_create_table_fails_if_type_not_known() {
    assert!(parse_create_table(&mut vec!["+", "users", "id", "float"]).is_err());
    assert!(parse_create_table(&mut vec!["+", "users", "id", "index"]).is_err());
}

#[test]
fn test_parse_create_table_fails_if_varchar_does_not_have_size() {
    assert!(parse_create_table(&mut vec!["+", "users", "name", "varchar"]).is_err());
}

#[test]
fn test_parse_create_table_fails_if_varchar_size_is_not_int() {
    assert!(parse_create_table(&mut vec!["+", "users", "name", "varchar", "large"]).is_err());
}

#[test]
fn test_parse_create_table_simple() {
    let res = parse_create_table(&mut vec!["+", "users", "id", "int", "name", "varchar", "30"]);
    assert!(res.is_ok());

    if let query::Query::Create(query) = res.unwrap() {
        assert_eq!("users", query.table);
        assert_eq!("id", query.fields[0].name);
        assert_eq!(query::Type::Int, query.fields[0].config);
        assert_eq!("name", query.fields[1].name);
        assert_eq!(query::Type::Varchar(30), query.fields[1].config);
    } else {
        panic!("Query is not create query.");
    }
}

#[test]
fn test_parse_create_table_with_indices() {
    let res = parse_create_table(&mut vec![
        "+", "users", "id", "int", "age", "int", ":", "id", "age",
    ]);
    assert!(res.is_ok());

    if let query::Query::Create(query) = res.unwrap() {
        assert_eq!(2, query.indices.len());
        assert_eq!("id", query.indices[0]);
        assert_eq!("age", query.indices[1]);
    } else {
        panic!("Query is not create query.");
    }
}
