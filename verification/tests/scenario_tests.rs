use toydb::engine::Engine;
use toydb::engine_operator::{EngineOperator, Response};
use toydb::index::Index;
use toydb::query::{CreateQuery, FieldCondition, FieldDef, InsertQuery, Relation, SelectQuery, Type};
use toydb::query_parser::QueryParser;
use toydb::repl::{parse_command, Command, ReplCommand};
use toydb::table_sync::TableSyncer;
use toydb::util::Val;

fn users_create() -> CreateQuery {
    CreateQuery::new(
        "users".to_string(),
        vec![
            FieldDef::new("id".to_string(), Type::Int),
            FieldDef::new("name".to_string(), Type::Varchar(5)),
        ],
        vec!["id".to_string()],
    )
}

fn insert_users(engine: &mut Engine, id: &str, name: &str) {
    let q = InsertQuery::new(
        "users".to_string(),
        vec![
            ("id".to_string(), id.to_string()),
            ("name".to_string(), name.to_string()),
        ],
    );
    assert_eq!(Ok(()), engine.insert(q));
}

fn select_users(engine: &Engine, columns: Vec<&str>, conditions: Vec<(&str, &str, &str)>) -> Result<Vec<Vec<Val>>, ()> {
    let q = SelectQuery::new(
        "users".to_string(),
        columns.into_iter().map(|c| c.to_string()).collect(),
        conditions
            .into_iter()
            .map(|(f, op, v)| FieldCondition::new(f.to_string(), op.to_string(), v.to_string()))
            .collect(),
    );
    engine.select(q)
}

#[test]
fn scenario_create_insert_select_by_indexed_id() {
    let mut engine = Engine::default();
    assert_eq!(Ok(()), engine.create_table(users_create()));
    insert_users(&mut engine, "1", "ab");
    insert_users(&mut engine, "2", "cdefg");

    let rows = select_users(&engine, vec!["name"], vec![("id", "=", "2")]).unwrap();
    assert_eq!(vec![vec![Val::Varchar("cdefg".to_string())]], rows);

    let rows = select_users(&engine, vec!["name"], vec![("id", "=", "1")]).unwrap();
    assert_eq!(vec![vec![Val::Varchar("ab".to_string())]], rows);
}

#[test]
fn scenario_negative_int_decodes_as_zero_and_row_stays() {
    let mut engine = Engine::default();
    assert_eq!(Ok(()), engine.create_table(users_create()));
    let q = InsertQuery::new(
        "users".to_string(),
        vec![("id".to_string(), "-5".to_string()), ("name".to_string(), "x".to_string())],
    );
    assert_eq!(Ok(()), engine.insert(q));

    let rows = select_users(&engine, vec!["id", "name"], vec![]).unwrap();
    assert_eq!(1, rows.len());
    assert_eq!(
        vec![vec![Val::U32(0), Val::Varchar("x".to_string())]],
        rows
    );
}

#[test]
fn scenario_definition_document_round_trip_reconstructs_schema_without_rows() {
    let mut engine = Engine::default();
    assert_eq!(Ok(()), engine.create_table(users_create()));
    insert_users(&mut engine, "1", "ab");

    let table = &engine.tables[0].1;
    assert_eq!(1, table.data.len());

    let syncer = TableSyncer::default();
    let doc = syncer.definition_document(&table.schema);
    let rebuilt = syncer.table_from_document(&doc).unwrap();

    assert_eq!(table.schema.len(), rebuilt.schema.len());
    for i in 0..table.schema.len() {
        assert_eq!(table.schema[i].name, rebuilt.schema[i].name);
        assert_eq!(table.schema[i].offs, rebuilt.schema[i].offs);
        assert_eq!(table.schema[i].size, rebuilt.schema[i].size);
        assert_eq!(table.schema[i].field_def.config, rebuilt.schema[i].field_def.config);
    }
    // the documented persistence gap: the data file is never read back
    assert_eq!(0, rebuilt.data.len());
}

#[test]
fn scenario_data_blob_concatenates_rows() {
    let mut engine = Engine::default();
    assert_eq!(Ok(()), engine.create_table(users_create()));
    insert_users(&mut engine, "1", "ab");
    insert_users(&mut engine, "258", "c");

    let table = &engine.tables[0].1;
    let syncer = TableSyncer::default();
    let blob = syncer.data_blob(&table.data);
    assert_eq!(
        vec![
            1u8, 0, 0, 0, b'a', b'b', 0, 0, 0, // row 0: id 1, "ab" zero-padded
            2u8, 1, 0, 0, b'c', 0, 0, 0, 0, // row 1: id 258 little-endian, "c"
        ],
        blob
    );
}

#[test]
fn select_no_conditions_returns_every_row_in_order() {
    let mut engine = Engine::default();
    assert_eq!(Ok(()), engine.create_table(users_create()));
    insert_users(&mut engine, "3", "a");
    insert_users(&mut engine, "1", "b");
    insert_users(&mut engine, "2", "c");

    let rows = select_users(&engine, vec!["id"], vec![]).unwrap();
    assert_eq!(
        vec![vec![Val::U32(3)], vec![Val::U32(1)], vec![Val::U32(2)]],
        rows
    );
}

#[test]
fn select_conditions_are_conjunctive() {
    let mut engine = Engine::default();
    assert_eq!(Ok(()), engine.create_table(users_create()));
    insert_users(&mut engine, "5", "abc");

    // the row meets two of the three conditions and is excluded
    let rows = select_users(
        &engine,
        vec!["id"],
        vec![("id", "=", "5"), ("name", "=", "abc"), ("id", ">", "9")],
    )
    .unwrap();
    assert_eq!(0, rows.len());

    let rows = select_users(
        &engine,
        vec!["id"],
        vec![("id", "=", "5"), ("name", "=", "abc"), ("id", "<", "9")],
    )
    .unwrap();
    assert_eq!(1, rows.len());
}

#[test]
fn select_compares_text_lexicographically() {
    let mut engine = Engine::default();
    assert_eq!(Ok(()), engine.create_table(users_create()));
    insert_users(&mut engine, "1", "apple");
    insert_users(&mut engine, "2", "berry");

    let rows = select_users(&engine, vec!["id"], vec![("name", "<", "b")]).unwrap();
    assert_eq!(vec![vec![Val::U32(1)]], rows);
    let rows = select_users(&engine, vec!["id"], vec![("name", ">", "b")]).unwrap();
    assert_eq!(vec![vec![Val::U32(2)]], rows);
}

#[test]
fn select_unparsable_condition_fails_closed() {
    let mut engine = Engine::default();
    assert_eq!(Ok(()), engine.create_table(users_create()));
    insert_users(&mut engine, "1", "ab");

    // a non-numeric comparison value for an Int column excludes every row
    let rows = select_users(&engine, vec!["id"], vec![("id", "=", "abc")]).unwrap();
    assert_eq!(0, rows.len());
    // an unknown relation symbol excludes every row as well
    let rows = select_users(&engine, vec!["id"], vec![("id", "!", "1")]).unwrap();
    assert_eq!(0, rows.len());
}

#[test]
fn select_unknown_names_are_errors() {
    let mut engine = Engine::default();
    assert_eq!(Ok(()), engine.create_table(users_create()));
    insert_users(&mut engine, "1", "ab");

    assert_eq!(Err(()), select_users(&engine, vec!["id"], vec![("ghost", "=", "1")]));
    assert_eq!(Err(()), select_users(&engine, vec!["ghost"], vec![]));
    let q = SelectQuery::new("nosuch".to_string(), vec!["id".to_string()], vec![]);
    assert_eq!(Err(()), engine.select(q));
}

#[test]
fn insert_into_unknown_table_fails() {
    let mut engine = Engine::default();
    let q = InsertQuery::new("nosuch".to_string(), vec![("id".to_string(), "1".to_string())]);
    assert_eq!(Err(()), engine.insert(q));
}

#[test]
fn create_rejects_separator_in_table_name() {
    let mut engine = Engine::default();
    let q = CreateQuery::new(
        "users.tdb".to_string(),
        vec![FieldDef::new("id".to_string(), Type::Int)],
        vec![],
    );
    assert_eq!(Err(()), engine.create_table(q));
    assert_eq!(0, engine.tables.len());
}

#[test]
fn create_overwrites_table_of_same_name() {
    let mut engine = Engine::default();
    assert_eq!(Ok(()), engine.create_table(users_create()));
    insert_users(&mut engine, "1", "ab");
    assert_eq!(Ok(()), engine.create_table(users_create()));
    assert_eq!(1, engine.tables.len());
    assert_eq!(0, engine.tables[0].1.data.len());
}

#[test]
fn index_records_both_positions_for_repeated_value() {
    let mut engine = Engine::default();
    assert_eq!(Ok(()), engine.create_table(users_create()));
    insert_users(&mut engine, "7", "a");
    insert_users(&mut engine, "8", "b");
    insert_users(&mut engine, "7", "c");

    let table = &engine.tables[0].1;
    let index = &table.indices[0].1;
    assert_eq!(Some(&vec![0usize, 2usize]), index.get_pos(Val::U32(7)));
    assert_eq!(Some(&vec![1usize]), index.get_pos(Val::U32(8)));
    assert_eq!(None, index.get_pos(Val::U32(9)));
}

#[test]
fn index_skips_absent_and_unparsable_values() {
    let mut engine = Engine::default();
    assert_eq!(Ok(()), engine.create_table(users_create()));
    // no id supplied: the row is stored but not indexed
    let q = InsertQuery::new(
        "users".to_string(),
        vec![("name".to_string(), "ab".to_string())],
    );
    assert_eq!(Ok(()), engine.insert(q));
    // unparsable id: stored, not indexed
    let q = InsertQuery::new(
        "users".to_string(),
        vec![("id".to_string(), "-5".to_string())],
    );
    assert_eq!(Ok(()), engine.insert(q));

    let table = &engine.tables[0].1;
    assert_eq!(2, table.data.len());
    assert_eq!(None, table.indices[0].1.get_pos(Val::U32(0)));
}

#[test]
fn text_longer_than_capacity_is_truncated_to_it() {
    let mut engine = Engine::default();
    assert_eq!(Ok(()), engine.create_table(users_create()));
    insert_users(&mut engine, "1", "abcdefg");
    let rows = select_users(&engine, vec!["name"], vec![]).unwrap();
    assert_eq!(vec![vec![Val::Varchar("abcde".to_string())]], rows);
}

#[test]
fn int_round_trip_at_the_u32_boundary() {
    let mut engine = Engine::default();
    assert_eq!(Ok(()), engine.create_table(users_create()));
    insert_users(&mut engine, "4294967295", "max");
    let rows = select_users(&engine, vec!["id"], vec![]).unwrap();
    assert_eq!(vec![vec![Val::U32(u32::MAX)]], rows);
}

#[test]
fn describe_db_renders_layout_and_indices() {
    let mut engine = Engine::default();
    assert_eq!(Ok(()), engine.create_table(users_create()));
    let expected = "users\n\tid : offs 0 size 4 Int\n\tname : offs 4 size 5 Varchar 5\n\tIndex on: id\n";
    assert_eq!(expected, engine.describe_db());
}

#[test]
fn operator_runs_raw_commands_end_to_end() {
    let mut operator = EngineOperator::default();
    assert!(operator
        .execute_raw_command(&"+ users id int name varchar 5 : id".to_string())
        .is_ok());
    assert!(operator
        .execute_raw_command(&"> users id 7 name bob".to_string())
        .is_ok());
    match operator.execute_raw_command(&"? name id > users : id = 7".to_string()) {
        Ok(Response::Rows(rows)) => {
            assert_eq!(
                vec![vec![Val::Varchar("bob".to_string()), Val::U32(7)]],
                rows
            );
        }
        other => panic!("unexpected response: {:?}", other),
    }
    assert!(operator.execute_raw_command(&"nonsense".to_string()).is_err());
}

#[test]
fn operator_hands_out_persistence_documents_and_loads_them_back() {
    let mut operator = EngineOperator::default();
    assert!(operator
        .execute_raw_command(&"+ users id int name varchar 5".to_string())
        .is_ok());
    assert!(operator
        .execute_raw_command(&"> users id 1 name ab".to_string())
        .is_ok());

    let docs = operator.sync_documents();
    assert_eq!(1, docs.len());
    assert_eq!("users", docs[0].0);
    assert_eq!(9, docs[0].2.len()); // one row of 4 + 5 bytes

    let mut fresh = EngineOperator::default();
    assert_eq!(Ok(()), fresh.load_table("users".to_string(), &docs[0].1));
    assert_eq!(1, fresh.engine.tables.len());
    assert_eq!(0, fresh.engine.tables[0].1.data.len());
    let schema = &fresh.engine.tables[0].1.schema;
    assert_eq!("id", schema[0].name);
    assert_eq!("name", schema[1].name);
    assert_eq!(Type::Varchar(5), schema[1].field_def.config);
}

#[test]
fn load_table_rejects_garbage_documents() {
    let mut operator = EngineOperator::default();
    assert_eq!(
        Err(()),
        operator.load_table("users".to_string(), &vec![1u8, 2, 3])
    );
    assert_eq!(0, operator.engine.tables.len());
}

#[test]
fn file_names_derive_from_the_table_name() {
    let syncer = TableSyncer::default();
    assert_eq!(
        "users.tdb.table",
        syncer.definition_file_name(&"users".to_string())
    );
    assert_eq!("users.tdb.data", syncer.data_file_name(&"users".to_string()));
}

#[test]
fn relation_symbols_parse_exactly() {
    assert_eq!(Some(Relation::Eq), Relation::from(&"=".to_string()));
    assert_eq!(Some(Relation::Lt), Relation::from(&"<".to_string()));
    assert_eq!(Some(Relation::Gt), Relation::from(&">".to_string()));
    assert_eq!(None, Relation::from(&"!".to_string()));
    assert_eq!(None, Relation::from(&"==".to_string()));
}

#[test]
fn val_from_respects_the_column_type() {
    assert_eq!(Some(Val::U32(12)), Val::from("12".to_string(), &Type::Int));
    assert_eq!(None, Val::from("12x".to_string(), &Type::Int));
    assert_eq!(
        Some(Val::Varchar("ab".to_string())),
        Val::from("abcd".to_string(), &Type::Varchar(2))
    );
    assert_eq!(
        Some(Val::Varchar("ab".to_string())),
        Val::from("ab".to_string(), &Type::Varchar(9))
    );
}

#[test]
fn console_lines_classify_as_commands_or_queries() {
    assert!(matches!(
        parse_command(&"quit".to_string()),
        Ok(Command::ReplCommand(ReplCommand::Quit))
    ));
    assert!(matches!(
        parse_command(&" EXIT ".to_string()),
        Ok(Command::ReplCommand(ReplCommand::Quit))
    ));
    assert!(matches!(
        parse_command(&"help".to_string()),
        Ok(Command::ReplCommand(ReplCommand::Help))
    ));
    match parse_command(&"? id > users".to_string()) {
        Ok(Command::DBCommand(s)) => assert_eq!("? id > users", s),
        other => panic!("unexpected command: {:?}", other),
    }
    assert!(parse_command(&"hello world".to_string()).is_err());
    assert!(QueryParser::looks_like_query(&":db".to_string()));
    assert!(!QueryParser::looks_like_query(&"".to_string()));
}

#[test]
fn parser_handles_select_and_insert_lines() {
    let parser = QueryParser;
    assert!(parser.parse(&"? a b > t : x = 1".to_string()).is_ok());
    assert!(parser.parse(&"? a > t : x = ".to_string()).is_err()); // dangling condition
    assert!(parser.parse(&"> t a 1 b".to_string()).is_err()); // odd pair
    assert!(parser.parse(&":db".to_string()).is_ok());
    assert!(parser.parse(&":DB".to_string()).is_ok());
    assert!(parser.parse(&"badness".to_string()).is_err());

    // a later value for the same field overwrites the earlier one
    let mut operator = EngineOperator::default();
    assert!(operator
        .execute_raw_command(&"+ t a int".to_string())
        .is_ok());
    assert!(operator
        .execute_raw_command(&"> t a 1 a 2".to_string())
        .is_ok());
    match operator.execute_raw_command(&"? a > t".to_string()) {
        Ok(Response::Rows(rows)) => assert_eq!(vec![vec![Val::U32(2)]], rows),
        other => panic!("unexpected response: {:?}", other),
    }
}
