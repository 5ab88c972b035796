use toydb::engine::raw_string_to_val;
use toydb::query;
use toydb::util;

#[test]
fn test_raw_string_to_val_u32() {
    assert_eq!(
        Ok(util::Val::U32(12)),
        raw_string_to_val("12", &query::Type::Int)
    );
    assert_eq!(
        Ok(util::Val::U32(0)),
        raw_string_to_val("0", &query::Type::Int)
    );
}

#[test]
fn test_raw_string_to_val_u32_fail() {
    assert_eq!(Err(()), raw_string_to_val("", &query::Type::Int));
    assert_eq!(Err(()), raw_string_to_val("-1", &query::Type::Int));
    assert_eq!(Err(()), raw_string_to_val("abc", &query::Type::Int));
}

#[test]
fn test_raw_string_to_val_varchar() {
    assert_eq!(
        Ok(util::Val::Varchar("hello".to_owned())),
        raw_string_to_val("hello", &query::Type::Varchar(5))
    );
    assert_eq!(
        Ok(util::Val::Varchar("123".to_owned())),
        raw_string_to_val("123", &query::Type::Varchar(3))
    );
    assert_eq!(
        Ok(util::Val::Varchar("".to_owned())),
        raw_string_to_val("", &query::Type::Varchar(0))
    );
}

#[test]
fn test_raw_string_to_val_varchar_different_size() {
    assert_eq!(
        Ok(util::Val::Varchar("hel".to_owned())),
        raw_string_to_val("hello world", &query::Type::Varchar(3))
    );
    assert_eq!(
        Ok(util::Val::Varchar("hello".to_owned())),
        raw_string_to_val("hello", &query::Type::Varchar(7))
    );
}
