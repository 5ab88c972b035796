//! Structured query objects: what the textual front-end hands to the engine.

use vstd::prelude::*;

verus! {

/// The type of one column: a 32-bit unsigned integer (always 4 bytes), or
/// text with a fixed byte capacity.
#[derive(Clone, Copy, PartialEq, Eq, Structural, Debug)]
pub enum Type {
    Int,
    Varchar(u8),
}

/// One column in a `create` request: its name and its type.
#[derive(Debug)]
pub struct FieldDef {
    pub name: String,
    pub config: Type,
}

impl FieldDef {
    pub fn new(name: String, config: Type) -> (r: FieldDef)
        ensures
            r.name == name,
            r.config == config,
    {
        FieldDef { name, config }
    }
}

/// A request to create a table: its name, its ordered column definitions,
/// and the names of the columns to index.
#[derive(Debug)]
pub struct CreateQuery {
    pub table: String,
    pub fields: Vec<FieldDef>,
    pub indices: Vec<String>,
}

impl CreateQuery {
    pub fn new(table: String, fields: Vec<FieldDef>, indices: Vec<String>) -> (r: CreateQuery)
        ensures
            r.table == table,
            r.fields == fields,
            r.indices == indices,
    {
        CreateQuery { table, fields, indices }
    }
}

/// The comparison a select condition asks for.
#[derive(Clone, Copy, PartialEq, Eq, Structural, Debug)]
pub enum Relation {
    Eq,
    Lt,
    Gt,
}

/// The relation a raw symbol denotes: `=`, `<` or `>`; anything else
/// denotes none.
pub open spec fn spec_relation_of(s: Seq<char>) -> Option<Relation> {
    if s.len() == 1 && s[0] as u32 == 61 {
        Some(Relation::Eq)
    } else if s.len() == 1 && s[0] as u32 == 60 {
        Some(Relation::Lt)
    } else if s.len() == 1 && s[0] as u32 == 62 {
        Some(Relation::Gt)
    } else {
        None
    }
}

impl Relation {
    /// Reads a raw relation symbol.
    pub fn from(raw: &String) -> (r: Option<Relation>)
        ensures
            r == spec_relation_of(raw@),
    {
        let s = raw.as_str();
        if s.unicode_len() != 1 {
            return None;
        }
        let code = s.get_char(0) as u32;
        if code == 61 {
            Some(Relation::Eq)
        } else if code == 60 {
            Some(Relation::Lt)
        } else if code == 62 {
            Some(Relation::Gt)
        } else {
            None
        }
    }
}

/// One filter term of a select request: column name, relation symbol and
/// comparison text, all still raw.
#[derive(Debug)]
pub struct FieldCondition {
    pub field_name: String,
    pub relation: String,
    pub value: String,
}

impl FieldCondition {
    pub fn new(field_name: String, relation: String, value: String) -> (r: FieldCondition)
        ensures
            r.field_name == field_name,
            r.relation == relation,
            r.value == value,
    {
        FieldCondition { field_name, relation, value }
    }
}

/// A filtered projection request: the table to scan, the columns to return,
/// and the conjunctive filter conditions.
#[derive(Debug)]
pub struct SelectQuery {
    pub table: String,
    pub columns: Vec<String>,
    pub conditions: Vec<FieldCondition>,
}

impl SelectQuery {
    pub fn new(table: String, columns: Vec<String>, conditions: Vec<FieldCondition>) -> (r:
        SelectQuery)
        ensures
            r.table == table,
            r.columns == columns,
            r.conditions == conditions,
    {
        SelectQuery { table, columns, conditions }
    }
}

/// A row insertion request: the table and the raw text for each named
/// column. At most one entry per column name.
#[derive(Debug)]
pub struct InsertQuery {
    pub table_name: String,
    pub raw_inserts: Vec<(String, String)>,
}

impl InsertQuery {
    pub fn new(table_name: String, raw_inserts: Vec<(String, String)>) -> (r: InsertQuery)
        ensures
            r.table_name == table_name,
            r.raw_inserts == raw_inserts,
    {
        InsertQuery { table_name, raw_inserts }
    }
}

/// A request to describe every table of the database.
#[derive(Debug)]
pub struct DescribeQuery;

/// A structured query, as produced by the textual parser.
#[derive(Debug)]
pub enum Query {
    Create(CreateQuery),
    Select(SelectQuery),
    Insert(InsertQuery),
    Describe(DescribeQuery),
}

} // verus!
