//! The line-oriented textual query language: raw text to structured
//! queries. The first token picks the query kind: `+` creates a table,
//! `?` selects, `>` inserts, and `:db` describes the database.

use vstd::prelude::*;

use crate::query::{
    CreateQuery, DescribeQuery, FieldCondition, FieldDef, InsertQuery, Query, SelectQuery, Type,
};
use crate::text::{
    dec_val, int_text, lower, lower_char, parse_u8, spec_split, spec_trim, split_spaces, str_eq,
    to_lowercase, trim,
};

verus! {

/// The column definitions and index names read from the tail of a create
/// request: `(name type)*` up to an optional `:`, the index names after
/// it. Nothing if the tokens do not fit that shape.
pub open spec fn spec_fields(toks: Seq<Seq<char>>) -> Option<
    (Seq<(Seq<char>, Type)>, Seq<Seq<char>>),
>
    decreases toks.len(),
{
    if toks.len() == 0 {
        Some((Seq::<(Seq<char>, Type)>::empty(), Seq::<Seq<char>>::empty()))
    } else if toks[0] == ":"@ {
        Some((Seq::<(Seq<char>, Type)>::empty(), toks.drop_first()))
    } else if toks.len() < 2 {
        None::<(Seq<(Seq<char>, Type)>, Seq<Seq<char>>)>
    } else if toks[1] == "int"@ {
        match spec_fields(toks.skip(2)) {
            Some((fs, idx)) => Some((seq![(toks[0], Type::Int)] + fs, idx)),
            None => None,
        }
    } else if toks[1] == "varchar"@ {
        if toks.len() < 3 {
            None
        } else if int_text(toks[2]) && dec_val(toks[2]) <= u8::MAX {
            match spec_fields(toks.skip(3)) {
                Some((fs, idx)) => Some(
                    (seq![(toks[0], Type::Varchar(dec_val(toks[2]) as u8))] + fs, idx),
                ),
                None => None,
            }
        } else {
            None
        }
    } else {
        None
    }
}

/// What a create request's tokens denote: the table name, the column
/// definitions, and the index column names.
pub open spec fn spec_parse_create(toks: Seq<Seq<char>>) -> Option<
    (Seq<char>, Seq<(Seq<char>, Type)>, Seq<Seq<char>>),
> {
    if toks.len() < 4 || toks[0] != "+"@ {
        None
    } else {
        match spec_fields(toks.skip(2)) {
            Some((fs, idx)) => Some((toks[1], fs, idx)),
            None => None,
        }
    }
}

/// The built query lists exactly the denoted name, definitions and index
/// columns.
pub open spec fn spec_create_matches(
    q: CreateQuery,
    name: Seq<char>,
    fs: Seq<(Seq<char>, Type)>,
    idx: Seq<Seq<char>>,
) -> bool {
    &&& q.table@ == name
    &&& q.fields@.len() == fs.len()
    &&& forall|i: int|
        0 <= i < fs.len() ==> (#[trigger] q.fields@[i]).name@ == fs[i].0 && q.fields@[i].config
            == fs[i].1
    &&& q.indices@.len() == idx.len()
    &&& forall|i: int| 0 <= i < idx.len() ==> (#[trigger] q.indices@[i])@ == idx[i]
}

/// The token views of a borrowed token list.
pub open spec fn token_views(toks: Seq<&str>) -> Seq<Seq<char>> {
    toks.map_values(|t: &str| t@)
}

/// Reads `(name type)*` and the optional index names from `tokens[i..]`.
fn parse_fields(tokens: &Vec<&str>, i: usize) -> (r: Result<(Vec<FieldDef>, Vec<String>), ()>)
    requires
        i <= tokens@.len(),
    ensures
        r is Ok <==> spec_fields(token_views(tokens@).skip(i as int)) is Some,
        r matches Ok((fs, idx)) ==> ({
            &&& spec_fields(token_views(tokens@).skip(i as int)) matches Some(m)
            &&& fs@.len() == m.0.len()
            &&& forall|j: int|
                0 <= j < m.0.len() ==> (#[trigger] fs@[j]).name@ == m.0[j].0 && fs@[j].config
                    == m.0[j].1
            &&& idx@.len() == m.1.len()
            &&& forall|j: int| 0 <= j < m.1.len() ==> (#[trigger] idx@[j])@ == m.1[j]
        }),
    decreases tokens@.len() - i,
{
    let n = tokens.len();
    let ghost toks = token_views(tokens@);
    if i == n {
        let r: (Vec<FieldDef>, Vec<String>) = (Vec::new(), Vec::new());
        return Ok(r);
    }
    proof {
        assert(toks.skip(i as int)[0] == tokens@[i as int]@);
    }
    if str_eq(tokens[i], ":") {
        let mut idx: Vec<String> = Vec::new();
        let mut j: usize = i + 1;
        while j < n
            invariant
                i + 1 <= j <= n == tokens@.len(),
                toks == token_views(tokens@),
                idx@.len() == j - i - 1,
                forall|p: int| 0 <= p < idx@.len() ==> (#[trigger] idx@[p])@ == toks[i + 1 + p],
            decreases n - j,
        {
            idx.push(tokens[j].to_owned());
            j = j + 1;
        }
        proof {
            assert(toks.skip(i as int).drop_first() =~= toks.skip(i as int + 1));
            assert forall|p: int| 0 <= p < idx@.len() implies (#[trigger] idx@[p])@ == toks.skip(
                i as int,
            ).drop_first()[p] by {
                assert(toks.skip(i as int + 1)[p] == toks[i + 1 + p]);
            }
        }
        return Ok((Vec::new(), idx));
    }
    if i + 1 >= n {
        return Err(());
    }
    proof {
        assert(toks.skip(i as int)[1] == tokens@[i as int + 1]@);
        assert(toks.skip(i as int).skip(2) =~= toks.skip(i as int + 2));
    }
    let consumed: usize;
    let data_type: Type;
    if str_eq(tokens[i + 1], "int") {
        data_type = Type::Int;
        consumed = 2;
    } else if str_eq(tokens[i + 1], "varchar") {
        if i + 2 >= n {
            return Err(());
        }
        proof {
            assert(toks.skip(i as int)[2] == tokens@[i as int + 2]@);
            assert(toks.skip(i as int).skip(3) =~= toks.skip(i as int + 3));
        }
        match parse_u8(tokens[i + 2]) {
            Some(size) => {
                data_type = Type::Varchar(size);
                consumed = 3;
            },
            None => {
                return Err(());
            },
        }
    } else {
        return Err(());
    }
    match parse_fields(tokens, i + consumed) {
        Err(_) => Err(()),
        Ok((fs, idx)) => {
            let mut fs = fs;
            let ghost fs_before = fs@;
            fs.insert(0, FieldDef::new(tokens[i].to_owned(), data_type));
            proof {
                assert(fs@ =~= seq![fs@[0]] + fs_before);
            }
            Ok((fs, idx))
        },
    }
}

/// Parses a create request: `+ TABLE (FIELD TYPE)* (: INDEXFIELD*)?`.
pub fn parse_create_table(tokens: &Vec<&str>) -> (r: Result<Query, ()>)
    ensures
        r is Ok <==> spec_parse_create(token_views(tokens@)) is Some,
        r matches Ok(q) ==> ({
            &&& spec_parse_create(token_views(tokens@)) matches Some(m)
            &&& q matches Query::Create(cq)
            &&& spec_create_matches(cq, m.0, m.1, m.2)
        }),
{
    let n = tokens.len();
    let ghost toks = token_views(tokens@);
    if n < 4 {
        return Err(());
    }
    proof {
        assert(toks[0] == tokens@[0]@);
        assert(toks[1] == tokens@[1]@);
    }
    if !str_eq(tokens[0], "+") {
        return Err(());
    }
    let table_name = tokens[1];
    match parse_fields(tokens, 2) {
        Err(_) => Err(()),
        Ok((fields, indices)) => Ok(
            Query::Create(CreateQuery::new(table_name.to_owned(), fields, indices)),
        ),
    }
}

/// The projected column names of a select request: everything up to the
/// `>` that precedes the table name, and the tokens after that `>`.
pub open spec fn spec_cols(toks: Seq<Seq<char>>) -> Option<(Seq<Seq<char>>, Seq<Seq<char>>)>
    decreases toks.len(),
{
    if toks.len() == 0 {
        None
    } else if toks[0] == ">"@ {
        Some((Seq::<Seq<char>>::empty(), toks.drop_first()))
    } else {
        match spec_cols(toks.drop_first()) {
            Some((cs, rest)) => Some((seq![toks[0]] + cs, rest)),
            None => None,
        }
    }
}

/// The filter conditions of a select request: `(FIELD OP VALUE)*`.
pub open spec fn spec_conds(toks: Seq<Seq<char>>) -> Option<Seq<(Seq<char>, Seq<char>, Seq<char>)>>
    decreases toks.len(),
{
    if toks.len() == 0 {
        Some(Seq::<(Seq<char>, Seq<char>, Seq<char>)>::empty())
    } else if toks.len() < 3 {
        None
    } else {
        match spec_conds(toks.skip(3)) {
            Some(cs) => Some(seq![(toks[0], toks[1], toks[2])] + cs),
            None => None,
        }
    }
}

/// What a select request's tokens denote: the table name, the projected
/// columns, and the conditions.
pub open spec fn spec_parse_select(toks: Seq<Seq<char>>) -> Option<
    (Seq<char>, Seq<Seq<char>>, Seq<(Seq<char>, Seq<char>, Seq<char>)>),
> {
    if toks.len() < 4 || toks[0] != "?"@ {
        None
    } else {
        match spec_cols(toks.skip(1)) {
            Some((cs, rest)) => if rest.len() == 0 {
                None
            } else {
                let table = rest[0];
                let rest2 = rest.drop_first();
                if rest2.len() == 0 {
                    Some((table, cs, Seq::<(Seq<char>, Seq<char>, Seq<char>)>::empty()))
                } else if rest2[0] == ":"@ {
                    match spec_conds(rest2.drop_first()) {
                        Some(cds) => Some((table, cs, cds)),
                        None => None,
                    }
                } else {
                    None
                }
            },
            None => None,
        }
    }
}

/// The built query lists exactly the denoted table, columns and
/// conditions.
pub open spec fn spec_select_matches(
    q: SelectQuery,
    table: Seq<char>,
    cols: Seq<Seq<char>>,
    conds: Seq<(Seq<char>, Seq<char>, Seq<char>)>,
) -> bool {
    &&& q.table@ == table
    &&& q.columns@.len() == cols.len()
    &&& forall|i: int| 0 <= i < cols.len() ==> (#[trigger] q.columns@[i])@ == cols[i]
    &&& q.conditions@.len() == conds.len()
    &&& forall|i: int|
        0 <= i < conds.len() ==> (#[trigger] q.conditions@[i]).field_name@ == conds[i].0
            && q.conditions@[i].relation@ == conds[i].1 && q.conditions@[i].value@ == conds[i].2
}

/// Reads projected column names from `tokens[i..]` up to the `>` token.
fn parse_cols(tokens: &Vec<&str>, i: usize) -> (r: Result<(Vec<String>, usize), ()>)
    requires
        i <= tokens@.len(),
    ensures
        r is Ok <==> spec_cols(token_views(tokens@).skip(i as int)) is Some,
        r matches Ok((cs, after)) ==> ({
            &&& spec_cols(token_views(tokens@).skip(i as int)) matches Some(m)
            &&& cs@.len() == m.0.len()
            &&& forall|j: int| 0 <= j < m.0.len() ==> (#[trigger] cs@[j])@ == m.0[j]
            &&& i < after <= tokens@.len()
            &&& m.1 == token_views(tokens@).skip(after as int)
        }),
    decreases tokens@.len() - i,
{
    let n = tokens.len();
    let ghost toks = token_views(tokens@);
    if i == n {
        return Err(());
    }
    proof {
        assert(toks.skip(i as int)[0] == tokens@[i as int]@);
        assert(toks.skip(i as int).drop_first() =~= toks.skip(i as int + 1));
    }
    if str_eq(tokens[i], ">") {
        let r: (Vec<String>, usize) = (Vec::new(), i + 1);
        return Ok(r);
    }
    match parse_cols(tokens, i + 1) {
        Err(_) => Err(()),
        Ok((cs, after)) => {
            let mut cs = cs;
            cs.insert(0, tokens[i].to_owned());
            proof {
                assert(cs@ =~= seq![cs@[0]] + cs@.drop_first());
            }
            Ok((cs, after))
        },
    }
}

/// Reads `(FIELD OP VALUE)*` conditions from `tokens[i..]`.
fn parse_conds(tokens: &Vec<&str>, i: usize) -> (r: Result<Vec<FieldCondition>, ()>)
    requires
        i <= tokens@.len(),
    ensures
        r is Ok <==> spec_conds(token_views(tokens@).skip(i as int)) is Some,
        r matches Ok(cs) ==> ({
            &&& spec_conds(token_views(tokens@).skip(i as int)) matches Some(m)
            &&& cs@.len() == m.len()
            &&& forall|j: int|
                0 <= j < m.len() ==> (#[trigger] cs@[j]).field_name@ == m[j].0
                    && cs@[j].relation@ == m[j].1 && cs@[j].value@ == m[j].2
        }),
    decreases tokens@.len() - i,
{
    let n = tokens.len();
    let ghost toks = token_views(tokens@);
    if i == n {
        let r: Vec<FieldCondition> = Vec::new();
        return Ok(r);
    }
    if n - i < 3 {
        return Err(());
    }
    proof {
        assert(toks.skip(i as int)[0] == tokens@[i as int]@);
        assert(toks.skip(i as int)[1] == tokens@[i as int + 1]@);
        assert(toks.skip(i as int)[2] == tokens@[i as int + 2]@);
        assert(toks.skip(i as int).skip(3) =~= toks.skip(i as int + 3));
    }
    match parse_conds(tokens, i + 3) {
        Err(_) => Err(()),
        Ok(cs) => {
            let mut cs = cs;
            cs.insert(
                0,
                FieldCondition::new(
                    tokens[i].to_owned(),
                    tokens[i + 1].to_owned(),
                    tokens[i + 2].to_owned(),
                ),
            );
            proof {
                assert(cs@ =~= seq![cs@[0]] + cs@.drop_first());
            }
            Ok(cs)
        },
    }
}

/// Parses a select request: `? FIELD* > TABLE (: (FIELD OP VALUE)*)?`.
/// A request whose tokens do not fit that shape is rejected, never a
/// panic.
pub fn parse_select(tokens: &Vec<&str>) -> (r: Result<Query, ()>)
    ensures
        r is Ok <==> spec_parse_select(token_views(tokens@)) is Some,
        r matches Ok(q) ==> ({
            &&& spec_parse_select(token_views(tokens@)) matches Some(m)
            &&& q matches Query::Select(sq)
            &&& spec_select_matches(sq, m.0, m.1, m.2)
        }),
{
    let n = tokens.len();
    let ghost toks = token_views(tokens@);
    if n < 4 {
        return Err(());
    }
    proof {
        assert(toks[0] == tokens@[0]@);
    }
    if !str_eq(tokens[0], "?") {
        return Err(());
    }
    proof {
        assert(toks.skip(1) =~= toks.skip(1));
    }
    let (columns, after) = match parse_cols(tokens, 1) {
        Err(_) => {
            return Err(());
        },
        Ok(p) => p,
    };
    if after == n {
        return Err(());
    }
    proof {
        assert(toks.skip(after as int)[0] == tokens@[after as int]@);
        assert(toks.skip(after as int).drop_first() =~= toks.skip(after as int + 1));
    }
    let table = tokens[after];
    if after + 1 == n {
        return Ok(
            Query::Select(SelectQuery::new(table.to_owned(), columns, Vec::<FieldCondition>::new())),
        );
    }
    proof {
        assert(toks.skip(after as int + 1)[0] == tokens@[after as int + 1]@);
        assert(toks.skip(after as int + 1).drop_first() =~= toks.skip(after as int + 2));
    }
    if !str_eq(tokens[after + 1], ":") {
        return Err(());
    }
    match parse_conds(tokens, after + 2) {
        Err(_) => Err(()),
        Ok(conditions) => Ok(
            Query::Select(SelectQuery::new(table.to_owned(), columns, conditions)),
        ),
    }
}

/// A key–value list with `v` recorded under `k`: the first pair keyed `k`
/// is replaced, or a new pair appended.
pub open spec fn spec_upsert(
    ps: Seq<(Seq<char>, Seq<char>)>,
    k: Seq<char>,
    v: Seq<char>,
) -> Seq<(Seq<char>, Seq<char>)>
    decreases ps.len(),
{
    if ps.len() == 0 {
        seq![(k, v)]
    } else if ps[0].0 == k {
        seq![(k, v)] + ps.drop_first()
    } else {
        seq![ps[0]] + spec_upsert(ps.drop_first(), k, v)
    }
}

/// The key–value pairs `(KEY VALUE)*` folded left to right into `acc`,
/// a later value overwriting an earlier one under the same key.
pub open spec fn spec_pairs_into(
    acc: Seq<(Seq<char>, Seq<char>)>,
    toks: Seq<Seq<char>>,
) -> Option<Seq<(Seq<char>, Seq<char>)>>
    decreases toks.len(),
{
    if toks.len() == 0 {
        Some(acc)
    } else if toks.len() < 2 {
        None
    } else {
        spec_pairs_into(spec_upsert(acc, toks[0], toks[1]), toks.skip(2))
    }
}

/// What an insert request's tokens denote: the table name and the raw
/// column texts.
pub open spec fn spec_parse_insert(toks: Seq<Seq<char>>) -> Option<
    (Seq<char>, Seq<(Seq<char>, Seq<char>)>),
> {
    if toks.len() < 4 || toks[0] != ">"@ {
        None
    } else {
        match spec_pairs_into(Seq::<(Seq<char>, Seq<char>)>::empty(), toks.skip(2)) {
            Some(ps) => Some((toks[1], ps)),
            None => None,
        }
    }
}

/// The built query lists exactly the denoted table and raw texts.
pub open spec fn spec_insert_matches(
    q: InsertQuery,
    table: Seq<char>,
    ps: Seq<(Seq<char>, Seq<char>)>,
) -> bool {
    &&& q.table_name@ == table
    &&& q.raw_inserts@.map_values(|p: (String, String)| (p.0@, p.1@)) == ps
}

/// The spec-level view of an owned key–value pair.
pub open spec fn pair_views(ps: Seq<(String, String)>) -> Seq<(Seq<char>, Seq<char>)> {
    ps.map_values(|p: (String, String)| (p.0@, p.1@))
}

/// Upserting over the first matching pair is an update in place.
proof fn lemma_upsert_at(ps: Seq<(Seq<char>, Seq<char>)>, k: Seq<char>, v: Seq<char>, i: int)
    requires
        0 <= i < ps.len(),
        ps[i].0 == k,
        forall|j: int| 0 <= j < i ==> (#[trigger] ps[j]).0 != k,
    ensures
        spec_upsert(ps, k, v) == ps.update(i, (k, v)),
    decreases i,
{
    if i == 0 {
        assert(spec_upsert(ps, k, v) =~= ps.update(0, (k, v)));
    } else {
        assert forall|j: int| 0 <= j < i - 1 implies (#[trigger] ps.drop_first()[j]).0 != k by {
            assert(ps.drop_first()[j] == ps[j + 1]);
        }
        lemma_upsert_at(ps.drop_first(), k, v, i - 1);
        assert(ps[0].0 != k);
        assert(spec_upsert(ps, k, v) == seq![ps[0]] + ps.drop_first().update(i - 1, (k, v)));
        assert(seq![ps[0]] + ps.drop_first().update(i - 1, (k, v)) =~= ps.update(i, (k, v)));
    }
}

/// Upserting a key no pair holds appends a new pair.
proof fn lemma_upsert_none(ps: Seq<(Seq<char>, Seq<char>)>, k: Seq<char>, v: Seq<char>)
    requires
        forall|j: int| 0 <= j < ps.len() ==> (#[trigger] ps[j]).0 != k,
    ensures
        spec_upsert(ps, k, v) == ps.push((k, v)),
    decreases ps.len(),
{
    if ps.len() == 0 {
        assert(spec_upsert(ps, k, v) =~= ps.push((k, v)));
    } else {
        assert forall|j: int| 0 <= j < ps.drop_first().len() implies (
        #[trigger] ps.drop_first()[j]).0 != k by {
            assert(ps.drop_first()[j] == ps[j + 1]);
        }
        lemma_upsert_none(ps.drop_first(), k, v);
        assert(seq![ps[0]] + ps.drop_first().push((k, v)) =~= ps.push((k, v)));
    }
}

/// Records `value` under `key`: the first pair so keyed is replaced, or a
/// new pair appended — the overwrite a raw-insert mapping asks for.
fn upsert_pair(pairs: &mut Vec<(String, String)>, key: String, value: String)
    ensures
        pair_views(final(pairs)@) == spec_upsert(pair_views(old(pairs)@), key@, value@),
{
    let ghost before = pair_views(pairs@);
    match crate::engine::assoc_index(pairs, key.as_str()) {
        Some(i) => {
            let _ = pairs.remove(i);
            pairs.insert(i, (key, value));
            proof {
                assert forall|j: int| 0 <= j < i implies (#[trigger] before[j]).0 != key@ by {
                    assert(before[j].0 == old(pairs)@[j].0@);
                }
                assert(before[i as int].0 == key@);
                lemma_upsert_at(before, key@, value@, i as int);
                assert(pair_views(pairs@) =~= before.update(i as int, (key@, value@)));
            }
        },
        None => {
            pairs.push((key, value));
            proof {
                assert forall|j: int| 0 <= j < before.len() implies (#[trigger] before[j]).0
                    != key@ by {
                    crate::engine::lemma_assoc_none_no_match(old(pairs)@, key@);
                    assert(before[j].0 == old(pairs)@[j].0@);
                }
                lemma_upsert_none(before, key@, value@);
                assert(pair_views(pairs@) =~= before.push((key@, value@)));
            }
        },
    }
}

/// Folds `(KEY VALUE)*` pairs from `tokens[i..]` into `acc`.
fn parse_pairs(tokens: &Vec<&str>, i: usize, acc: Vec<(String, String)>) -> (r: Result<
    Vec<(String, String)>,
    (),
>)
    requires
        i <= tokens@.len(),
    ensures
        r is Ok <==> spec_pairs_into(pair_views(acc@), token_views(tokens@).skip(i as int)) is Some,
        r matches Ok(ps) ==> Some(pair_views(ps@)) == spec_pairs_into(
            pair_views(acc@),
            token_views(tokens@).skip(i as int),
        ),
    decreases tokens@.len() - i,
{
    let n = tokens.len();
    let ghost toks = token_views(tokens@);
    if i == n {
        return Ok(acc);
    }
    if n - i < 2 {
        return Err(());
    }
    proof {
        assert(toks.skip(i as int)[0] == tokens@[i as int]@);
        assert(toks.skip(i as int)[1] == tokens@[i as int + 1]@);
        assert(toks.skip(i as int).skip(2) =~= toks.skip(i as int + 2));
    }
    let mut acc = acc;
    upsert_pair(&mut acc, tokens[i].to_owned(), tokens[i + 1].to_owned());
    parse_pairs(tokens, i + 2, acc)
}

/// Parses an insert request: `> TABLE (FIELD VALUE)+`, a later value for
/// the same field overwriting an earlier one.
pub fn parse_insert(tokens: &Vec<&str>) -> (r: Result<Query, ()>)
    ensures
        r is Ok <==> spec_parse_insert(token_views(tokens@)) is Some,
        r matches Ok(q) ==> ({
            &&& spec_parse_insert(token_views(tokens@)) matches Some(m)
            &&& q matches Query::Insert(iq)
            &&& spec_insert_matches(iq, m.0, m.1)
        }),
{
    let n = tokens.len();
    let ghost toks = token_views(tokens@);
    if n < 4 {
        return Err(());
    }
    proof {
        assert(toks[0] == tokens@[0]@);
        assert(toks[1] == tokens@[1]@);
    }
    if !str_eq(tokens[0], ">") {
        return Err(());
    }
    let table_name = tokens[1];
    proof {
        assert(pair_views(Seq::<(String, String)>::empty()) =~= Seq::<
            (Seq<char>, Seq<char>),
        >::empty());
    }
    match parse_pairs(tokens, 2, Vec::new()) {
        Err(_) => Err(()),
        Ok(raw_inserts) => Ok(
            Query::Insert(InsertQuery::new(table_name.to_owned(), raw_inserts)),
        ),
    }
}

/// Splits a raw request into its space-separated tokens, outer whitespace
/// trimmed first.
pub fn tokenize<'a>(raw: &'a String) -> (r: Vec<&'a str>)
    ensures
        token_views(r@) == spec_split(spec_trim(raw@)),
{
    split_spaces(trim(raw.as_str()))
}

/// Whether a console line is meant for the engine: its first character
/// names a query kind.
pub open spec fn spec_looks_like_query(s: Seq<char>) -> bool {
    s.len() > 0 && ({
        let c = lower_char(s[0]) as u32;
        c == 63 || c == 43 || c == 62 || c == 58
    })
}

/// The spec-level denotation of a raw request: what kind of query it is
/// and every piece the structured query must carry.
pub ghost enum QueryModel {
    Create(Seq<char>, Seq<(Seq<char>, Type)>, Seq<Seq<char>>),
    Select(Seq<char>, Seq<Seq<char>>, Seq<(Seq<char>, Seq<char>, Seq<char>)>),
    Insert(Seq<char>, Seq<(Seq<char>, Seq<char>)>),
    Describe,
}

/// What a raw request denotes: the first token, lowered, picks the query
/// kind; the rest is parsed by that kind's grammar.
pub open spec fn spec_parse_query(raw: Seq<char>) -> Option<QueryModel> {
    let toks = spec_split(spec_trim(raw));
    if toks.len() == 0 {
        None
    } else {
        let h = lower(toks[0]);
        if h == "+"@ {
            match spec_parse_create(toks) {
                Some(m) => Some(QueryModel::Create(m.0, m.1, m.2)),
                None => None,
            }
        } else if h == "?"@ {
            match spec_parse_select(toks) {
                Some(m) => Some(QueryModel::Select(m.0, m.1, m.2)),
                None => None,
            }
        } else if h == ">"@ {
            match spec_parse_insert(toks) {
                Some(m) => Some(QueryModel::Insert(m.0, m.1)),
                None => None,
            }
        } else if h == ":db"@ {
            Some(QueryModel::Describe)
        } else {
            None
        }
    }
}

/// The structured query carries exactly what the raw request denotes.
pub open spec fn spec_query_matches(q: Query, m: QueryModel) -> bool {
    match (q, m) {
        (Query::Create(cq), QueryModel::Create(n, f, i)) => spec_create_matches(cq, n, f, i),
        (Query::Select(sq), QueryModel::Select(t, c, d)) => spec_select_matches(sq, t, c, d),
        (Query::Insert(iq), QueryModel::Insert(t, p)) => spec_insert_matches(iq, t, p),
        (Query::Describe(_), QueryModel::Describe) => true,
        _ => false,
    }
}

/// The textual front-end's parser.
#[derive(Debug, Default)]
pub struct QueryParser;

impl QueryParser {
    /// Whether a console line is meant for the engine rather than the
    /// console itself.
    pub fn looks_like_query(raw: &String) -> (r: bool)
        ensures
            r == spec_looks_like_query(raw@),
    {
        let s = raw.as_str();
        if s.unicode_len() == 0 {
            return false;
        }
        let c = s.get_char(0);
        let code = c as u32;
        let lowered: u32 = if 65 <= code && code <= 90 {
            code + 32
        } else {
            code
        };
        proof {
            assert(lowered == lower_char(raw@[0]) as u32);
        }
        lowered == 63 || lowered == 43 || lowered == 62 || lowered == 58
    }

    /// Parses one raw request into a structured query. Fails exactly when
    /// the request denotes nothing.
    pub fn parse(&self, raw: &String) -> (r: Result<Query, ()>)
        ensures
            r is Ok <==> spec_parse_query(raw@) is Some,
            r matches Ok(q) ==> ({
                &&& spec_parse_query(raw@) matches Some(m)
                &&& spec_query_matches(q, m)
            }),
    {
        let tokens = tokenize(raw);
        let ghost toks = token_views(tokens@);
        if tokens.len() == 0 {
            return Err(());
        }
        proof {
            assert(toks[0] == tokens@[0]@);
        }
        let head = to_lowercase(tokens[0]);
        if str_eq(head.as_str(), "+") {
            parse_create_table(&tokens)
        } else if str_eq(head.as_str(), "?") {
            parse_select(&tokens)
        } else if str_eq(head.as_str(), ">") {
            parse_insert(&tokens)
        } else if str_eq(head.as_str(), ":db") {
            Ok(Query::Describe(DescribeQuery))
        } else {
            Err(())
        }
    }
}

} // verus!
