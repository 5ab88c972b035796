//! Dispatch of structured queries to the engine. Every answer and every
//! persistence document is handed back as plain data; the caller performs
//! the file writes and reads around it.

use vstd::prelude::*;

use crate::engine::{
    has_dot, schema_wf, spec_assoc, spec_defs_size, spec_fresh_table, spec_inserted,
    spec_select_rows, spec_select_valid, Engine,
};
use crate::query::Query;
use crate::query_parser::{spec_parse_query, spec_query_matches, QueryParser};
use crate::table_sync::{
    schema_defs, spec_decode_defs, spec_defs_doc, spec_models_size, spec_rows_blob, TableSyncer,
};
use crate::util::Val;

verus! {

/// What the engine answers: a bare success marker for the mutating
/// operations, the selected rows, or the database description.
#[derive(Debug)]
pub enum Response {
    Done,
    Rows(Vec<Vec<Val>>),
    Description(String),
}

/// The engine behind its dispatcher, with the persistence helper beside
/// it. Everything but the file I/O is decided here.
#[derive(Debug)]
pub struct EngineOperator {
    pub engine: Engine,
    pub table_syncer: TableSyncer,
}

impl Default for EngineOperator {
    /// An operator over an empty database.
    fn default() -> (r: EngineOperator)
        ensures
            r.wf(),
            r.engine.tables@.len() == 0,
    {
        EngineOperator { engine: Engine::default(), table_syncer: TableSyncer {  } }
    }
}

/// How executing `query` relates the operator's state and answer to the
/// request: create installs a fresh table when the engine accepts the
/// name and width, and is otherwise ignored; insert appends to the named
/// table when it exists, and is otherwise ignored; select answers the
/// filtered projection or fails; describe renders the database.
pub open spec fn spec_execute_post(
    pre: EngineOperator,
    post: EngineOperator,
    query: Query,
    r: Result<Response, ()>,
) -> bool {
    match query {
        Query::Create(q) => {
            &&& r matches Ok(Response::Done)
            &&& if !has_dot(q.table@) && spec_defs_size(q.fields@) <= usize::MAX {
                ({
                    &&& spec_assoc(post.engine.tables@, q.table@) matches Some(t)
                    &&& spec_fresh_table(t, q.fields@, q.indices@)
                    &&& forall|other: Seq<char>|
                        other != q.table@ ==> #[trigger] spec_assoc(post.engine.tables@, other)
                            == spec_assoc(pre.engine.tables@, other)
                })
            } else {
                post.engine == pre.engine
            }
        },
        Query::Insert(q) => {
            &&& r matches Ok(Response::Done)
            &&& match spec_assoc(pre.engine.tables@, q.table_name@) {
                Some(t0) => {
                    &&& spec_assoc(post.engine.tables@, q.table_name@) matches Some(t1)
                    &&& spec_inserted(t0, t1, q.raw_inserts@)
                    &&& forall|other: Seq<char>|
                        other != q.table_name@ ==> #[trigger] spec_assoc(
                            post.engine.tables@,
                            other,
                        ) == spec_assoc(pre.engine.tables@, other)
                },
                None => post.engine == pre.engine,
            }
        },
        Query::Select(q) => {
            &&& post.engine == pre.engine
            &&& r is Ok <==> spec_select_valid(pre.engine.tables@, q)
            &&& r matches Ok(resp) ==> ({
                &&& resp matches Response::Rows(rows)
                &&& spec_assoc(pre.engine.tables@, q.table@) matches Some(t)
                &&& rows.deep_view() == spec_select_rows(
                    t.spec_rows(),
                    t.schema@,
                    q.columns@,
                    q.conditions@,
                )
            })
        },
        Query::Describe(_) => {
            &&& post.engine == pre.engine
            &&& r matches Ok(Response::Description(text))
            &&& text@ == crate::engine::spec_describe(pre.engine.tables@)
        },
    }
}

impl EngineOperator {
    /// The database behind the operator is consistent.
    pub open spec fn wf(&self) -> bool {
        self.engine.wf()
    }

    /// Reconstructs a table from a definition document read at start-up
    /// and installs it under `name`, overwriting a prior table of that
    /// name. Fails exactly when the document does not decode or its row
    /// would not fit the address space; the failure changes nothing.
    pub fn load_table(&mut self, name: String, doc: &Vec<u8>) -> (r: Result<(), ()>)
        requires
            old(self).wf(),
        ensures
            final(self).wf(),
            r is Ok <==> ({
                &&& spec_decode_defs(doc@) matches Some(ds)
                &&& spec_models_size(ds) <= usize::MAX
            }),
            r is Err ==> *final(self) == *old(self),
            r is Ok ==> ({
                &&& spec_decode_defs(doc@) matches Some(ds)
                &&& spec_assoc(final(self).engine.tables@, name@) matches Some(t)
                &&& t.wf()
                &&& schema_wf(t.schema@)
                &&& t.schema@.len() == ds.len()
                &&& (forall|i: int|
                    0 <= i < ds.len() ==> (#[trigger] t.schema@[i]).name@ == ds[i].0
                        && t.schema@[i].field_def.config == ds[i].1)
                &&& t.spec_rows() == Seq::<Seq<u8>>::empty()
                &&& t.spec_index_count() == 0
                &&& forall|other: Seq<char>|
                    other != name@ ==> #[trigger] spec_assoc(final(self).engine.tables@, other)
                        == spec_assoc(old(self).engine.tables@, other)
            }),
    {
        match self.table_syncer.table_from_document(doc) {
            None => Err(()),
            Some(table) => {
                self.engine.install_table(name, table);
                Ok(())
            },
        }
    }

    /// Executes one structured query. A create or insert the engine
    /// refuses is logged-and-ignored in spirit: the answer is still the
    /// success marker and the database is simply unchanged. Only an
    /// unanswerable select fails.
    pub fn execute(&mut self, query: Query) -> (r: Result<Response, ()>)
        requires
            old(self).wf(),
        ensures
            final(self).wf(),
            spec_execute_post(*old(self), *final(self), query, r),
    {
        match query {
            Query::Create(q) => {
                let _ = self.engine.create_table(q);
                Ok(Response::Done)
            },
            Query::Insert(q) => {
                let _ = self.engine.insert(q);
                Ok(Response::Done)
            },
            Query::Select(q) => {
                match self.engine.select(q) {
                    Ok(rows) => Ok(Response::Rows(rows)),
                    Err(_) => Err(()),
                }
            },
            Query::Describe(_) => Ok(Response::Description(self.engine.describe_db())),
        }
    }

    /// The persistence documents for every table, in table order: the
    /// table's name, its definition document, and its row-data blob. The
    /// caller overwrites each table's two sidecar files from these after
    /// a mutating query.
    pub fn sync_documents(&self) -> (r: Vec<(String, Vec<u8>, Vec<u8>)>)
        ensures
            r@.len() == self.engine.tables@.len(),
            forall|i: int|
                0 <= i < r@.len() ==> ({
                    &&& (#[trigger] r@[i]).0 == self.engine.tables@[i].0
                    &&& r@[i].1@ == spec_defs_doc(schema_defs(self.engine.tables@[i].1.schema@))
                    &&& r@[i].2@ == spec_rows_blob(self.engine.tables@[i].1.spec_rows())
                }),
    {
        let mut out: Vec<(String, Vec<u8>, Vec<u8>)> = Vec::new();
        let n = self.engine.tables.len();
        let mut i: usize = 0;
        while i < n
            invariant
                0 <= i <= n == self.engine.tables@.len(),
                out@.len() == i,
                forall|j: int|
                    0 <= j < i ==> ({
                        &&& (#[trigger] out@[j]).0 == self.engine.tables@[j].0
                        &&& out@[j].1@ == spec_defs_doc(
                            schema_defs(self.engine.tables@[j].1.schema@),
                        )
                        &&& out@[j].2@ == spec_rows_blob(self.engine.tables@[j].1.spec_rows())
                    }),
            decreases n - i,
        {
            let name = self.engine.tables[i].0.clone();
            let def_doc = self.table_syncer.definition_document(&self.engine.tables[i].1.schema);
            let blob = self.table_syncer.data_blob(&self.engine.tables[i].1.data);
            out.push((name, def_doc, blob));
            i = i + 1;
        }
        out
    }

    /// Parses and executes one raw command line, as the request handler
    /// does for each incoming body. A line that denotes no query fails
    /// and changes nothing.
    pub fn execute_raw_command(&mut self, raw: &String) -> (r: Result<Response, ()>)
        requires
            old(self).wf(),
        ensures
            final(self).wf(),
            spec_parse_query(raw@) is None ==> r is Err && *final(self) == *old(self),
            spec_parse_query(raw@) matches Some(m) ==> exists|q: Query|
                #[trigger] spec_query_matches(q, m) && spec_execute_post(
                    *old(self),
                    *final(self),
                    q,
                    r,
                ),
    {
        let parser = QueryParser;
        match parser.parse(raw) {
            Err(_) => Err(()),
            Ok(query) => {
                let ghost gq = query;
                let r = self.execute(query);
                proof {
                    let m = spec_parse_query(raw@)->Some_0;
                    assert(spec_query_matches(gq, m) && spec_execute_post(
                        *old(self),
                        *final(self),
                        gq,
                        r,
                    ));
                }
                r
            },
        }
    }

}

} // verus!
