//! Persistence of tables: a table's definition rendered as a byte
//! document and read back, its rows as one flat blob, and the names of
//! the two sidecar files. The file reads and writes themselves live with
//! the caller; everything here is plain data.
//!
//! A definition document lists the columns in schema order. Each column
//! is its name's length in eight little-endian bytes, the name one byte
//! per character, a type tag (`0` for `Int`, `1` for `Text`), and the
//! text capacity (zero for `Int`).

use vstd::prelude::*;

use vstd::string::StringExecFns;

use crate::engine::{
    bytes_chars, chars_bytes, le_bytes, le_val, lemma_le_round_trip, pow256,
    restructure_field_def_list, schema_matches, schema_wf, spec_defs_size, spec_row_size,
    spec_size_of, ColumnInfo, Schema, Table,
};
use crate::query::{FieldDef, Type};

verus! {

/// The document bytes for one column definition.
pub open spec fn spec_def_doc(name: Seq<char>, t: Type) -> Seq<u8> {
    le_bytes(name.len(), 8) + chars_bytes(name) + seq![
        match t {
            Type::Int => 0u8,
            Type::Varchar(_) => 1u8,
        },
        match t {
            Type::Int => 0u8,
            Type::Varchar(n) => n,
        },
    ]
}

/// The document bytes for an ordered definition list.
pub open spec fn spec_defs_doc(defs: Seq<FieldDef>) -> Seq<u8>
    decreases defs.len(),
{
    if defs.len() == 0 {
        Seq::<u8>::empty()
    } else {
        spec_def_doc(defs[0].name@, defs[0].config) + spec_defs_doc(defs.drop_first())
    }
}

/// One more definition appends its own bytes.
proof fn lemma_defs_doc_snoc(defs: Seq<FieldDef>, d: FieldDef)
    ensures
        spec_defs_doc(defs.push(d)) == spec_defs_doc(defs) + spec_def_doc(d.name@, d.config),
    decreases defs.len(),
{
    if defs.len() == 0 {
        assert(defs.push(d)[0] == d);
        assert(defs.push(d).drop_first() =~= Seq::<FieldDef>::empty());
        assert(spec_defs_doc(Seq::<FieldDef>::empty()) == Seq::<u8>::empty());
        assert(Seq::<u8>::empty() + spec_def_doc(d.name@, d.config) =~= spec_def_doc(
            d.name@,
            d.config,
        ));
        assert(spec_def_doc(d.name@, d.config) + Seq::<u8>::empty() =~= spec_def_doc(
            d.name@,
            d.config,
        ));
    } else {
        assert(defs.push(d)[0] == defs[0]);
        assert(defs.push(d).drop_first() =~= defs.drop_first().push(d));
        lemma_defs_doc_snoc(defs.drop_first(), d);
        assert(spec_def_doc(defs[0].name@, defs[0].config) + (spec_defs_doc(defs.drop_first())
            + spec_def_doc(d.name@, d.config)) =~= (spec_def_doc(defs[0].name@, defs[0].config)
            + spec_defs_doc(defs.drop_first())) + spec_def_doc(d.name@, d.config));
    }
}

/// The column definitions a document denotes: name and type pairs, in
/// order; nothing when the bytes do not fit the layout exactly.
pub open spec fn spec_decode_defs(doc: Seq<u8>) -> Option<Seq<(Seq<char>, Type)>>
    decreases doc.len(),
{
    if doc.len() == 0 {
        Some(Seq::<(Seq<char>, Type)>::empty())
    } else if doc.len() < 10 {
        None
    } else {
        let name_len = le_val(doc.take(8)) as int;
        if name_len > doc.len() - 10 {
            None
        } else {
            let name = bytes_chars(doc.subrange(8, 8 + name_len));
            let tag = doc[8 + name_len];
            let cap = doc[8 + name_len + 1];
            let rest = doc.skip(10 + name_len);
            if tag == 0 {
                match spec_decode_defs(rest) {
                    Some(ds) => Some(seq![(name, Type::Int)] + ds),
                    None => None,
                }
            } else if tag == 1 {
                match spec_decode_defs(rest) {
                    Some(ds) => Some(seq![(name, Type::Varchar(cap))] + ds),
                    None => None,
                }
            } else {
                None
            }
        }
    }
}

/// Appends the eight little-endian bytes of `v`.
fn push_le_u64(out: &mut Vec<u8>, v: u64)
    ensures
        final(out)@ == old(out)@ + le_bytes(v as nat, 8),
{
    let ghost before = out@;
    let mut cur: u64 = v;
    let mut i: usize = 0;
    proof {
        assert(pow256(0) == 1);
        assert(v as nat / 1 == v as nat);
        assert(before + le_bytes(v as nat, 0) =~= before);
    }
    while i < 8
        invariant
            0 <= i <= 8,
            cur as nat == (v as nat) / pow256(i as nat),
            out@ == before + le_bytes(v as nat, i as nat),
        decreases 8 - i,
    {
        let b = (cur % 256) as u8;
        proof {
            crate::engine::lemma_pow256_pos(i as nat);
            crate::engine::lemma_le_bytes_snoc(v as nat, i as nat);
            vstd::arithmetic::div_mod::lemma_div_denominator(
                v as int,
                pow256(i as nat) as int,
                256,
            );
            assert(pow256(i as nat + 1) == 256 * pow256(i as nat));
            assert(pow256(i as nat) * 256 == 256 * pow256(i as nat)) by (nonlinear_arith);
            assert((before + le_bytes(v as nat, i as nat)).push(b) =~= before + le_bytes(
                v as nat,
                i as nat + 1,
            ));
        }
        out.push(b);
        cur = cur / 256;
        i = i + 1;
    }
}

/// Appends the name's characters, one byte each.
fn push_chars(out: &mut Vec<u8>, s: &str)
    ensures
        final(out)@ == old(out)@ + chars_bytes(s@),
{
    let ghost before = out@;
    let n = s.unicode_len();
    let mut i: usize = 0;
    proof {
        assert(before + chars_bytes(s@.take(0)) =~= before);
    }
    while i < n
        invariant
            0 <= i <= n == s@.len(),
            out@ == before + chars_bytes(s@.take(i as int)),
        decreases n - i,
    {
        let c = s.get_char(i);
        let b = #[verifier::truncate] ((c as u32) as u8);
        proof {
            assert(chars_bytes(s@.take(i as int + 1)) =~= chars_bytes(s@.take(i as int)).push(
                (s@[i as int] as u32) as u8,
            ));
            assert((before + chars_bytes(s@.take(i as int))).push(b) =~= before + chars_bytes(
                s@.take(i as int + 1),
            ));
        }
        out.push(b);
        i = i + 1;
    }
    proof {
        assert(s@.take(n as int) =~= s@);
    }
}

/// The column definitions a schema lists, in order.
pub open spec fn schema_defs(cols: Seq<ColumnInfo>) -> Seq<FieldDef> {
    cols.map_values(|c: ColumnInfo| c.field_def)
}

/// Reads the eight little-endian bytes at `pos` back as a number.
fn read_le_u64(doc: &Vec<u8>, pos: usize) -> (r: u64)
    requires
        pos + 8 <= doc@.len(),
    ensures
        r as nat == le_val(doc@.subrange(pos as int, pos as int + 8)),
{
    let ghost bs = doc@.subrange(pos as int, pos as int + 8);
    let mut val: u64 = 0;
    let mut i: usize = 8;
    proof {
        assert(doc.len() == doc@.len());
        reveal_with_fuel(pow256, 9);
        assert(pow256(8) == 0x1_0000_0000_0000_0000);
        assert(bs.subrange(8, 8) =~= Seq::<u8>::empty());
    }
    while i > 0
        invariant
            0 <= i <= 8,
            pos + 8 <= doc@.len() <= usize::MAX,
            bs == doc@.subrange(pos as int, pos as int + 8),
            val as nat == le_val(bs.subrange(i as int, 8)),
            (val as nat) < pow256((8 - i) as nat),
            pow256(8) == 0x1_0000_0000_0000_0000,
        decreases i,
    {
        i = i - 1;
        let b = doc[pos + i];
        proof {
            let tail = bs.subrange(i as int, 8);
            assert(tail.drop_first() =~= bs.subrange(i as int + 1, 8));
            assert(tail[0] == bs[i as int]);
            assert(bs[i as int] == doc@[pos + i]);
            assert(pow256((8 - i) as nat) == 256 * pow256((8 - i - 1) as nat));
            crate::engine::lemma_pow256_mono((8 - i) as nat, 8);
        }
        val = val * 256 + b as u64;
    }
    proof {
        assert(bs.subrange(0, 8) =~= bs);
    }
    val
}

/// Persists and reconstructs tables as plain byte documents.
#[derive(Debug, Default)]
pub struct TableSyncer {}

impl TableSyncer {
    /// Renders a table's schema as its definition document.
    pub fn definition_document(&self, schema: &Schema) -> (r: Vec<u8>)
        ensures
            r@ == spec_defs_doc(schema_defs(schema@)),
    {
        let mut out: Vec<u8> = Vec::new();
        let n = schema.len();
        let mut i: usize = 0;
        proof {
            assert(schema_defs(schema@.take(0)) =~= Seq::<FieldDef>::empty());
        }
        while i < n
            invariant
                0 <= i <= n == schema@.len(),
                out@ == spec_defs_doc(schema_defs(schema@.take(i as int))),
            decreases n - i,
        {
            let ci = &schema[i];
            let name = ci.field_def.name.as_str();
            let ghost out0 = out@;
            push_le_u64(&mut out, name.unicode_len() as u64);
            push_chars(&mut out, name);
            match ci.field_def.config {
                Type::Int => {
                    out.push(0);
                    out.push(0);
                },
                Type::Varchar(cap) => {
                    out.push(1);
                    out.push(cap);
                },
            }
            proof {
                let d = schema@[i as int].field_def;
                assert(out@ =~= out0 + spec_def_doc(d.name@, d.config));
                lemma_defs_doc_snoc(schema_defs(schema@.take(i as int)), d);
                assert(schema_defs(schema@.take(i as int + 1)) =~= schema_defs(
                    schema@.take(i as int),
                ).push(d));
            }
            i = i + 1;
        }
        proof {
            assert(schema@.take(n as int) =~= schema@);
        }
        out
    }

    /// Reconstructs a table from a definition document: the original
    /// schema, an empty row sequence — the data blob is never read back —
    /// and no indices. Nothing when the document does not fit the layout
    /// or its row would not fit the address space.
    pub fn table_from_document(&self, doc: &Vec<u8>) -> (r: Option<Table>)
        ensures
            match spec_decode_defs(doc@) {
                None => r is None,
                Some(ds) => if spec_models_size(ds) <= usize::MAX {
                    ({
                        &&& r matches Some(t)
                        &&& t.wf()
                        &&& schema_wf(t.schema@)
                        &&& t.schema@.len() == ds.len()
                        &&& forall|i: int|
                            0 <= i < ds.len() ==> (#[trigger] t.schema@[i]).name@ == ds[i].0
                                && t.schema@[i].field_def.config == ds[i].1
                        &&& t.spec_rows() == Seq::<Seq<u8>>::empty()
                        &&& t.spec_index_count() == 0
                    })
                } else {
                    r is None
                },
            },
    {
        let defs = match decode_defs(doc, 0) {
            None => {
                proof {
                    assert(doc@.skip(0) =~= doc@);
                }
                return None;
            },
            Some(defs) => defs,
        };
        proof {
            assert(doc@.skip(0) =~= doc@);
        }
        let nf = defs.len();
        let mut total: u128 = 0;
        let mut i: usize = 0;
        proof {
            assert(defs@.take(0) =~= Seq::<FieldDef>::empty());
        }
        while i < nf
            invariant
                nf == defs@.len(),
                0 <= i <= nf,
                total == spec_defs_size(defs@.take(i as int)),
                total <= 255 * i,
            decreases nf - i,
        {
            let size = crate::engine::size_of_type(&defs[i].config);
            proof {
                crate::engine::lemma_defs_size_take_succ(defs@, i as int);
                assert(spec_size_of(defs@[i as int].config) <= 255);
            }
            total = total + size as u128;
            i = i + 1;
        }
        proof {
            assert(defs@.take(nf as int) =~= defs@);
        }
        if total > usize::MAX as u128 {
            proof {
                lemma_models_size(defs@);
            }
            return None;
        }
        proof {
            lemma_models_size(defs@);
        }
        let cols = restructure_field_def_list(defs);
        proof {
            crate::engine::lemma_schema_row_size(cols@, defs@);
        }
        Some(Table::new_with_schema(cols))
    }

    /// Renders the stored rows as one flat blob of concatenated row
    /// bytes.
    pub fn data_blob(&self, data: &Vec<Vec<u8>>) -> (r: Vec<u8>)
        ensures
            r@ == spec_rows_blob(data@.map_values(|row: Vec<u8>| row@)),
    {
        let mut out: Vec<u8> = Vec::new();
        let n = data.len();
        let mut i: usize = 0;
        let ghost rows = data@.map_values(|row: Vec<u8>| row@);
        proof {
            assert(spec_rows_blob(rows.take(0)) =~= Seq::<u8>::empty());
        }
        while i < n
            invariant
                0 <= i <= n == data@.len(),
                rows == data@.map_values(|row: Vec<u8>| row@),
                out@ == spec_rows_blob(rows.take(i as int)),
            decreases n - i,
        {
            let row = &data[i];
            let m = row.len();
            let mut j: usize = 0;
            let ghost out0 = out@;
            while j < m
                invariant
                    0 <= j <= m == row@.len(),
                    out@ == out0 + row@.take(j as int),
                decreases m - j,
            {
                proof {
                    assert((out0 + row@.take(j as int)).push(row@[j as int]) =~= out0 + row@.take(
                        j as int + 1,
                    ));
                }
                out.push(row[j]);
                j = j + 1;
            }
            proof {
                assert(row@.take(m as int) =~= row@);
                assert(rows.take(i as int + 1).drop_last() =~= rows.take(i as int));
                assert(rows.take(i as int + 1).last() == row@);
                lemma_rows_blob_snoc(rows.take(i as int), row@);
            }
            i = i + 1;
        }
        proof {
            assert(rows.take(n as int) =~= rows);
        }
        out
    }

    /// The definition file's name for a table: `NAME.tdb.table`.
    pub fn definition_file_name(&self, name: &String) -> (r: String)
        ensures
            r@ == name@ + ".tdb.table"@,
    {
        let mut r = name.clone();
        r.append(".tdb.table");
        r
    }

    /// The data file's name for a table: `NAME.tdb.data`.
    pub fn data_file_name(&self, name: &String) -> (r: String)
        ensures
            r@ == name@ + ".tdb.data"@,
    {
        let mut r = name.clone();
        r.append(".tdb.data");
        r
    }
}

/// The concatenated bytes of the stored rows, oldest first.
pub open spec fn spec_rows_blob(rows: Seq<Seq<u8>>) -> Seq<u8>
    decreases rows.len(),
{
    if rows.len() == 0 {
        Seq::<u8>::empty()
    } else {
        spec_rows_blob(rows.drop_last()) + rows.last()
    }
}

/// One more row appends its own bytes.
proof fn lemma_rows_blob_snoc(rows: Seq<Seq<u8>>, row: Seq<u8>)
    ensures
        spec_rows_blob(rows.push(row)) == spec_rows_blob(rows) + row,
{
    assert(rows.push(row).drop_last() =~= rows);
    assert(rows.push(row).last() == row);
}

/// The total byte width the decoded definitions ask for.
pub open spec fn spec_models_size(ds: Seq<(Seq<char>, Type)>) -> nat
    decreases ds.len(),
{
    if ds.len() == 0 {
        0
    } else {
        spec_models_size(ds.drop_last()) + spec_size_of(ds.last().1)
    }
}

/// Decoded models and built definitions ask for the same width.
proof fn lemma_models_size(defs: Seq<FieldDef>)
    ensures
        spec_models_size(defs.map_values(|d: FieldDef| (d.name@, d.config))) == spec_defs_size(
            defs,
        ),
    decreases defs.len(),
{
    let ms = defs.map_values(|d: FieldDef| (d.name@, d.config));
    if defs.len() > 0 {
        lemma_models_size(defs.drop_last());
        assert(ms.drop_last() =~= defs.drop_last().map_values(|d: FieldDef| (d.name@, d.config)));
        assert(ms.last() == (defs.last().name@, defs.last().config));
    }
}

/// A column name the document format carries exactly: single-byte
/// characters, length within the length field's range.
pub open spec fn name_clean(name: Seq<char>) -> bool {
    name.len() <= u64::MAX && forall|j: int|
        0 <= j < name.len() ==> (#[trigger] name[j]) as u32 <= 255
}

/// Bytes written one per character read back as the same characters.
proof fn lemma_chars_bytes_chars(s: Seq<char>)
    requires
        forall|i: int| 0 <= i < s.len() ==> (#[trigger] s[i]) as u32 <= 255,
    ensures
        bytes_chars(chars_bytes(s)) == s,
{
    assert forall|j: int| 0 <= j < s.len() implies #[trigger] bytes_chars(chars_bytes(s))[j]
        == s[j] by {
        let c = s[j];
        let code = c as u32;
        assert(code <= 255);
        let b = code as u8;
        assert(b as u32 == code);
        assert((b as char) as u32 == b as u32);
        vstd::utf8::char_u32_cast(c, code);
        vstd::utf8::char_u32_cast(b as char, code);
        assert(chars_bytes(s)[j] == b);
    }
    assert(bytes_chars(chars_bytes(s)) =~= s);
}

/// Law: a definition document decodes back to exactly the definitions it
/// was rendered from. Schema persistence round-trips; row data does not:
/// a reconstructed table starts empty, as [`TableSyncer::table_from_document`]
/// states.
pub proof fn lemma_defs_doc_round_trip(defs: Seq<FieldDef>)
    requires
        forall|i: int| 0 <= i < defs.len() ==> name_clean((#[trigger] defs[i]).name@),
    ensures
        spec_decode_defs(spec_defs_doc(defs)) == Some(
            defs.map_values(|d: FieldDef| (d.name@, d.config)),
        ),
    decreases defs.len(),
{
    if defs.len() == 0 {
        assert(defs.map_values(|d: FieldDef| (d.name@, d.config)) =~= Seq::<
            (Seq<char>, Type),
        >::empty());
    } else {
        let d = defs[0];
        let name = d.name@;
        let len = name.len();
        let head = spec_def_doc(name, d.config);
        let rest_doc = spec_defs_doc(defs.drop_first());
        let doc = spec_defs_doc(defs);
        assert(doc == head + rest_doc);
        crate::engine::lemma_le_bytes_len(len, 8);
        assert(chars_bytes(name).len() == len);
        assert(head.len() == 10 + len);
        assert(doc.len() == 10 + len + rest_doc.len());
        assert(doc.take(8) =~= le_bytes(len, 8));
        lemma_le_round_trip(len, 8);
        reveal_with_fuel(pow256, 9);
        assert(pow256(8) == 0x1_0000_0000_0000_0000);
        vstd::arithmetic::div_mod::lemma_small_mod(len, pow256(8));
        assert(le_val(doc.take(8)) == len);
        assert(doc.subrange(8, 8 + len as int) =~= chars_bytes(name));
        assert forall|j: int| 0 <= j < len implies (#[trigger] name[j]) as u32 <= 255 by {
            assert(name_clean(defs[0].name@));
        }
        lemma_chars_bytes_chars(name);
        assert(doc[8 + len as int] == head[8 + len as int]);
        assert(doc[8 + len as int + 1] == head[8 + len as int + 1]);
        assert(doc.skip(10 + len as int) =~= rest_doc);
        assert forall|i: int| 0 <= i < defs.drop_first().len() implies name_clean(
            (#[trigger] defs.drop_first()[i]).name@,
        ) by {
            assert(defs.drop_first()[i] == defs[i + 1]);
            assert(name_clean(defs[i + 1].name@));
        }
        lemma_defs_doc_round_trip(defs.drop_first());
        assert(defs.map_values(|x: FieldDef| (x.name@, x.config)) =~= seq![(name, d.config)]
            + defs.drop_first().map_values(|x: FieldDef| (x.name@, x.config)));
    }
}

/// Law: rendering a well-formed table's definition and reading the
/// document back yields exactly its column names and types, and a row
/// width that still fits the machine — so reconstruction succeeds, with
/// the same derived layout and, per the documented persistence gap, zero
/// rows.
pub proof fn lemma_table_definition_round_trip(t: Table)
    requires
        t.wf(),
        forall|i: int| 0 <= i < t.schema@.len() ==> name_clean((#[trigger] t.schema@[i]).name@),
    ensures
        ({
            let ds = spec_decode_defs(spec_defs_doc(schema_defs(t.schema@)));
            &&& ds matches Some(m)
            &&& m.len() == t.schema@.len()
            &&& forall|i: int|
                0 <= i < m.len() ==> (#[trigger] m[i]).0 == t.schema@[i].name@ && m[i].1
                    == t.schema@[i].field_def.config
            &&& spec_models_size(m) == spec_row_size(t.schema@)
            &&& spec_models_size(m) <= usize::MAX
        }),
{
    let defs = schema_defs(t.schema@);
    assert forall|i: int| 0 <= i < defs.len() implies name_clean((#[trigger] defs[i]).name@) by {
        assert(defs[i] == t.schema@[i].field_def);
        assert(crate::engine::ci_wf(t.schema@[i]));
        assert(name_clean(t.schema@[i].name@));
    }
    lemma_defs_doc_round_trip(defs);
    let m = defs.map_values(|d: FieldDef| (d.name@, d.config));
    assert forall|i: int| 0 <= i < m.len() implies (#[trigger] m[i]).0 == t.schema@[i].name@
        && m[i].1 == t.schema@[i].field_def.config by {
        assert(crate::engine::ci_wf(t.schema@[i]));
    }
    lemma_models_size(defs);
    assert(schema_matches(t.schema@, defs));
    crate::engine::lemma_schema_row_size(t.schema@, defs);
}

/// Reads column definitions from `doc[pos..]`.
fn decode_defs(doc: &Vec<u8>, pos: usize) -> (r: Option<Vec<FieldDef>>)
    requires
        pos <= doc@.len(),
    ensures
        r is Some <==> spec_decode_defs(doc@.skip(pos as int)) is Some,
        r matches Some(fs) ==> Some(
            fs@.map_values(|d: FieldDef| (d.name@, d.config)),
        ) == spec_decode_defs(doc@.skip(pos as int)),
    decreases doc@.len() - pos,
{
    let n = doc.len();
    let ghost tail = doc@.skip(pos as int);
    if pos == n {
        let fs: Vec<FieldDef> = Vec::new();
        proof {
            assert(fs@.map_values(|d: FieldDef| (d.name@, d.config)) =~= Seq::<
                (Seq<char>, Type),
            >::empty());
        }
        return Some(fs);
    }
    if n - pos < 10 {
        return None;
    }
    proof {
        assert(tail.take(8) =~= doc@.subrange(pos as int, pos as int + 8));
    }
    let name_len_u = read_le_u64(doc, pos);
    if name_len_u > (n - pos - 10) as u64 {
        return None;
    }
    let name_len = name_len_u as usize;
    let mut name = String::new();
    let mut j: usize = 0;
    let ghost name_chars = bytes_chars(tail.subrange(8, 8 + name_len as int));
    proof {
        assert(name_chars.len() == name_len);
    }
    while j < name_len
        invariant
            0 <= j <= name_len,
            pos + 10 + name_len <= n == doc@.len() <= usize::MAX,
            tail == doc@.skip(pos as int),
            name_chars == bytes_chars(tail.subrange(8, 8 + name_len as int)),
            name_chars.len() == name_len,
            name@ == name_chars.take(j as int),
        decreases name_len - j,
    {
        let b = doc[pos + 8 + j];
        proof {
            assert(tail.subrange(8, 8 + name_len as int)[j as int] == doc@[pos + 8 + j]);
            assert(name_chars[j as int] == b as char);
            assert(name_chars.take(j as int + 1) =~= name_chars.take(j as int).push(
                name_chars[j as int],
            ));
        }
        name.push(b as char);
        j = j + 1;
    }
    proof {
        assert(name_chars.take(name_len as int) =~= name_chars);
    }
    let tag = doc[pos + 8 + name_len];
    let cap = doc[pos + 8 + name_len + 1];
    proof {
        assert(tail[8 + name_len as int] == doc@[pos + 8 + name_len]);
        assert(tail[8 + name_len as int + 1] == doc@[pos + 8 + name_len + 1]);
        assert(tail.skip(10 + name_len as int) =~= doc@.skip(pos as int + 10 + name_len as int));
    }
    let config: Type = if tag == 0 {
        Type::Int
    } else if tag == 1 {
        Type::Varchar(cap)
    } else {
        return None;
    };
    match decode_defs(doc, pos + 10 + name_len) {
        None => None,
        Some(fs) => {
            let mut fs = fs;
            let ghost fs_before = fs@;
            fs.insert(0, FieldDef::new(name, config));
            proof {
                assert(fs@ =~= seq![fs@[0]] + fs_before);
                assert(fs@.map_values(|d: FieldDef| (d.name@, d.config)) =~= seq![
                    (fs@[0].name@, fs@[0].config),
                ] + fs_before.map_values(|d: FieldDef| (d.name@, d.config)));
            }
            Some(fs)
        },
    }
}

} // verus!
