//! Schema derivation, the row byte codec, tables and the engine.

use vstd::prelude::*;

use crate::index::{BasicIndex, Index};
use crate::query::{
    spec_relation_of, CreateQuery, FieldCondition, FieldDef, InsertQuery, Relation, SelectQuery,
    Type,
};
use crate::text::{dec_digits, dec_val, int_text, lemma_dec_digits, str_eq};
use crate::util::{spec_val_cmp, spec_val_from, Val, ValV};

verus! {

/// The byte width a column of type `t` occupies in a row.
pub open spec fn spec_size_of(t: Type) -> nat {
    match t {
        Type::Int => 4,
        Type::Varchar(n) => n as nat,
    }
}

/// The byte width a column of type `data_type` occupies in a row.
pub fn size_of_type(data_type: &Type) -> (r: usize)
    ensures
        r == spec_size_of(*data_type),
{
    match data_type {
        Type::Int => 4,
        Type::Varchar(n) => *n as usize,
    }
}

/// One column's place in a row: its name, byte offset and byte width,
/// derived once from the definition it keeps; immutable once computed.
#[derive(Debug)]
pub struct ColumnInfo {
    pub name: String,
    pub offs: usize,
    pub size: usize,
    pub field_def: FieldDef,
}

impl ColumnInfo {
    fn new(name: String, offs: usize, size: usize, field_def: FieldDef) -> (r: ColumnInfo)
        ensures
            r.name == name,
            r.offs == offs,
            r.size == size,
            r.field_def == field_def,
    {
        ColumnInfo { name, offs, size, field_def }
    }
}

/// A column's derived fields agree with its definition.
pub open spec fn ci_wf(ci: ColumnInfo) -> bool {
    ci.name@ == ci.field_def.name@ && ci.size == spec_size_of(ci.field_def.config)
}

/// The mapping from column name to its place in a row: the ordered list of
/// derived column descriptions. Order determines byte offsets.
pub type Schema = Vec<ColumnInfo>;

/// The sum of the byte widths of the first `i` columns: the byte offset
/// the `i`-th column gets.
pub open spec fn spec_offset_sum(cols: Seq<ColumnInfo>, i: int) -> nat
    decreases i,
{
    if i <= 0 {
        0
    } else {
        spec_offset_sum(cols, i - 1) + cols[i - 1].size as nat
    }
}

/// The byte width of a whole row under this schema.
pub open spec fn spec_row_size(cols: Seq<ColumnInfo>) -> nat {
    spec_offset_sum(cols, cols.len() as int)
}

/// Schema well-formedness: every column agrees with its definition and
/// offsets are assigned by a single left-to-right pass, non-overlapping.
pub open spec fn schema_wf(cols: Seq<ColumnInfo>) -> bool {
    forall|i: int|
        0 <= i < cols.len() ==> ci_wf(#[trigger] cols[i]) && cols[i].offs == spec_offset_sum(
            cols,
            i,
        )
}

/// The schema lists exactly the given definitions, in order.
pub open spec fn schema_matches(cols: Seq<ColumnInfo>, defs: Seq<FieldDef>) -> bool {
    &&& cols.len() == defs.len()
    &&& forall|i: int|
        0 <= i < defs.len() ==> (#[trigger] cols[i]).field_def == defs[i] && cols[i].name@
            == defs[i].name@
}

/// The total byte width the given definitions ask for.
pub open spec fn spec_defs_size(defs: Seq<FieldDef>) -> nat
    decreases defs.len(),
{
    if defs.len() == 0 {
        0
    } else {
        spec_defs_size(defs.drop_last()) + spec_size_of(defs.last().config)
    }
}

/// One more definition adds exactly its type's width.
pub proof fn lemma_defs_size_take_succ(defs: Seq<FieldDef>, i: int)
    requires
        0 <= i < defs.len(),
    ensures
        spec_defs_size(defs.take(i + 1)) == spec_defs_size(defs.take(i)) + spec_size_of(
            defs[i].config,
        ),
{
    assert(defs.take(i + 1).drop_last() =~= defs.take(i));
    assert(defs.take(i + 1).last() == defs[i]);
}

/// A prefix never asks for more bytes than the whole list.
proof fn lemma_defs_size_prefix_le(defs: Seq<FieldDef>, i: int)
    requires
        0 <= i <= defs.len(),
    ensures
        spec_defs_size(defs.take(i)) <= spec_defs_size(defs),
    decreases defs.len() - i,
{
    if i == defs.len() {
        assert(defs.take(i) =~= defs);
    } else {
        lemma_defs_size_take_succ(defs, i);
        lemma_defs_size_prefix_le(defs, i + 1);
    }
}

/// Offsets of the first `j` columns ignore everything pushed after them.
proof fn lemma_offset_sum_push(cols: Seq<ColumnInfo>, x: ColumnInfo, j: int)
    requires
        0 <= j <= cols.len(),
    ensures
        spec_offset_sum(cols.push(x), j) == spec_offset_sum(cols, j),
    decreases j,
{
    if j > 0 {
        lemma_offset_sum_push(cols, x, j - 1);
        assert(cols.push(x)[j - 1] == cols[j - 1]);
    }
}

/// Offsets grow left to right.
proof fn lemma_offset_sum_mono(cols: Seq<ColumnInfo>, i: int, j: int)
    requires
        0 <= i <= j <= cols.len(),
    ensures
        spec_offset_sum(cols, i) <= spec_offset_sum(cols, j),
    decreases j - i,
{
    if i < j {
        lemma_offset_sum_mono(cols, i, j - 1);
    }
}

/// Under a well-formed schema a column's bytes lie inside the row.
pub proof fn lemma_col_bounds(cols: Seq<ColumnInfo>, i: int)
    requires
        schema_wf(cols),
        0 <= i < cols.len(),
    ensures
        cols[i].offs + cols[i].size <= spec_row_size(cols),
{
    assert(spec_offset_sum(cols, i + 1) == spec_offset_sum(cols, i) + cols[i].size);
    lemma_offset_sum_mono(cols, i + 1, cols.len() as int);
}

/// The column a name resolves to: the first with that name, if any.
pub open spec fn spec_lookup(cols: Seq<ColumnInfo>, name: Seq<char>) -> Option<ColumnInfo>
    decreases cols.len(),
{
    if cols.len() == 0 {
        None
    } else if cols[0].name@ == name {
        Some(cols[0])
    } else {
        spec_lookup(cols.drop_first(), name)
    }
}

/// A resolved column is a member of the schema, under its own name.
pub proof fn lemma_lookup_member(cols: Seq<ColumnInfo>, name: Seq<char>)
    requires
        spec_lookup(cols, name) is Some,
    ensures
        exists|i: int|
            0 <= i < cols.len() && cols[i] == spec_lookup(cols, name)->Some_0 && #[trigger] cols[i].name@
                == name,
    decreases cols.len(),
{
    if cols.len() > 0 {
        if cols[0].name@ == name {
            assert(cols[0] == spec_lookup(cols, name)->Some_0 && cols[0].name@ == name);
        } else {
            lemma_lookup_member(cols.drop_first(), name);
            let j = choose|j: int|
                0 <= j < cols.drop_first().len() && cols.drop_first()[j] == spec_lookup(
                    cols.drop_first(),
                    name,
                )->Some_0 && #[trigger] cols.drop_first()[j].name@ == name;
            assert(cols[j + 1] == spec_lookup(cols, name)->Some_0 && cols[j + 1].name@ == name);
        }
    }
}

/// The first entry with the looked-up name is the one resolved to.
proof fn lemma_lookup_first_match(cols: Seq<ColumnInfo>, name: Seq<char>, i: int)
    requires
        0 <= i < cols.len(),
        cols[i].name@ == name,
        forall|j: int| 0 <= j < i ==> #[trigger] cols[j].name@ != name,
    ensures
        spec_lookup(cols, name) == Some(cols[i]),
    decreases i,
{
    if i > 0 {
        assert forall|j: int| 0 <= j < i - 1 implies #[trigger] cols.drop_first()[j].name@
            != name by {
            assert(cols.drop_first()[j] == cols[j + 1]);
        }
        lemma_lookup_first_match(cols.drop_first(), name, i - 1);
    }
}

/// A name matching no column resolves to nothing.
proof fn lemma_lookup_no_match(cols: Seq<ColumnInfo>, name: Seq<char>)
    requires
        forall|j: int| 0 <= j < cols.len() ==> #[trigger] cols[j].name@ != name,
    ensures
        spec_lookup(cols, name) is None,
    decreases cols.len(),
{
    if cols.len() > 0 {
        assert forall|j: int| 0 <= j < cols.drop_first().len() implies #[trigger] cols.drop_first()[j].name@
            != name by {
            assert(cols.drop_first()[j] == cols[j + 1]);
        }
        lemma_lookup_no_match(cols.drop_first(), name);
    }
}

/// Resolves a column name in a schema, first match.
pub fn schema_lookup<'a>(schema: &'a Schema, name: &str) -> (r: Option<&'a ColumnInfo>)
    ensures
        match r {
            Some(ci) => spec_lookup(schema@, name@) == Some(*ci),
            None => spec_lookup(schema@, name@) is None,
        },
{
    let n = schema.len();
    let mut i: usize = 0;
    while i < n
        invariant
            n == schema@.len(),
            0 <= i <= n,
            forall|j: int| 0 <= j < i ==> #[trigger] schema@[j].name@ != name@,
        decreases n - i,
    {
        if str_eq(schema[i].name.as_str(), name) {
            proof {
                lemma_lookup_first_match(schema@, name@, i as int);
            }
            return Some(&schema[i]);
        }
        i = i + 1;
    }
    proof {
        lemma_lookup_no_match(schema@, name@);
    }
    None
}

/// Derives the schema from an ordered definition list: a single pass,
/// accumulating byte offsets. Total for every definition list whose row
/// fits the address space. Rejecting duplicate names is the caller's
/// responsibility; a duplicate resolves to its first occurrence.
pub fn restructure_field_def_list(field_defs: Vec<FieldDef>) -> (r: Schema)
    requires
        spec_defs_size(field_defs@) <= usize::MAX,
    ensures
        schema_wf(r@),
        schema_matches(r@, field_defs@),
{
    let n = field_defs.len();
    let mut schema: Schema = Vec::new();
    let mut offs: usize = 0;
    let mut i: usize = 0;
    proof {
        assert(field_defs@.take(0) =~= Seq::<FieldDef>::empty());
    }
    while i < n
        invariant
            n == field_defs@.len(),
            0 <= i <= n,
            schema@.len() == i,
            schema_wf(schema@),
            schema_matches(schema@, field_defs@.take(i as int)),
            offs == spec_offset_sum(schema@, i as int),
            offs == spec_defs_size(field_defs@.take(i as int)),
            spec_defs_size(field_defs@) <= usize::MAX,
        decreases n - i,
    {
        let def = &field_defs[i];
        let size = size_of_type(&def.config);
        let field_def = FieldDef::new(def.name.clone(), def.config);
        let ci = ColumnInfo::new(def.name.clone(), offs, size, field_def);
        proof {
            lemma_defs_size_take_succ(field_defs@, i as int);
            lemma_defs_size_prefix_le(field_defs@, i as int + 1);
            assert(field_def == field_defs@[i as int]);
        }
        let ghost old_schema = schema@;
        schema.push(ci);
        proof {
            assert forall|j: int| 0 <= j < schema@.len() implies ci_wf(#[trigger] schema@[j])
                && schema@[j].offs == spec_offset_sum(schema@, j) by {
                lemma_offset_sum_push(old_schema, ci, j);
                if j < old_schema.len() {
                    assert(schema@[j] == old_schema[j]);
                } else {
                    assert(schema@[j] == ci);
                    assert(spec_offset_sum(schema@, j) == spec_offset_sum(old_schema, j));
                }
            }
            assert(field_defs@.take(i as int + 1) =~= field_defs@.take(i as int).push(
                field_defs@[i as int],
            ));
            assert(spec_offset_sum(schema@, i as int + 1) == spec_offset_sum(schema@, i as int)
                + ci.size);
            lemma_offset_sum_push(old_schema, ci, i as int);
        }
        offs = offs + size;
        i = i + 1;
    }
    proof {
        assert(field_defs@.take(n as int) =~= field_defs@);
    }
    schema
}

/// 256 raised to the `k`-th power: the count of values `k` bytes hold.
pub open spec fn pow256(k: nat) -> nat
    decreases k,
{
    if k == 0 {
        1
    } else {
        256 * pow256((k - 1) as nat)
    }
}

/// Byte ranges are never empty of values.
pub proof fn lemma_pow256_pos(k: nat)
    ensures
        pow256(k) >= 1,
    decreases k,
{
    if k > 0 {
        lemma_pow256_pos((k - 1) as nat);
    }
}

/// The `size` little-endian bytes of `v`, least significant first.
pub open spec fn le_bytes(v: nat, size: nat) -> Seq<u8>
    decreases size,
{
    if size == 0 {
        Seq::<u8>::empty()
    } else {
        seq![(v % 256) as u8] + le_bytes(v / 256, (size - 1) as nat)
    }
}

/// The number a little-endian byte sequence denotes.
pub open spec fn le_val(bs: Seq<u8>) -> nat
    decreases bs.len(),
{
    if bs.len() == 0 {
        0
    } else {
        bs[0] as nat + 256 * le_val(bs.drop_first())
    }
}

/// The `k`-th little-endian byte of `v`.
pub open spec fn le_byte(v: nat, k: nat) -> u8 {
    ((v / pow256(k)) % 256) as u8
}

/// The little-endian encoding of `v` into `size` bytes has `size` bytes.
pub proof fn lemma_le_bytes_len(v: nat, size: nat)
    ensures
        le_bytes(v, size).len() == size,
    decreases size,
{
    if size > 0 {
        lemma_le_bytes_len(v / 256, (size - 1) as nat);
    }
}

/// More bytes hold at least as many values.
pub proof fn lemma_pow256_mono(a: nat, b: nat)
    requires
        a <= b,
    ensures
        pow256(a) <= pow256(b),
    decreases b,
{
    if a < b {
        lemma_pow256_mono(a, (b - 1) as nat);
        lemma_pow256_pos((b - 1) as nat);
    }
}

/// The little-endian encoding grows by appending the next byte.
pub proof fn lemma_le_bytes_snoc(v: nat, k: nat)
    ensures
        le_bytes(v, k + 1) == le_bytes(v, k).push(le_byte(v, k)),
    decreases k,
{
    if k == 0 {
        reveal_with_fuel(le_bytes, 3);
        assert(le_bytes(v, 1) =~= seq![(v % 256) as u8]);
        assert(le_bytes(v, 0).push(le_byte(v, 0)) =~= seq![le_byte(v, 0)]);
        assert(v / 1 == v);
    } else {
        lemma_le_bytes_snoc(v / 256, (k - 1) as nat);
        lemma_pow256_pos((k - 1) as nat);
        vstd::arithmetic::div_mod::lemma_div_denominator(
            v as int,
            256,
            pow256((k - 1) as nat) as int,
        );
        assert(pow256(k) == 256 * pow256((k - 1) as nat));
        assert(le_byte(v / 256, (k - 1) as nat) == le_byte(v, k));
        assert(le_bytes(v, k + 1) =~= le_bytes(v, k).push(le_byte(v, k)));
    }
}

/// Reading back `size` little-endian bytes of `v` yields `v` modulo the
/// range of `size` bytes.
pub proof fn lemma_le_round_trip(v: nat, size: nat)
    ensures
        le_val(le_bytes(v, size)) == v % pow256(size),
    decreases size,
{
    if size == 0 {
        assert(v % 1 == 0);
    } else {
        lemma_le_round_trip(v / 256, (size - 1) as nat);
        let bs = le_bytes(v, size);
        assert(bs.drop_first() =~= le_bytes(v / 256, (size - 1) as nat));
        assert(bs[0] == (v % 256) as u8);
        lemma_pow256_pos((size - 1) as nat);
        vstd::arithmetic::div_mod::lemma_breakdown(
            v as int,
            256,
            pow256((size - 1) as nat) as int,
        );
        assert(pow256(size) == 256 * pow256((size - 1) as nat));
    }
}

/// A little-endian byte sequence denotes less than its range bound.
pub proof fn lemma_le_val_bound(bs: Seq<u8>)
    ensures
        le_val(bs) < pow256(bs.len() as nat),
    decreases bs.len(),
{
    if bs.len() > 0 {
        lemma_le_val_bound(bs.drop_first());
    }
}

/// `bytes` written into `row` at offset `offs`; everything else kept.
pub open spec fn splice(row: Seq<u8>, offs: int, bytes: Seq<u8>) -> Seq<u8> {
    Seq::new(
        row.len(),
        |j: int|
            if offs <= j < offs + bytes.len() {
                bytes[j - offs]
            } else {
                row[j]
            },
    )
}

/// Characters as single bytes, one each; codes above 255 wrap (multi-byte
/// characters are not specially handled and may corrupt the layout).
pub open spec fn chars_bytes(s: Seq<char>) -> Seq<u8> {
    s.map_values(|c: char| (c as u32) as u8)
}

/// Bytes read back as one character each.
pub open spec fn bytes_chars(bs: Seq<u8>) -> Seq<char> {
    bs.map_values(|b: u8| b as char)
}

/// The text up to the first NUL character: the zero fill of a row acts as
/// an implicit terminator.
pub open spec fn strip_zero(s: Seq<char>) -> Seq<char>
    decreases s.len(),
{
    if s.len() == 0 {
        s
    } else if s[0] as u32 == 0 {
        Seq::<char>::empty()
    } else {
        seq![s[0]] + strip_zero(s.drop_first())
    }
}

/// A NUL-free prefix survives the stripping untouched.
proof fn lemma_strip_zero_prefix(s: Seq<char>, i: int)
    requires
        0 <= i <= s.len(),
        forall|j: int| 0 <= j < i ==> (#[trigger] s[j]) as u32 != 0,
    ensures
        strip_zero(s) == s.take(i) + strip_zero(s.skip(i)),
    decreases i,
{
    if i == 0 {
        assert(s.take(0) =~= Seq::<char>::empty());
        assert(s.skip(0) =~= s);
        assert(s.take(0) + strip_zero(s) =~= strip_zero(s));
    } else {
        assert(s.drop_first() =~= s.skip(1));
        lemma_strip_zero_prefix(s.skip(1), i - 1);
        assert(s.skip(1).take(i - 1) =~= s.take(i).drop_first());
        assert(s.skip(1).skip(i - 1) =~= s.skip(i));
        assert(seq![s[0]] + (s.take(i).drop_first() + strip_zero(s.skip(i))) =~= s.take(i)
            + strip_zero(s.skip(i)));
    }
}

/// What one column encode does to the row bytes: for `Int`, the
/// little-endian bytes of the parsed number, or nothing at all when the
/// raw text is not a decimal integer; for `Text`, the first `size`
/// characters, one byte each, leaving the tail of the slot untouched.
pub open spec fn spec_encode_column(
    row: Seq<u8>,
    offs: int,
    size: nat,
    raw: Seq<char>,
    t: Type,
) -> Seq<u8> {
    match t {
        Type::Int => if int_text(raw) && dec_val(raw) <= u128::MAX {
            splice(row, offs, le_bytes(dec_val(raw), size))
        } else {
            row
        },
        Type::Varchar(_) => splice(
            row,
            offs,
            chars_bytes(
                if raw.len() <= size {
                    raw
                } else {
                    raw.take(size as int)
                },
            ),
        ),
    }
}

/// Whether one column encode reports success: `Int` text must parse,
/// `Text` must fit its capacity.
pub open spec fn spec_encode_ok(size: nat, raw: Seq<char>, t: Type) -> bool {
    match t {
        Type::Int => int_text(raw) && dec_val(raw) <= u128::MAX,
        Type::Varchar(_) => raw.len() <= size,
    }
}

/// Encodes one column's raw text into `buf[offs .. offs + len)`.
/// On failure the buffer holds exactly what [`spec_encode_column`] says:
/// unchanged bytes for a bad `Int`, a truncated prefix for too-long text.
pub fn write_bytes(buf: &mut Vec<u8>, len: usize, offs: usize, raw: &str, data_type: &Type) -> (r:
    Result<(), ()>)
    requires
        offs + len <= old(buf)@.len(),
    ensures
        final(buf)@ == spec_encode_column(old(buf)@, offs as int, len as nat, raw@, *data_type),
        r is Ok <==> spec_encode_ok(len as nat, raw@, *data_type),
{
    match data_type {
        Type::Int => {
            let parsed = crate::text::parse_u128(raw);
            match parsed {
                None => {
                    proof {
                        assert(final(buf)@ == spec_encode_column(
                            old(buf)@,
                            offs as int,
                            len as nat,
                            raw@,
                            *data_type,
                        ));
                    }
                    Err(())
                },
                Some(v) => {
                    let ghost buf0 = buf@;
                    let mut cur: u128 = v;
                    let mut idx: usize = 0;
                    proof {
                        assert(buf.len() == buf0.len());
                        lemma_le_bytes_len(v as nat, 0);
                        assert(pow256(0) == 1);
                        assert(v as nat / 1 == v as nat);
                        assert(buf@ =~= splice(buf0, offs as int, le_bytes(v as nat, 0)));
                    }
                    while idx < len
                        invariant
                            0 <= idx <= len,
                            offs + len <= buf0.len() <= usize::MAX,
                            buf0 == old(buf)@,
                            buf@.len() == buf0.len(),
                            cur as nat == (v as nat) / pow256(idx as nat),
                            buf@ == splice(buf0, offs as int, le_bytes(v as nat, idx as nat)),
                        decreases len - idx,
                    {
                        let b = (cur % 256) as u8;
                        proof {
                            lemma_pow256_pos(idx as nat);
                            assert(b == le_byte(v as nat, idx as nat));
                            lemma_le_bytes_snoc(v as nat, idx as nat);
                            lemma_le_bytes_len(v as nat, idx as nat);
                            lemma_le_bytes_len(v as nat, idx as nat + 1);
                            vstd::arithmetic::div_mod::lemma_div_denominator(
                                v as int,
                                pow256(idx as nat) as int,
                                256,
                            );
                            assert(pow256(idx as nat + 1) == 256 * pow256(idx as nat));
                            assert(pow256(idx as nat) * 256 == 256 * pow256(idx as nat)) by (nonlinear_arith);
                        }
                        buf[offs + idx] = b;
                        proof {
                            assert(buf@ =~= splice(
                                buf0,
                                offs as int,
                                le_bytes(v as nat, idx as nat + 1),
                            ));
                        }
                        cur = cur / 256;
                        idx = idx + 1;
                    }
                    proof {
                        lemma_le_bytes_len(v as nat, len as nat);
                    }
                    Ok(())
                },
            }
        },
        Type::Varchar(_) => {
            let n_raw = raw.unicode_len();
            let ghost buf0 = buf@;
            let mut idx: usize = 0;
            proof {
                assert(buf.len() == buf0.len());
                assert(buf@ =~= splice(buf0, offs as int, chars_bytes(raw@.take(0))));
            }
            while idx < n_raw
                invariant
                    *data_type matches Type::Varchar(_),
                    0 <= idx <= n_raw == raw@.len(),
                    idx <= len,
                    offs + len <= buf0.len() <= usize::MAX,
                    buf0 == old(buf)@,
                    buf@.len() == buf0.len(),
                    buf@ == splice(buf0, offs as int, chars_bytes(raw@.take(idx as int))),
                decreases n_raw - idx,
            {
                if idx >= len {
                    proof {
                        assert(raw@.len() > len as nat);
                        assert(buf@ == spec_encode_column(
                            buf0,
                            offs as int,
                            len as nat,
                            raw@,
                            *data_type,
                        ));
                    }
                    return Err(());
                }
                let ch = raw.get_char(idx);
                let b = #[verifier::truncate] ((ch as u32) as u8);
                buf[offs + idx] = b;
                proof {
                    assert(chars_bytes(raw@.take(idx as int + 1)) =~= chars_bytes(
                        raw@.take(idx as int),
                    ).push((raw@[idx as int] as u32) as u8));
                    assert(buf@ =~= splice(
                        buf0,
                        offs as int,
                        chars_bytes(raw@.take(idx as int + 1)),
                    ));
                }
                idx = idx + 1;
            }
            proof {
                assert(raw@.take(n_raw as int) =~= raw@);
            }
            Ok(())
        },
    }
}

/// What decoding one column of a row yields: `Int` bytes read back
/// little-endian; `Text` bytes read back one character each, cut at the
/// first NUL.
pub open spec fn spec_decode_column(row: Seq<u8>, ci: ColumnInfo) -> ValV {
    match ci.field_def.config {
        Type::Int => ValV::U32(
            (le_val(row.subrange(ci.offs as int, ci.offs + ci.size)) % 0x1_0000_0000) as u32,
        ),
        Type::Varchar(n) => ValV::Varchar(
            strip_zero(bytes_chars(row.subrange(ci.offs as int, ci.offs + n))),
        ),
    }
}

/// Decodes the scalar a row holds for one column.
pub fn extract_row_value(row: &Vec<u8>, column_info: &ColumnInfo) -> (r: Val)
    requires
        ci_wf(*column_info),
        column_info.offs + column_info.size <= row@.len(),
    ensures
        r@ == spec_decode_column(row@, *column_info),
{
    let offs = column_info.offs;
    match column_info.field_def.config {
        Type::Int => {
            let size = column_info.size;
            let ghost bs = row@.subrange(offs as int, offs as int + size as int);
            let mut val: u32 = 0;
            let mut i: usize = size;
            proof {
                assert(size == 4);
                assert(row.len() == row@.len());
                reveal_with_fuel(pow256, 5);
                assert(pow256(4) == 0x1_0000_0000);
                assert(bs.subrange(size as int, size as int) =~= Seq::<u8>::empty());
            }
            while i > 0
                invariant
                    0 <= i <= size == 4,
                    offs == column_info.offs,
                    offs + size <= row@.len() <= usize::MAX,
                    bs == row@.subrange(offs as int, offs as int + size as int),
                    val as nat == le_val(bs.subrange(i as int, size as int)),
                    (val as nat) < pow256((size - i) as nat),
                    pow256(4) == 0x1_0000_0000,
                decreases i,
            {
                i = i - 1;
                let b = row[offs + i];
                proof {
                    let tail = bs.subrange(i as int, size as int);
                    assert(tail.drop_first() =~= bs.subrange(i as int + 1, size as int));
                    assert(tail[0] == bs[i as int]);
                    assert(bs[i as int] == row@[offs + i]);
                    assert(pow256((size - i) as nat) == 256 * pow256((size - i - 1) as nat));
                    lemma_pow256_mono((size - i) as nat, 4);
                }
                val = val * 256 + b as u32;
            }
            proof {
                assert(bs.subrange(0, size as int) =~= bs);
                lemma_le_val_bound(bs);
                assert(le_val(bs) % 0x1_0000_0000 == le_val(bs));
            }
            Val::U32(val)
        },
        Type::Varchar(n) => {
            let end = n as usize;
            let ghost chars = bytes_chars(row@.subrange(offs as int, offs as int + n as int));
            let mut s = String::new();
            let mut i: usize = 0;
            proof {
                assert(row.len() == row@.len());
            }
            while i < end
                invariant
                    column_info.field_def.config == Type::Varchar(n),
                    offs == column_info.offs,
                    0 <= i <= end,
                    end == n as usize,
                    offs + end <= row@.len() <= usize::MAX,
                    chars == bytes_chars(row@.subrange(offs as int, offs as int + end as int)),
                    s@ == chars.take(i as int),
                    forall|j: int| 0 <= j < i ==> (#[trigger] chars[j]) as u32 != 0,
                decreases end - i,
            {
                let b = row[offs + i];
                if b == 0 {
                    proof {
                        lemma_strip_zero_prefix(chars, i as int);
                        assert(chars[i as int] == b as char);
                        assert(chars.skip(i as int)[0] as u32 == 0);
                        assert(strip_zero(chars.skip(i as int)) =~= Seq::<char>::empty());
                        assert(chars.take(i as int) + Seq::<char>::empty() =~= chars.take(i as int));
                    }
                    return Val::Varchar(s);
                }
                s.push(b as char);
                proof {
                    assert(chars[i as int] == b as char);
                    assert(chars.take(i as int + 1) =~= chars.take(i as int).push(chars[i as int]));
                }
                i = i + 1;
            }
            proof {
                lemma_strip_zero_prefix(chars, end as int);
                assert(chars.skip(end as int) =~= Seq::<char>::empty());
                assert(chars.take(end as int) =~= chars);
                assert(chars + Seq::<char>::empty() =~= chars);
            }
            Val::Varchar(s)
        },
    }
}

/// Parses a raw text into the scalar a column of type `data_type` stores
/// as an index key: exactly the parse that [`spec_val_from`] describes.
pub fn raw_string_to_val(raw: &str, data_type: &Type) -> (r: Result<Val, ()>)
    ensures
        match r {
            Ok(v) => spec_val_from(raw@, *data_type) == Some(v@),
            Err(_) => spec_val_from(raw@, *data_type) is None,
        },
{
    match data_type {
        Type::Int => match crate::text::parse_u32(raw) {
            Some(n) => Ok(Val::U32(n)),
            None => Err(()),
        },
        Type::Varchar(len) => {
            let n = raw.unicode_len();
            let k = if (*len as usize) <= n {
                *len as usize
            } else {
                n
            };
            let taken = raw.substring_char(0, k);
            proof {
                if *len as int <= raw@.len() {
                    assert(raw@.subrange(0, k as int) =~= raw@.take(*len as int));
                } else {
                    assert(raw@.subrange(0, k as int) =~= raw@);
                }
            }
            Ok(Val::Varchar(taken.to_owned()))
        },
    }
}

/// First-match lookup in an association list keyed by name.
pub open spec fn spec_assoc<T>(entries: Seq<(String, T)>, name: Seq<char>) -> Option<T>
    decreases entries.len(),
{
    if entries.len() == 0 {
        None
    } else if entries[0].0@ == name {
        Some(entries[0].1)
    } else {
        spec_assoc(entries.drop_first(), name)
    }
}

/// The first entry under the looked-up name is the one resolved to.
proof fn lemma_assoc_first_match<T>(entries: Seq<(String, T)>, name: Seq<char>, i: int)
    requires
        0 <= i < entries.len(),
        entries[i].0@ == name,
        forall|j: int| 0 <= j < i ==> #[trigger] entries[j].0@ != name,
    ensures
        spec_assoc(entries, name) == Some(entries[i].1),
    decreases i,
{
    if i > 0 {
        assert forall|j: int| 0 <= j < i - 1 implies #[trigger] entries.drop_first()[j].0@
            != name by {
            assert(entries.drop_first()[j] == entries[j + 1]);
        }
        lemma_assoc_first_match(entries.drop_first(), name, i - 1);
    }
}

/// A name matching no entry resolves to nothing.
proof fn lemma_assoc_no_match<T>(entries: Seq<(String, T)>, name: Seq<char>)
    requires
        forall|j: int| 0 <= j < entries.len() ==> #[trigger] entries[j].0@ != name,
    ensures
        spec_assoc(entries, name) is None,
    decreases entries.len(),
{
    if entries.len() > 0 {
        assert forall|j: int| 0 <= j < entries.drop_first().len() implies #[trigger] entries.drop_first()[j].0@
            != name by {
            assert(entries.drop_first()[j] == entries[j + 1]);
        }
        lemma_assoc_no_match(entries.drop_first(), name);
    }
}

/// Changing one entry's payload, under the same key, changes exactly what
/// that key resolves to; every other name is untouched.
proof fn lemma_assoc_update<T>(old_e: Seq<(String, T)>, new_e: Seq<(String, T)>, i: int)
    requires
        0 <= i < old_e.len(),
        new_e.len() == old_e.len(),
        forall|j: int| 0 <= j < old_e.len() && j != i ==> new_e[j] == old_e[j],
        new_e[i].0@ == old_e[i].0@,
        forall|j: int| 0 <= j < i ==> #[trigger] old_e[j].0@ != old_e[i].0@,
    ensures
        spec_assoc(new_e, old_e[i].0@) == Some(new_e[i].1),
        forall|name: Seq<char>|
            name != old_e[i].0@ ==> #[trigger] spec_assoc(new_e, name) == spec_assoc(old_e, name),
    decreases i,
{
    if i == 0 {
        assert forall|name: Seq<char>| name != old_e[0].0@ implies #[trigger] spec_assoc(
            new_e,
            name,
        ) == spec_assoc(old_e, name) by {
            assert(new_e.drop_first() =~= old_e.drop_first());
        }
    } else {
        assert forall|j: int| 0 <= j < i - 1 implies #[trigger] old_e.drop_first()[j].0@
            != old_e.drop_first()[i - 1].0@ by {
            assert(old_e.drop_first()[j] == old_e[j + 1]);
            assert(old_e.drop_first()[i - 1] == old_e[i]);
        }
        lemma_assoc_update(old_e.drop_first(), new_e.drop_first(), i - 1);
        assert(new_e[0] == old_e[0]);
        assert(old_e[0].0@ != old_e[i].0@);
        assert(new_e.drop_first()[i - 1] == new_e[i]);
        assert(old_e.drop_first()[i - 1] == old_e[i]);
        assert forall|name: Seq<char>| name != old_e[i].0@ implies #[trigger] spec_assoc(
            new_e,
            name,
        ) == spec_assoc(old_e, name) by {
            if new_e[0].0@ != name {
                assert(spec_assoc(new_e, name) == spec_assoc(new_e.drop_first(), name));
                assert(spec_assoc(old_e, name) == spec_assoc(old_e.drop_first(), name));
            }
        }
    }
}

/// Appending an entry resolves its key only where nothing did before.
proof fn lemma_assoc_push<T>(entries: Seq<(String, T)>, x: (String, T), name: Seq<char>)
    ensures
        spec_assoc(entries.push(x), name) == if spec_assoc(entries, name) is Some {
            spec_assoc(entries, name)
        } else if x.0@ == name {
            Some(x.1)
        } else {
            None
        },
    decreases entries.len(),
{
    assert(spec_assoc(Seq::<(String, T)>::empty(), name) is None);
    if entries.len() == 0 {
        assert(entries.push(x)[0] == x);
        assert(entries.push(x).drop_first() =~= Seq::<(String, T)>::empty());
    } else {
        assert(entries.push(x)[0] == entries[0]);
        assert(entries.push(x).drop_first() =~= entries.drop_first().push(x));
        lemma_assoc_push(entries.drop_first(), x, name);
    }
}

/// Finds the first entry under `name`: its position, if any.
pub fn assoc_index<T>(entries: &Vec<(String, T)>, name: &str) -> (r: Option<usize>)
    ensures
        match r {
            Some(i) => i < entries@.len() && entries@[i as int].0@ == name@ && spec_assoc(
                entries@,
                name@,
            ) == Some(entries@[i as int].1) && forall|j: int|
                0 <= j < i ==> #[trigger] entries@[j].0@ != name@,
            None => spec_assoc(entries@, name@) is None,
        },
{
    let n = entries.len();
    let mut i: usize = 0;
    while i < n
        invariant
            n == entries@.len(),
            0 <= i <= n,
            forall|j: int| 0 <= j < i ==> #[trigger] entries@[j].0@ != name@,
        decreases n - i,
    {
        if str_eq(entries[i].0.as_str(), name) {
            proof {
                lemma_assoc_first_match(entries@, name@, i as int);
            }
            return Some(i);
        }
        i = i + 1;
    }
    proof {
        lemma_assoc_no_match(entries@, name@);
    }
    None
}

/// Resolves `name` to its first entry's payload.
pub fn assoc_get<'a, T>(entries: &'a Vec<(String, T)>, name: &str) -> (r: Option<&'a T>)
    ensures
        match r {
            Some(v) => spec_assoc(entries@, name@) == Some(*v),
            None => spec_assoc(entries@, name@) is None,
        },
{
    match assoc_index(entries, name) {
        Some(i) => Some(&entries[i].1),
        None => None,
    }
}

/// The raw text an insert supplies for a column: the named entry's text,
/// or empty when the column is absent from the input.
pub open spec fn spec_raw_for(inserts: Seq<(String, String)>, name: Seq<char>) -> Seq<char> {
    match spec_assoc(inserts, name) {
        Some(s) => s@,
        None => Seq::<char>::empty(),
    }
}

/// A zero-filled row of `n` bytes.
pub open spec fn spec_zero_row(n: nat) -> Seq<u8> {
    Seq::new(n, |i: int| 0u8)
}

/// Allocates a zero-filled row buffer.
fn zero_row(n: usize) -> (r: Vec<u8>)
    ensures
        r@ == spec_zero_row(n as nat),
{
    let mut r: Vec<u8> = Vec::new();
    let mut i: usize = 0;
    while i < n
        invariant
            0 <= i <= n,
            r@ =~= spec_zero_row(i as nat),
        decreases n - i,
    {
        r.push(0);
        proof {
            assert(r@ =~= spec_zero_row(i as nat + 1));
        }
        i = i + 1;
    }
    r
}

/// The row an insert produces: every schema column encoded into a
/// zero-filled buffer from the raw text supplied for it, in schema order.
pub open spec fn spec_encode_into(
    row: Seq<u8>,
    cols: Seq<ColumnInfo>,
    inserts: Seq<(String, String)>,
) -> Seq<u8>
    decreases cols.len(),
{
    if cols.len() == 0 {
        row
    } else {
        let row1 = spec_encode_column(
            row,
            cols[0].offs as int,
            cols[0].size as nat,
            spec_raw_for(inserts, cols[0].name@),
            cols[0].field_def.config,
        );
        spec_encode_into(row1, cols.drop_first(), inserts)
    }
}

/// The full encoded row for an insert under a schema.
pub open spec fn spec_encode_row(cols: Seq<ColumnInfo>, inserts: Seq<(String, String)>) -> Seq<
    u8,
> {
    spec_encode_into(spec_zero_row(spec_row_size(cols)), cols, inserts)
}

/// Encoding one more column encodes it into the row built so far.
proof fn lemma_encode_into_snoc(
    row: Seq<u8>,
    cols: Seq<ColumnInfo>,
    c: ColumnInfo,
    inserts: Seq<(String, String)>,
)
    ensures
        spec_encode_into(row, cols.push(c), inserts) == spec_encode_column(
            spec_encode_into(row, cols, inserts),
            c.offs as int,
            c.size as nat,
            spec_raw_for(inserts, c.name@),
            c.field_def.config,
        ),
    decreases cols.len(),
{
    if cols.len() == 0 {
        assert(cols.push(c)[0] == c);
        assert(cols.push(c).drop_first() =~= Seq::<ColumnInfo>::empty());
        let row1 = spec_encode_column(
            row,
            c.offs as int,
            c.size as nat,
            spec_raw_for(inserts, c.name@),
            c.field_def.config,
        );
        assert(spec_encode_into(row1, Seq::<ColumnInfo>::empty(), inserts) == row1);
    } else {
        assert(cols.push(c)[0] == cols[0]);
        assert(cols.push(c).drop_first() =~= cols.drop_first().push(c));
        let row1 = spec_encode_column(
            row,
            cols[0].offs as int,
            cols[0].size as nat,
            spec_raw_for(inserts, cols[0].name@),
            cols[0].field_def.config,
        );
        lemma_encode_into_snoc(row1, cols.drop_first(), c, inserts);
    }
}

/// Offsets sum to the definitions' total width once schema and
/// definitions agree.
proof fn lemma_matches_offset_sum(cols: Seq<ColumnInfo>, defs: Seq<FieldDef>, i: int)
    requires
        schema_wf(cols),
        schema_matches(cols, defs),
        0 <= i <= defs.len(),
    ensures
        spec_offset_sum(cols, i) == spec_defs_size(defs.take(i)),
    decreases i,
{
    if i > 0 {
        lemma_matches_offset_sum(cols, defs, i - 1);
        lemma_defs_size_take_succ(defs, i - 1);
        assert(ci_wf(cols[i - 1]));
    }
}

/// A schema derived from a definition list is exactly as wide as the
/// definitions ask.
pub proof fn lemma_schema_row_size(cols: Seq<ColumnInfo>, defs: Seq<FieldDef>)
    requires
        schema_wf(cols),
        schema_matches(cols, defs),
    ensures
        spec_row_size(cols) == spec_defs_size(defs),
{
    lemma_matches_offset_sum(cols, defs, defs.len() as int);
    assert(defs.take(defs.len() as int) =~= defs);
}

/// The scalar an insert records in the index of column `name`: the column
/// must exist, the input must supply a text for it, and the text must
/// parse under the column's type; otherwise nothing is recorded.
pub open spec fn spec_indexed_val(
    cols: Seq<ColumnInfo>,
    inserts: Seq<(String, String)>,
    name: Seq<char>,
) -> Option<ValV> {
    match spec_lookup(cols, name) {
        Some(ci) => match spec_assoc(inserts, name) {
            Some(raw) => spec_val_from(raw@, ci.field_def.config),
            None => None,
        },
        None => None,
    }
}

/// How inserting `inserts` transforms a table: the schema is kept, the
/// encoded row is appended, and each index whose column the input supplies
/// a parseable value for records the new row's position under exactly that
/// scalar. This is what [`Table::raw_insert`] ensures.
pub open spec fn spec_inserted(t0: Table, t1: Table, inserts: Seq<(String, String)>) -> bool {
    &&& t1.schema == t0.schema
    &&& t1.spec_rows() == t0.spec_rows().push(spec_encode_row(t0.schema@, inserts))
    &&& t1.spec_index_count() == t0.spec_index_count()
    &&& forall|k: int|
        0 <= k < t0.spec_index_count() ==> #[trigger] t1.spec_index_name(k) == t0.spec_index_name(
            k,
        )
    &&& forall|k: int, w: ValV|
        0 <= k < t0.spec_index_count() ==> #[trigger] t1.spec_index_positions(k, w) == (
        if spec_indexed_val(t0.schema@, inserts, t0.spec_index_name(k)) == Some(w) {
            t0.spec_index_positions(k, w).push(t0.data@.len() as usize)
        } else {
            t0.spec_index_positions(k, w)
        })
}

/// A table: its derived schema, its ordered fixed-width rows, and its
/// named secondary indices. Grows only by appending rows.
#[derive(Debug)]
pub struct Table {
    pub schema: Schema,
    pub data: Vec<Vec<u8>>,
    pub indices: Vec<(String, BasicIndex)>,
}

impl Table {
    /// The stored rows as byte sequences, in insertion order.
    pub open spec fn spec_rows(&self) -> Seq<Seq<u8>> {
        self.data@.map_values(|r: Vec<u8>| r@)
    }

    /// How many columns carry an index.
    pub open spec fn spec_index_count(&self) -> nat {
        self.indices@.len()
    }

    /// The column name the `k`-th index serves.
    pub open spec fn spec_index_name(&self, k: int) -> Seq<char> {
        self.indices@[k].0@
    }

    /// The positions the `k`-th index records for the scalar `w`.
    pub open spec fn spec_index_positions(&self, k: int, w: ValV) -> Seq<usize> {
        self.indices@[k].1.positions(w)
    }

    /// Internal consistency: a well-formed schema whose row width fits
    /// the machine, rows of exactly that width, and consistent indices.
    pub open spec fn wf(&self) -> bool {
        &&& schema_wf(self.schema@)
        &&& spec_row_size(self.schema@) <= usize::MAX
        &&& forall|i: int|
            0 <= i < self.data@.len() ==> (#[trigger] self.data@[i])@.len() == spec_row_size(
                self.schema@,
            )
        &&& forall|k: int| 0 <= k < self.indices@.len() ==> (#[trigger] self.indices@[k]).1.inv()
    }

    /// Builds a table from an ordered definition list and the names of
    /// the columns to index. The definitions' total width must fit the
    /// machine's address space.
    pub fn new(schema: Vec<FieldDef>, index_fields: Vec<String>) -> (r: Table)
        requires
            spec_defs_size(schema@) <= usize::MAX,
        ensures
            r.wf(),
            schema_wf(r.schema@),
            schema_matches(r.schema@, schema@),
            r.spec_rows() == Seq::<Seq<u8>>::empty(),
            r.spec_index_count() == index_fields@.len(),
            forall|k: int|
                0 <= k < index_fields@.len() ==> #[trigger] r.spec_index_name(k)
                    == index_fields@[k]@,
            forall|k: int, w: ValV|
                0 <= k < index_fields@.len() ==> #[trigger] r.spec_index_positions(k, w) == Seq::<
                    usize,
                >::empty(),
    {
        let mut indices: Vec<(String, BasicIndex)> = Vec::new();
        let n = index_fields.len();
        let mut i: usize = 0;
        while i < n
            invariant
                n == index_fields@.len(),
                0 <= i <= n,
                indices@.len() == i,
                forall|k: int|
                    0 <= k < i ==> #[trigger] indices@[k].0@ == index_fields@[k]@
                        && indices@[k].1.inv(),
                forall|k: int, w: ValV|
                    0 <= k < i ==> #[trigger] indices@[k].1.positions(w) == Seq::<
                        usize,
                    >::empty(),
            decreases n - i,
        {
            let field = index_fields[i].clone();
            indices.push((field, BasicIndex::new()));
            i = i + 1;
        }
        let cols = restructure_field_def_list(schema);
        proof {
            lemma_schema_row_size(cols@, schema@);
        }
        let ghost gidx = indices@;
        let t = Table { schema: cols, data: Vec::new(), indices };
        proof {
            assert(t.indices@ == gidx);
            assert(t.spec_rows() =~= Seq::<Seq<u8>>::empty());
            assert forall|k: int| 0 <= k < t.indices@.len() implies (
            #[trigger] t.indices@[k]).1.inv() by {
                assert(gidx[k].0@ == index_fields@[k]@ && gidx[k].1.wf());
            }
            assert forall|k: int| 0 <= k < index_fields@.len() implies #[trigger] t.spec_index_name(
                k,
            ) == index_fields@[k]@ by {
                assert(gidx[k].0@ == index_fields@[k]@ && gidx[k].1.wf());
            }
            assert forall|k: int, w: ValV|
                0 <= k < index_fields@.len() implies #[trigger] t.spec_index_positions(k, w) == Seq::<
                usize,
            >::empty() by {
                assert(gidx[k].1.positions(w) == Seq::<usize>::empty());
            }
        }
        t
    }

    /// Wraps an already-derived schema in a table with no rows and no
    /// indices: what reconstruction from a persisted definition yields.
    pub fn new_with_schema(schema: Schema) -> (r: Table)
        requires
            schema_wf(schema@),
            spec_row_size(schema@) <= usize::MAX,
        ensures
            r.wf(),
            r.schema == schema,
            r.spec_rows() == Seq::<Seq<u8>>::empty(),
            r.spec_index_count() == 0,
    {
        Table { schema, data: Vec::new(), indices: Vec::new() }
    }

    /// Inserts one row: every schema column is encoded from the raw text
    /// supplied for it (an absent column encodes as empty text and keeps
    /// its zero fill), the row is appended, and the index of every column
    /// the input supplies a parseable value for records the new row's
    /// position. A column whose text fails to encode never aborts the
    /// insert: its bytes stay zero and the row is appended regardless.
    pub fn raw_insert(&mut self, raw_inserts: Vec<(String, String)>) -> (r: Result<(), ()>)
        requires
            old(self).wf(),
        ensures
            r is Ok,
            final(self).wf(),
            spec_inserted(*old(self), *final(self), raw_inserts@),
    {
        let schema_size = self.schema_byte_size();
        let mut row: Vec<u8> = zero_row(schema_size);
        let ghost zero = row@;
        let n = self.schema.len();
        let mut i: usize = 0;
        proof {
            assert(self.schema@.take(0) =~= Seq::<ColumnInfo>::empty());
        }
        while i < n
            invariant
                self == old(self),
                self.wf(),
                n == self.schema@.len(),
                0 <= i <= n,
                zero == spec_zero_row(spec_row_size(self.schema@)),
                row@.len() == spec_row_size(self.schema@),
                spec_row_size(self.schema@) <= usize::MAX,
                row@ == spec_encode_into(zero, self.schema@.take(i as int), raw_inserts@),
            decreases n - i,
        {
            let ci = &self.schema[i];
            proof {
                reveal_strlit("");
                assert(ci_wf(self.schema@[i as int]));
                lemma_col_bounds(self.schema@, i as int);
            }
            let raw_opt = assoc_get(&raw_inserts, ci.name.as_str());
            // a column that fails to encode is deliberate partial
            // success: the slot keeps its bytes and the insert goes on
            let _ = match raw_opt {
                Some(s) => write_bytes(
                    &mut row,
                    ci.size,
                    ci.offs,
                    s.as_str(),
                    &ci.field_def.config,
                ),
                None => write_bytes(&mut row, ci.size, ci.offs, "", &ci.field_def.config),
            };
            proof {
                lemma_encode_into_snoc(
                    zero,
                    self.schema@.take(i as int),
                    self.schema@[i as int],
                    raw_inserts@,
                );
                assert(self.schema@.take(i as int + 1) =~= self.schema@.take(i as int).push(
                    self.schema@[i as int],
                ));
            }
            i = i + 1;
        }
        proof {
            assert(self.schema@.take(n as int) =~= self.schema@);
        }
        let position = self.data.len();
        self.data.push(row);
        let ghost data_after = self.data@;
        proof {
            assert(self.data@.map_values(|r: Vec<u8>| r@) =~= old(self).data@.map_values(
                |r: Vec<u8>| r@,
            ).push(spec_encode_row(old(self).schema@, raw_inserts@)));
        }
        let m = self.indices.len();
        let mut k: usize = 0;
        while k < m
            invariant
                self.wf(),
                m == self.indices@.len() == old(self).indices@.len(),
                0 <= k <= m,
                self.schema == old(self).schema,
                self.data@ == data_after,
                position == old(self).data@.len(),
                forall|j: int|
                    0 <= j < m ==> #[trigger] self.indices@[j].0 == old(self).indices@[j].0,
                forall|j: int|
                    k <= j < m ==> #[trigger] self.indices@[j].1 == old(self).indices@[j].1,
                forall|j: int, w: ValV|
                    0 <= j < k ==> #[trigger] self.indices@[j].1.positions(w) == (
                    if spec_indexed_val(
                        old(self).schema@,
                        raw_inserts@,
                        old(self).indices@[j].0@,
                    ) == Some(w) {
                        old(self).indices@[j].1.positions(w).push(position)
                    } else {
                        old(self).indices@[j].1.positions(w)
                    }),
            decreases m - k,
        {
            let ghost name = self.indices@[k as int].0@;
            let raw_opt = assoc_get(&raw_inserts, self.indices[k].0.as_str());
            match raw_opt {
                None => {
                    proof {
                        assert(spec_indexed_val(old(self).schema@, raw_inserts@, name) is None);
                    }
                },
                Some(raw) => {
                    let ci_opt = schema_lookup(&self.schema, self.indices[k].0.as_str());
                    match ci_opt {
                        None => {
                            proof {
                                assert(spec_indexed_val(
                                    old(self).schema@,
                                    raw_inserts@,
                                    name,
                                ) is None);
                            }
                        },
                        Some(ci) => {
                            match raw_string_to_val(raw.as_str(), &ci.field_def.config) {
                                Err(_) => {
                                    proof {
                                        assert(spec_indexed_val(
                                            old(self).schema@,
                                            raw_inserts@,
                                            name,
                                        ) is None);
                                    }
                                },
                                Ok(val) => {
                                    let ghost old_entries = self.indices@;
                                    let mut entry = self.indices.remove(k);
                                    entry.1.insert(val, position);
                                    self.indices.insert(k, entry);
                                    proof {
                                        assert(self.indices@ =~= old_entries.update(
                                            k as int,
                                            entry,
                                        ));
                                        assert(spec_indexed_val(
                                            old(self).schema@,
                                            raw_inserts@,
                                            name,
                                        ) == Some(val@));
                                        assert(entry.1.wf() == entry.1.inv());
                                        assert(entry.1.spec_positions(val@) == entry.1.positions(
                                            val@,
                                        ));
                                        assert(old_entries[k as int].1.spec_positions(val@)
                                            == old_entries[k as int].1.positions(val@));
                                        assert(entry.1.positions(val@) == old_entries[k as int].1.positions(
                                            val@,
                                        ).push(position));
                                        assert forall|w: ValV| w != val@ implies #[trigger] entry.1.positions(
                                            w,
                                        ) == old_entries[k as int].1.positions(w) by {
                                            assert(entry.1.spec_positions(w) == entry.1.positions(
                                                w,
                                            ));
                                            assert(old_entries[k as int].1.spec_positions(w)
                                                == old_entries[k as int].1.positions(w));
                                        }
                                    }
                                },
                            }
                        },
                    }
                },
            }
            k = k + 1;
        }
        proof {
            assert forall|k2: int, w: ValV|
                0 <= k2 < old(self).spec_index_count() implies #[trigger] self.spec_index_positions(
                k2,
                w,
            ) == (if spec_indexed_val(
                old(self).schema@,
                raw_inserts@,
                old(self).spec_index_name(k2),
            ) == Some(w) {
                old(self).spec_index_positions(k2, w).push(old(self).data@.len() as usize)
            } else {
                old(self).spec_index_positions(k2, w)
            }) by {
                assert(self.indices@[k2].1.positions(w) == (if spec_indexed_val(
                    old(self).schema@,
                    raw_inserts@,
                    old(self).indices@[k2].0@,
                ) == Some(w) {
                    old(self).indices@[k2].1.positions(w).push(position)
                } else {
                    old(self).indices@[k2].1.positions(w)
                }));
            }
        }
        Ok(())
    }

    /// The byte width of one row under this table's schema.
    fn schema_byte_size(&self) -> (r: usize)
        requires
            self.wf(),
        ensures
            r == spec_row_size(self.schema@),
    {
        let n = self.schema.len();
        let mut acc: usize = 0;
        let mut i: usize = 0;
        while i < n
            invariant
                self.wf(),
                n == self.schema@.len(),
                0 <= i <= n,
                acc == spec_offset_sum(self.schema@, i as int),
            decreases n - i,
        {
            proof {
                assert(ci_wf(self.schema@[i as int]));
                lemma_offset_sum_mono(self.schema@, i as int + 1, n as int);
            }
            acc = acc + self.schema[i].size;
            i = i + 1;
        }
        acc
    }
}

/// Whether one condition holds of a row: the field must resolve, the
/// relation symbol and the comparison text must parse, and the decoded
/// column scalar must stand in the relation to the parsed scalar.
/// Anything else fails closed: the row is excluded, never an abort.
pub open spec fn spec_condition_passes(
    row: Seq<u8>,
    cols: Seq<ColumnInfo>,
    c: FieldCondition,
) -> bool {
    match spec_lookup(cols, c.field_name@) {
        Some(ci) => match (spec_relation_of(c.relation@), spec_val_from(
            c.value@,
            ci.field_def.config,
        )) {
            (Some(rel), Some(v)) => {
                let orig = spec_decode_column(row, ci);
                match rel {
                    Relation::Eq => orig == v,
                    Relation::Lt => spec_val_cmp(orig, v) == Some(core::cmp::Ordering::Less),
                    Relation::Gt => spec_val_cmp(orig, v) == Some(core::cmp::Ordering::Greater),
                }
            },
            _ => false,
        },
        None => false,
    }
}

/// All conditions hold of the row: conditions are conjunctive.
pub open spec fn spec_conditions_pass(
    row: Seq<u8>,
    cols: Seq<ColumnInfo>,
    conds: Seq<FieldCondition>,
) -> bool {
    forall|i: int| 0 <= i < conds.len() ==> spec_condition_passes(row, cols, #[trigger] conds[i])
}

/// A resolved column is well formed and lies inside a row of schema width.
proof fn lemma_lookup_col_fits(cols: Seq<ColumnInfo>, name: Seq<char>)
    requires
        schema_wf(cols),
        spec_lookup(cols, name) is Some,
    ensures
        ci_wf(spec_lookup(cols, name)->Some_0),
        spec_lookup(cols, name)->Some_0.offs + spec_lookup(cols, name)->Some_0.size
            <= spec_row_size(cols),
{
    lemma_lookup_member(cols, name);
    let i = choose|i: int|
        0 <= i < cols.len() && cols[i] == spec_lookup(cols, name)->Some_0 && #[trigger] cols[i].name@
            == name;
    lemma_col_bounds(cols, i);
}

/// Evaluates every condition against one row, all of them ANDed.
pub fn are_conditions_passing(
    row: &Vec<u8>,
    schema: &Schema,
    conditions: &Vec<FieldCondition>,
) -> (r: bool)
    requires
        schema_wf(schema@),
        row@.len() == spec_row_size(schema@),
    ensures
        r == spec_conditions_pass(row@, schema@, conditions@),
{
    let n = conditions.len();
    let mut i: usize = 0;
    while i < n
        invariant
            schema_wf(schema@),
            row@.len() == spec_row_size(schema@),
            n == conditions@.len(),
            0 <= i <= n,
            forall|j: int|
                0 <= j < i ==> spec_condition_passes(row@, schema@, #[trigger] conditions@[j]),
        decreases n - i,
    {
        let condition = &conditions[i];
        let column_info = match schema_lookup(schema, condition.field_name.as_str()) {
            Some(ci) => ci,
            None => {
                return false;
            },
        };
        let relation = Relation::from(&condition.relation);
        let value = Val::from(condition.value.clone(), &column_info.field_def.config);
        if relation.is_none() || value.is_none() {
            return false;
        }
        proof {
            lemma_lookup_col_fits(schema@, condition.field_name@);
        }
        let orig = extract_row_value(row, column_info);
        let value = match value {
            Some(v) => v,
            None => {
                return false;
            },
        };
        match relation {
            Some(Relation::Eq) => {
                if !(orig == value) {
                    return false;
                }
            },
            Some(Relation::Lt) => {
                if !(orig < value) {
                    return false;
                }
            },
            Some(Relation::Gt) => {
                if !(orig > value) {
                    return false;
                }
            },
            None => {
                return false;
            },
        }
        i = i + 1;
    }
    true
}

/// The scalars a row projects to: the decode of each requested column in
/// request order; a name that resolves to no column is skipped.
pub open spec fn spec_project_row(row: Seq<u8>, cols: Seq<ColumnInfo>, req: Seq<String>) -> Seq<
    ValV,
>
    decreases req.len(),
{
    if req.len() == 0 {
        Seq::<ValV>::empty()
    } else {
        let rest = spec_project_row(row, cols, req.drop_first());
        match spec_lookup(cols, req[0]@) {
            Some(ci) => seq![spec_decode_column(row, ci)] + rest,
            None => rest,
        }
    }
}

/// Projecting one more requested column appends its decode, if it
/// resolves.
proof fn lemma_project_snoc(row: Seq<u8>, cols: Seq<ColumnInfo>, req: Seq<String>, x: String)
    ensures
        spec_project_row(row, cols, req.push(x)) == spec_project_row(row, cols, req) + (
        match spec_lookup(cols, x@) {
            Some(ci) => seq![spec_decode_column(row, ci)],
            None => Seq::<ValV>::empty(),
        }),
    decreases req.len(),
{
    let tailed = match spec_lookup(cols, x@) {
        Some(ci) => seq![spec_decode_column(row, ci)],
        None => Seq::<ValV>::empty(),
    };
    if req.len() == 0 {
        assert(req.push(x)[0] == x);
        assert(req.push(x).drop_first() =~= Seq::<String>::empty());
        assert(spec_project_row(row, cols, Seq::<String>::empty()) == Seq::<ValV>::empty());
        assert(Seq::<ValV>::empty() + tailed =~= tailed);
        match spec_lookup(cols, x@) {
            Some(ci) => {
                assert(seq![spec_decode_column(row, ci)] + Seq::<ValV>::empty() =~= tailed);
            },
            None => {},
        }
    } else {
        assert(req.push(x)[0] == req[0]);
        assert(req.push(x).drop_first() =~= req.drop_first().push(x));
        lemma_project_snoc(row, cols, req.drop_first(), x);
        match spec_lookup(cols, req[0]@) {
            Some(ci) => {
                assert(seq![spec_decode_column(row, ci)] + (spec_project_row(
                    row,
                    cols,
                    req.drop_first(),
                ) + tailed) =~= (seq![spec_decode_column(row, ci)] + spec_project_row(
                    row,
                    cols,
                    req.drop_first(),
                )) + tailed);
            },
            None => {},
        }
    }
}

/// The full select result: every stored row in insertion order, kept when
/// all conditions pass, projected to the requested columns.
pub open spec fn spec_select_rows(
    rows: Seq<Seq<u8>>,
    cols: Seq<ColumnInfo>,
    req: Seq<String>,
    conds: Seq<FieldCondition>,
) -> Seq<Seq<ValV>>
    decreases rows.len(),
{
    if rows.len() == 0 {
        Seq::<Seq<ValV>>::empty()
    } else {
        let prev = spec_select_rows(rows.drop_last(), cols, req, conds);
        if spec_conditions_pass(rows.last(), cols, conds) {
            prev.push(spec_project_row(rows.last(), cols, req))
        } else {
            prev
        }
    }
}

/// Whether a select request can be answered: the table must exist and
/// every named column, in conditions and in the projection list, must
/// resolve in its schema.
pub open spec fn spec_select_valid(tables: Seq<(String, Table)>, q: SelectQuery) -> bool {
    match spec_assoc(tables, q.table@) {
        Some(t) => {
            &&& forall|j: int|
                0 <= j < q.conditions@.len() ==> spec_lookup(
                    t.schema@,
                    (#[trigger] q.conditions@[j]).field_name@,
                ) is Some
            &&& forall|j: int|
                0 <= j < q.columns@.len() ==> spec_lookup(
                    t.schema@,
                    (#[trigger] q.columns@[j])@,
                ) is Some
        },
        None => false,
    }
}

/// A fresh table as `create` installs it: derived from the definitions,
/// no rows, one empty index per requested index column.
pub open spec fn spec_fresh_table(t: Table, fields: Seq<FieldDef>, indices: Seq<String>) -> bool {
    &&& t.wf()
    &&& schema_wf(t.schema@)
    &&& schema_matches(t.schema@, fields)
    &&& t.spec_rows() == Seq::<Seq<u8>>::empty()
    &&& t.spec_index_count() == indices.len()
    &&& forall|k: int| 0 <= k < indices.len() ==> #[trigger] t.spec_index_name(k) == indices[k]@
    &&& forall|k: int, w: ValV|
        0 <= k < indices.len() ==> #[trigger] t.spec_index_positions(k, w) == Seq::<usize>::empty()
}

/// Whether the text holds the persisted files' separator character `.`.
pub open spec fn has_dot(s: Seq<char>) -> bool {
    exists|i: int| 0 <= i < s.len() && (#[trigger] s[i]) as u32 == 46
}

/// Scans a name for the persisted files' separator character.
fn name_has_dot(s: &str) -> (r: bool)
    ensures
        r == has_dot(s@),
{
    let n = s.unicode_len();
    let mut i: usize = 0;
    while i < n
        invariant
            0 <= i <= n == s@.len(),
            forall|j: int| 0 <= j < i ==> (#[trigger] s@[j]) as u32 != 46,
        decreases n - i,
    {
        if s.get_char(i) as u32 == 46 {
            return true;
        }
        i = i + 1;
    }
    false
}

/// A name no entry carries: no entry carries it.
pub proof fn lemma_assoc_none_no_match<T>(entries: Seq<(String, T)>, name: Seq<char>)
    requires
        spec_assoc(entries, name) is None,
    ensures
        forall|j: int| 0 <= j < entries.len() ==> #[trigger] entries[j].0@ != name,
    decreases entries.len(),
{
    if entries.len() > 0 {
        lemma_assoc_none_no_match(entries.drop_first(), name);
        assert forall|j: int| 0 <= j < entries.len() implies #[trigger] entries[j].0@ != name by {
            if j > 0 {
                assert(entries.drop_first()[j - 1] == entries[j]);
            }
        }
    }
}

/// The engine: the name-to-table mapping that dispatches every operation.
#[derive(Debug)]
pub struct Engine {
    pub tables: Vec<(String, Table)>,
}

impl Engine {
    /// Every table is well formed and table names are unique.
    pub open spec fn wf(&self) -> bool {
        &&& forall|i: int| 0 <= i < self.tables@.len() ==> (#[trigger] self.tables@[i]).1.wf()
        &&& forall|i: int, j: int|
            0 <= i < j < self.tables@.len() ==> #[trigger] self.tables@[i].0@
                != #[trigger] self.tables@[j].0@
    }
}

impl Default for Engine {
    /// An engine with no tables.
    fn default() -> (r: Engine)
        ensures
            r.wf(),
            r.tables@.len() == 0,
    {
        Engine { tables: Vec::new() }
    }
}

impl Engine {
    /// Installs a new table under the request's name, overwriting a prior
    /// table of that name. Rejected exactly when the table name holds the
    /// persisted files' separator `.`, or the definitions' total row
    /// width does not fit the address space.
    pub fn create_table(&mut self, q: CreateQuery) -> (r: Result<(), ()>)
        requires
            old(self).wf(),
        ensures
            final(self).wf(),
            r is Ok <==> (!has_dot(q.table@) && spec_defs_size(q.fields@) <= usize::MAX),
            r is Err ==> *final(self) == *old(self),
            r is Ok ==> ({
                &&& spec_assoc(final(self).tables@, q.table@) matches Some(t)
                &&& spec_fresh_table(t, q.fields@, q.indices@)
            }),
            r is Ok ==> forall|name: Seq<char>|
                name != q.table@ ==> #[trigger] spec_assoc(final(self).tables@, name) == spec_assoc(
                    old(self).tables@,
                    name,
                ),
    {
        if name_has_dot(q.table.as_str()) {
            return Err(());
        }
        let nf = q.fields.len();
        let mut total: u128 = 0;
        let mut i: usize = 0;
        proof {
            assert(q.fields@.take(0) =~= Seq::<FieldDef>::empty());
        }
        while i < nf
            invariant
                nf == q.fields@.len(),
                0 <= i <= nf,
                total == spec_defs_size(q.fields@.take(i as int)),
                total <= 255 * i,
            decreases nf - i,
        {
            let size = size_of_type(&q.fields[i].config);
            proof {
                lemma_defs_size_take_succ(q.fields@, i as int);
                assert(spec_size_of(q.fields@[i as int].config) <= 255);
            }
            total = total + size as u128;
            i = i + 1;
        }
        proof {
            assert(q.fields@.take(nf as int) =~= q.fields@);
        }
        if total > usize::MAX as u128 {
            return Err(());
        }
        let table = Table::new(q.fields, q.indices);
        self.install_table(q.table, table);
        Ok(())
    }

    /// Installs `table` under `name`, overwriting a prior table of that
    /// name and leaving every other table untouched.
    pub fn install_table(&mut self, name: String, table: Table)
        requires
            old(self).wf(),
            table.wf(),
        ensures
            final(self).wf(),
            spec_assoc(final(self).tables@, name@) == Some(table),
            forall|other: Seq<char>|
                other != name@ ==> #[trigger] spec_assoc(final(self).tables@, other) == spec_assoc(
                    old(self).tables@,
                    other,
                ),
    {
        let entry = (name, table);
        let ghost gentry = entry;
        match assoc_index(&self.tables, entry.0.as_str()) {
            Some(at) => {
                let ghost old_entries = self.tables@;
                let _ = self.tables.remove(at);
                self.tables.insert(at, entry);
                proof {
                    assert(self.tables@ =~= old_entries.update(at as int, gentry));
                    lemma_assoc_update(old_entries, self.tables@, at as int);
                    assert forall|p: int, q2: int|
                        0 <= p < q2 < self.tables@.len() implies #[trigger] self.tables@[p].0@
                        != #[trigger] self.tables@[q2].0@ by {
                        assert(self.tables@[p].0@ == old_entries[p].0@);
                        assert(self.tables@[q2].0@ == old_entries[q2].0@);
                        assert(old(self).tables@[p].0@ != old(self).tables@[q2].0@);
                    }
                    assert forall|k: int|
                        0 <= k < self.tables@.len() implies (#[trigger] self.tables@[k]).1.wf() by {
                        if k != at {
                            assert(self.tables@[k] == old_entries[k]);
                            assert((old(self).tables@[k]).1.wf());
                        }
                    }
                }
            },
            None => {
                let ghost old_entries = self.tables@;
                self.tables.push(entry);
                proof {
                    lemma_assoc_none_no_match(old_entries, gentry.0@);
                    assert forall|other: Seq<char>| other != gentry.0@ implies #[trigger] spec_assoc(
                        self.tables@,
                        other,
                    ) == spec_assoc(old_entries, other) by {
                        lemma_assoc_push(old_entries, gentry, other);
                    }
                    lemma_assoc_push(old_entries, gentry, gentry.0@);
                    assert forall|p: int, q2: int|
                        0 <= p < q2 < self.tables@.len() implies #[trigger] self.tables@[p].0@
                        != #[trigger] self.tables@[q2].0@ by {
                        if q2 < old_entries.len() {
                            assert(self.tables@[p] == old_entries[p]);
                            assert(self.tables@[q2] == old_entries[q2]);
                            assert(old(self).tables@[p].0@ != old(self).tables@[q2].0@);
                        } else {
                            assert(self.tables@[p] == old_entries[p]);
                            assert(self.tables@[q2].0@ == gentry.0@);
                        }
                    }
                    assert forall|k: int|
                        0 <= k < self.tables@.len() implies (#[trigger] self.tables@[k]).1.wf() by {
                        if k < old_entries.len() {
                            assert(self.tables@[k] == old_entries[k]);
                            assert((old(self).tables@[k]).1.wf());
                        } else {
                            assert(self.tables@[k].1 == gentry.1);
                        }
                    }
                }
            },
        }
    }

    /// Delegates a row insertion to the named table. Fails exactly when
    /// the table does not exist; the insert itself always succeeds.
    pub fn insert(&mut self, query: InsertQuery) -> (r: Result<(), ()>)
        requires
            old(self).wf(),
        ensures
            final(self).wf(),
            r is Ok <==> spec_assoc(old(self).tables@, query.table_name@) is Some,
            r is Err ==> *final(self) == *old(self),
            r is Ok ==> ({
                &&& spec_assoc(old(self).tables@, query.table_name@) matches Some(t0)
                &&& spec_assoc(final(self).tables@, query.table_name@) matches Some(t1)
                &&& spec_inserted(t0, t1, query.raw_inserts@)
            }),
            r is Ok ==> forall|name: Seq<char>|
                name != query.table_name@ ==> #[trigger] spec_assoc(final(self).tables@, name)
                    == spec_assoc(old(self).tables@, name),
    {
        match assoc_index(&self.tables, query.table_name.as_str()) {
            None => Err(()),
            Some(at) => {
                let ghost old_entries = self.tables@;
                let mut entry = self.tables.remove(at);
                let _ = entry.1.raw_insert(query.raw_inserts);
                let ghost gentry = entry;
                self.tables.insert(at, entry);
                proof {
                    assert(self.tables@ =~= old_entries.update(at as int, gentry));
                    lemma_assoc_update(old_entries, self.tables@, at as int);
                    assert forall|p: int, q2: int|
                        0 <= p < q2 < self.tables@.len() implies #[trigger] self.tables@[p].0@
                        != #[trigger] self.tables@[q2].0@ by {
                        assert(self.tables@[p].0@ == old_entries[p].0@);
                        assert(self.tables@[q2].0@ == old_entries[q2].0@);
                        assert(old(self).tables@[p].0@ != old(self).tables@[q2].0@);
                    }
                    assert forall|k: int|
                        0 <= k < self.tables@.len() implies (#[trigger] self.tables@[k]).1.wf() by {
                        if k != at {
                            assert(self.tables@[k] == old_entries[k]);
                            assert((old(self).tables@[k]).1.wf());
                        }
                    }
                }
                Ok(())
            },
        }
    }

    /// Answers a filtered projection query by a linear scan over the
    /// named table's rows, in insertion order; the indices are maintained
    /// on insert but never consulted here. Fails exactly when the table
    /// does not exist or a named column, in a condition or in the
    /// projection list, is unknown.
    pub fn select(&self, query: SelectQuery) -> (r: Result<Vec<Vec<Val>>, ()>)
        requires
            self.wf(),
        ensures
            r is Ok <==> spec_select_valid(self.tables@, query),
            r matches Ok(rows) ==> ({
                &&& spec_assoc(self.tables@, query.table@) matches Some(t)
                &&& rows.deep_view() == spec_select_rows(
                    t.spec_rows(),
                    t.schema@,
                    query.columns@,
                    query.conditions@,
                )
            }),
    {
        let db = match assoc_get(&self.tables, query.table.as_str()) {
            Some(db) => db,
            None => {
                return Err(());
            },
        };
        proof {
            lemma_lookup_member_table(self.tables@, query.table@);
        }
        let nc = query.conditions.len();
        let mut vi: usize = 0;
        while vi < nc
            invariant
                nc == query.conditions@.len(),
                0 <= vi <= nc,
                spec_assoc(self.tables@, query.table@) == Some(*db),
                forall|j: int|
                    0 <= j < vi ==> spec_lookup(
                        db.schema@,
                        (#[trigger] query.conditions@[j]).field_name@,
                    ) is Some,
            decreases nc - vi,
        {
            if schema_lookup(&db.schema, query.conditions[vi].field_name.as_str()).is_none() {
                return Err(());
            }
            vi = vi + 1;
        }
        let ncols = query.columns.len();
        let mut vc: usize = 0;
        while vc < ncols
            invariant
                ncols == query.columns@.len(),
                0 <= vc <= ncols,
                spec_assoc(self.tables@, query.table@) == Some(*db),
                forall|j: int|
                    0 <= j < vc ==> spec_lookup(
                        db.schema@,
                        (#[trigger] query.columns@[j])@,
                    ) is Some,
            decreases ncols - vc,
        {
            if schema_lookup(&db.schema, query.columns[vc].as_str()).is_none() {
                return Err(());
            }
            vc = vc + 1;
        }
        let nrows = db.data.len();
        let mut res: Vec<Vec<Val>> = Vec::new();
        let mut ri: usize = 0;
        proof {
            assert(db.spec_rows().take(0) =~= Seq::<Seq<u8>>::empty());
        }
        while ri < nrows
            invariant
                self.wf(),
                nrows == db.data@.len(),
                ncols == query.columns@.len(),
                0 <= ri <= nrows,
                spec_assoc(self.tables@, query.table@) == Some(*db),
                db.wf(),
                forall|j: int|
                    0 <= j < query.conditions@.len() ==> spec_lookup(
                        db.schema@,
                        (#[trigger] query.conditions@[j]).field_name@,
                    ) is Some,
                forall|j: int|
                    0 <= j < query.columns@.len() ==> spec_lookup(
                        db.schema@,
                        (#[trigger] query.columns@[j])@,
                    ) is Some,
                res.deep_view() == spec_select_rows(
                    db.spec_rows().take(ri as int),
                    db.schema@,
                    query.columns@,
                    query.conditions@,
                ),
            decreases nrows - ri,
        {
            let row = &db.data[ri];
            proof {
                assert(db.spec_rows()[ri as int] == row@);
                assert(row@.len() == spec_row_size(db.schema@));
            }
            if are_conditions_passing(row, &db.schema, &query.conditions) {
                let mut row_vals: Vec<Val> = Vec::new();
                let mut ci: usize = 0;
                proof {
                    assert(query.columns@.take(0) =~= Seq::<String>::empty());
                }
                while ci < ncols
                    invariant
                        ncols == query.columns@.len(),
                        0 <= ci <= ncols,
                        schema_wf(db.schema@),
                        row@.len() == spec_row_size(db.schema@),
                        row_vals.deep_view() == spec_project_row(
                            row@,
                            db.schema@,
                            query.columns@.take(ci as int),
                        ),
                    decreases ncols - ci,
                {
                    match schema_lookup(&db.schema, query.columns[ci].as_str()) {
                        Some(column_info) => {
                            proof {
                                lemma_lookup_col_fits(db.schema@, query.columns@[ci as int]@);
                            }
                            let v = extract_row_value(row, column_info);
                            let ghost prev_vals = row_vals.deep_view();
                            row_vals.push(v);
                            proof {
                                lemma_project_snoc(
                                    row@,
                                    db.schema@,
                                    query.columns@.take(ci as int),
                                    query.columns@[ci as int],
                                );
                                assert(query.columns@.take(ci as int + 1) =~= query.columns@.take(
                                    ci as int,
                                ).push(query.columns@[ci as int]));
                                assert(row_vals.deep_view() =~= prev_vals + seq![v@]);
                                assert(prev_vals + seq![v@] =~= prev_vals.push(v@));
                            }
                        },
                        None => {
                            proof {
                                lemma_project_snoc(
                                    row@,
                                    db.schema@,
                                    query.columns@.take(ci as int),
                                    query.columns@[ci as int],
                                );
                                assert(query.columns@.take(ci as int + 1) =~= query.columns@.take(
                                    ci as int,
                                ).push(query.columns@[ci as int]));
                                assert(spec_project_row(
                                    row@,
                                    db.schema@,
                                    query.columns@.take(ci as int),
                                ) + Seq::<ValV>::empty() =~= spec_project_row(
                                    row@,
                                    db.schema@,
                                    query.columns@.take(ci as int),
                                ));
                            }
                        },
                    }
                    ci = ci + 1;
                }
                proof {
                    assert(query.columns@.take(ncols as int) =~= query.columns@);
                }
                let ghost prev_res = res.deep_view();
                res.push(row_vals);
                proof {
                    assert(db.spec_rows().take(ri as int + 1).drop_last() =~= db.spec_rows().take(
                        ri as int,
                    ));
                    assert(db.spec_rows().take(ri as int + 1).last() == row@);
                    assert(res.deep_view() =~= prev_res.push(
                        spec_project_row(row@, db.schema@, query.columns@),
                    ));
                }
            } else {
                proof {
                    assert(db.spec_rows().take(ri as int + 1).drop_last() =~= db.spec_rows().take(
                        ri as int,
                    ));
                    assert(db.spec_rows().take(ri as int + 1).last() == row@);
                }
            }
            ri = ri + 1;
        }
        proof {
            assert(db.spec_rows().take(nrows as int) =~= db.spec_rows());
        }
        Ok(res)
    }
}

/// Law: for any `Int` column and any `u32` value, encoding the value's
/// decimal text into the column and decoding the column yields the value
/// back.
pub proof fn lemma_int_round_trip(row: Seq<u8>, ci: ColumnInfo, v: u32)
    requires
        ci_wf(ci),
        ci.field_def.config == Type::Int,
        ci.offs + ci.size <= row.len(),
    ensures
        spec_decode_column(
            spec_encode_column(
                row,
                ci.offs as int,
                ci.size as nat,
                dec_digits(v as nat),
                Type::Int,
            ),
            ci,
        ) == ValV::U32(v),
{
    lemma_dec_digits(v as nat);
    let text = dec_digits(v as nat);
    assert(int_text(text) && dec_val(text) == v);
    let bytes = le_bytes(v as nat, 4);
    lemma_le_bytes_len(v as nat, 4);
    let row1 = spec_encode_column(row, ci.offs as int, ci.size as nat, text, Type::Int);
    assert(row1 == splice(row, ci.offs as int, bytes));
    assert(row1.subrange(ci.offs as int, ci.offs + ci.size) =~= bytes);
    lemma_le_round_trip(v as nat, 4);
    reveal_with_fuel(pow256, 5);
    assert(pow256(4) == 0x1_0000_0000);
    vstd::arithmetic::div_mod::lemma_small_mod(v as nat, 0x1_0000_0000);
    assert(le_val(bytes) == v);
}

/// Law: for a `Text(n)` column whose slot is still zero-filled, text of at
/// most `n` non-NUL single-byte characters decodes back exactly (the zero
/// padding is stripped); longer text decodes to its first `n` characters.
pub proof fn lemma_text_round_trip(row: Seq<u8>, ci: ColumnInfo, n: u8, s: Seq<char>)
    requires
        ci_wf(ci),
        ci.field_def.config == Type::Varchar(n),
        ci.offs + ci.size <= row.len(),
        forall|i: int| 0 <= i < s.len() ==> 1 <= (#[trigger] s[i]) as u32 <= 255,
        forall|j: int| ci.offs <= j < ci.offs + ci.size ==> row[j] == 0,
    ensures
        s.len() <= n ==> spec_decode_column(
            spec_encode_column(row, ci.offs as int, ci.size as nat, s, Type::Varchar(n)),
            ci,
        ) == ValV::Varchar(s),
        s.len() > n ==> spec_decode_column(
            spec_encode_column(row, ci.offs as int, ci.size as nat, s, Type::Varchar(n)),
            ci,
        ) == ValV::Varchar(s.take(n as int)),
{
    let size = ci.size as nat;
    let written = if s.len() <= size {
        s
    } else {
        s.take(size as int)
    };
    assert(forall|i: int| 0 <= i < written.len() ==> 1 <= (#[trigger] written[i]) as u32 <= 255);
    let bytes = chars_bytes(written);
    let row1 = spec_encode_column(row, ci.offs as int, ci.size as nat, s, Type::Varchar(n));
    assert(row1 == splice(row, ci.offs as int, bytes));
    let slot = row1.subrange(ci.offs as int, ci.offs + n);
    let chars2 = bytes_chars(slot);
    assert(chars2.len() == n);
    assert forall|j: int| 0 <= j < written.len() implies #[trigger] chars2[j] == written[j] by {
        let c = written[j];
        let code = c as u32;
        assert(slot[j] == bytes[j]);
        assert(bytes[j] == code as u8);
        assert(1 <= code <= 255);
        let b = code as u8;
        assert(b as u32 == code);
        assert((b as char) as u32 == b as u32);
        vstd::utf8::char_u32_cast(c, code);
        vstd::utf8::char_u32_cast(b as char, code);
        assert(b as char == c);
    }
    assert forall|j: int| written.len() <= j < n implies (#[trigger] chars2[j]) as u32 == 0 by {
        assert(slot[j] == row[ci.offs + j]);
        assert(row[ci.offs + j] == 0);
    }
    lemma_strip_zero_prefix(chars2, written.len() as int);
    assert(chars2.take(written.len() as int) =~= written);
    if written.len() < n {
        assert(chars2.skip(written.len() as int)[0] as u32 == 0);
        assert(strip_zero(chars2.skip(written.len() as int)) =~= Seq::<char>::empty());
    } else {
        assert(chars2.skip(written.len() as int) =~= Seq::<char>::empty());
    }
    assert(written + Seq::<char>::empty() =~= written);
    assert(strip_zero(chars2) == written);
}

/// Law: text that is not a non-negative decimal integer — negative or
/// otherwise non-numeric — leaves an `Int` column's bytes exactly as they
/// were; the row itself is still appended, as [`Table::raw_insert`]
/// ensures unconditionally.
pub proof fn lemma_bad_int_text_keeps_bytes(row: Seq<u8>, offs: int, size: nat, raw: Seq<char>)
    requires
        !int_text(raw),
    ensures
        spec_encode_column(row, offs, size, raw, Type::Int) == row,
{
}

/// Law: a select with no conditions returns every row, in insertion
/// order, projected to the requested columns.
pub proof fn lemma_select_no_conditions(
    rows: Seq<Seq<u8>>,
    cols: Seq<ColumnInfo>,
    req: Seq<String>,
)
    ensures
        spec_select_rows(rows, cols, req, Seq::<FieldCondition>::empty()).len() == rows.len(),
        forall|i: int|
            0 <= i < rows.len() ==> #[trigger] spec_select_rows(
                rows,
                cols,
                req,
                Seq::<FieldCondition>::empty(),
            )[i] == spec_project_row(rows[i], cols, req),
    decreases rows.len(),
{
    if rows.len() > 0 {
        lemma_select_no_conditions(rows.drop_last(), cols, req);
        assert(spec_conditions_pass(rows.last(), cols, Seq::<FieldCondition>::empty()));
        assert forall|i: int|
            0 <= i < rows.len() implies #[trigger] spec_select_rows(
            rows,
            cols,
            req,
            Seq::<FieldCondition>::empty(),
        )[i] == spec_project_row(rows[i], cols, req) by {
            if i < rows.len() - 1 {
                assert(rows.drop_last()[i] == rows[i]);
            }
        }
    }
}

/// Law: conditions are conjunctive: a row that fails any one condition of
/// the request is excluded from the result, however many of the other
/// conditions it meets.
pub proof fn lemma_conditions_conjunctive(
    rows: Seq<Seq<u8>>,
    cols: Seq<ColumnInfo>,
    req: Seq<String>,
    conds: Seq<FieldCondition>,
    k: int,
)
    requires
        rows.len() > 0,
        0 <= k < conds.len(),
        !spec_condition_passes(rows.last(), cols, conds[k]),
    ensures
        spec_select_rows(rows, cols, req, conds) == spec_select_rows(
            rows.drop_last(),
            cols,
            req,
            conds,
        ),
{
    assert(!spec_conditions_pass(rows.last(), cols, conds));
}

/// The textual rendering of a column type.
pub open spec fn spec_describe_type(t: Type) -> Seq<char> {
    match t {
        Type::Int => "Int"@,
        Type::Varchar(n) => "Varchar "@ + dec_digits(n as nat),
    }
}

/// One column's description line.
pub open spec fn spec_describe_col(ci: ColumnInfo) -> Seq<char> {
    "\t"@ + ci.name@ + " : offs "@ + dec_digits(ci.offs as nat) + " size "@ + dec_digits(
        ci.size as nat,
    ) + " "@ + spec_describe_type(ci.field_def.config) + "\n"@
}

/// The description lines of a schema's columns, in schema order.
pub open spec fn spec_describe_cols(cols: Seq<ColumnInfo>) -> Seq<char>
    decreases cols.len(),
{
    if cols.len() == 0 {
        Seq::<char>::empty()
    } else {
        spec_describe_cols(cols.drop_last()) + spec_describe_col(cols.last())
    }
}

/// The index lines of a table, one per indexed column.
pub open spec fn spec_describe_indices(entries: Seq<(String, BasicIndex)>) -> Seq<char>
    decreases entries.len(),
{
    if entries.len() == 0 {
        Seq::<char>::empty()
    } else {
        spec_describe_indices(entries.drop_last()) + "\tIndex on: "@ + entries.last().0@ + "\n"@
    }
}

/// One table's description: its name, its columns, its indexed columns.
pub open spec fn spec_describe_table(name: Seq<char>, t: Table) -> Seq<char> {
    name + "\n"@ + spec_describe_cols(t.schema@) + spec_describe_indices(t.indices@)
}

/// The whole database's description, table by table.
pub open spec fn spec_describe(tables: Seq<(String, Table)>) -> Seq<char>
    decreases tables.len(),
{
    if tables.len() == 0 {
        Seq::<char>::empty()
    } else {
        spec_describe(tables.drop_last()) + spec_describe_table(
            tables.last().0@,
            tables.last().1,
        )
    }
}

impl Engine {
    /// Renders, for every table, its name, each column's name, offset,
    /// width and type, and the names of the indexed columns — diagnostic
    /// only, never consulted by query logic.
    pub fn describe_db(&self) -> (out: String)
        ensures
            out@ == spec_describe(self.tables@),
    {
        let mut out = String::new();
        let n = self.tables.len();
        let mut i: usize = 0;
        proof {
            assert(self.tables@.take(0) =~= Seq::<(String, Table)>::empty());
            assert(out@ =~= spec_describe(self.tables@.take(0)));
        }
        while i < n
            invariant
                0 <= i <= n == self.tables@.len(),
                out@ == spec_describe(self.tables@.take(i as int)),
            decreases n - i,
        {
            let name = &self.tables[i].0;
            let db = &self.tables[i].1;
            let ghost before = out@;
            out.append(name.as_str());
            out.append("\n");
            let nc = db.schema.len();
            let mut j: usize = 0;
            let ghost cols_start = out@;
            proof {
                assert(db.schema@.take(0) =~= Seq::<ColumnInfo>::empty());
                assert(cols_start + spec_describe_cols(db.schema@.take(0)) =~= cols_start);
            }
            while j < nc
                invariant
                    0 <= j <= nc == db.schema@.len(),
                    out@ == cols_start + spec_describe_cols(db.schema@.take(j as int)),
                decreases nc - j,
            {
                let ci = &db.schema[j];
                let ghost col_start = out@;
                out.append("\t");
                out.append(ci.name.as_str());
                out.append(" : offs ");
                let offs_text = crate::text::u64_to_string(ci.offs as u64);
                out.append(offs_text.as_str());
                out.append(" size ");
                let size_text = crate::text::u64_to_string(ci.size as u64);
                out.append(size_text.as_str());
                out.append(" ");
                match ci.field_def.config {
                    Type::Int => {
                        out.append("Int");
                    },
                    Type::Varchar(cap) => {
                        out.append("Varchar ");
                        let cap_text = crate::text::u64_to_string(cap as u64);
                        out.append(cap_text.as_str());
                    },
                }
                out.append("\n");
                proof {
                    let c = db.schema@[j as int];
                    assert(out@ =~= col_start + spec_describe_col(c));
                    assert(db.schema@.take(j as int + 1).drop_last() =~= db.schema@.take(
                        j as int,
                    ));
                    assert(db.schema@.take(j as int + 1).last() == c);
                    assert(out@ =~= cols_start + spec_describe_cols(db.schema@.take(j as int + 1)));
                }
                j = j + 1;
            }
            proof {
                assert(db.schema@.take(nc as int) =~= db.schema@);
            }
            let ni = db.indices.len();
            let mut k: usize = 0;
            let ghost idx_start = out@;
            proof {
                assert(db.indices@.take(0) =~= Seq::<(String, BasicIndex)>::empty());
                assert(idx_start + spec_describe_indices(db.indices@.take(0)) =~= idx_start);
            }
            while k < ni
                invariant
                    0 <= k <= ni == db.indices@.len(),
                    out@ == idx_start + spec_describe_indices(db.indices@.take(k as int)),
                decreases ni - k,
            {
                out.append("\tIndex on: ");
                out.append(db.indices[k].0.as_str());
                out.append("\n");
                proof {
                    assert(db.indices@.take(k as int + 1).drop_last() =~= db.indices@.take(
                        k as int,
                    ));
                    assert(db.indices@.take(k as int + 1).last() == db.indices@[k as int]);
                    assert(out@ =~= idx_start + spec_describe_indices(
                        db.indices@.take(k as int + 1),
                    ));
                }
                k = k + 1;
            }
            proof {
                assert(db.indices@.take(ni as int) =~= db.indices@);
                assert(out@ =~= before + spec_describe_table(
                    self.tables@[i as int].0@,
                    self.tables@[i as int].1,
                ));
                assert(self.tables@.take(i as int + 1).drop_last() =~= self.tables@.take(i as int));
                assert(self.tables@.take(i as int + 1).last() == self.tables@[i as int]);
                assert(out@ =~= spec_describe(self.tables@.take(i as int + 1)));
            }
            i = i + 1;
        }
        proof {
            assert(self.tables@.take(n as int) =~= self.tables@);
        }
        out
    }
}

/// A table the lookup resolves to is one of the engine's tables.
proof fn lemma_lookup_member_table(entries: Seq<(String, Table)>, name: Seq<char>)
    requires
        spec_assoc(entries, name) is Some,
    ensures
        exists|i: int|
            0 <= i < entries.len() && #[trigger] entries[i].1 == spec_assoc(entries, name)->Some_0,
    decreases entries.len(),
{
    if entries.len() > 0 {
        if entries[0].0@ == name {
            assert(entries[0].1 == spec_assoc(entries, name)->Some_0);
        } else {
            lemma_lookup_member_table(entries.drop_first(), name);
            let j = choose|j: int|
                0 <= j < entries.drop_first().len() && #[trigger] entries.drop_first()[j].1
                    == spec_assoc(entries.drop_first(), name)->Some_0;
            assert(entries[j + 1].1 == spec_assoc(entries, name)->Some_0);
        }
    }
}

} // verus!
