//! What a workspace's tables hold: the declared columns, plus the statistics
//! of a small sample of rows.

use crate::batch::{batch, batch_bounds, batch_count, count_batches};
use crate::json::{members, object_model, Json, JsonV, NumberV};
use crate::loganalytics::{quoted_name, table_ref, ColumnMeta, ColumnMetaV, TableMeta, TableMetaV};
use crate::order::{
    arrange, arranged, arranged_keeps, arranged_multiset, arranged_views, order, order_has_all,
    order_is_stable, precedes, sorted_set, sorted_set_holds, strictly_sorted, with_text,
    with_text_len, with_text_sorted, Rank, RankV, TextSet,
};
use crate::text::{
    cat3, holds, join, joined, listed, part_is_held, same, text_less, text_less_irreflexive, views,
    Text,
};
use vstd::prelude::*;

verus! {

/// Rows sampled per table.
pub const SAMPLE_SIZE: usize = 20;

/// How far to descend into dynamic columns.
pub const MAX_DEPTH: usize = 3;

/// Ceiling on retained values per field.
pub const VALUE_CAP: usize = 256;

/// One whole, in the units that fractions are counted in. Every fraction of
/// a sample of up to [`SAMPLE_SIZE`] rows is exact in them.
pub const SHARE_ONE: u64 = 232_792_560;

// ── Fields ────────────────────────────────────────────────────────────────

/// A field observed in the sampled rows of a table.
#[derive(Debug, PartialEq)]
pub struct FieldInfo {
    /// Dotted path: `OperationId`, or `Properties.correlationId` inside a
    /// dynamic column.
    pub name: String,
    /// The declared KQL type; empty for a path inside a dynamic column.
    pub kind: String,
    /// JSON types seen, in the order they were first seen.
    pub types: Vec<String>,
    pub seen_in: usize,
    /// Distinct scalar values among the sampled rows.
    pub distinct: usize,
    /// The scalar values themselves, at most [`VALUE_CAP`].
    pub values: TextSet,
}

#[verifier::ext_equal]
pub ghost struct FieldV {
    pub name: Text,
    pub kind: Text,
    pub types: Seq<Text>,
    pub seen_in: int,
    pub distinct: int,
    pub values: Seq<Text>,
}

impl View for FieldInfo {
    type V = FieldV;

    open spec fn view(&self) -> FieldV {
        FieldV {
            name: self.name@,
            kind: self.kind@,
            types: views(self.types@),
            seen_in: self.seen_in as int,
            distinct: self.distinct as int,
            values: self.values@,
        }
    }
}

/// `part` of `whole` in units of one part in [`SHARE_ONE`], rounded down and
/// held to what a `u64` holds; a share of nothing is none.
pub open spec fn share(part: int, whole: int) -> int {
    if whole <= 0 {
        0
    } else if (part * SHARE_ONE) / whole > u64::MAX {
        u64::MAX as int
    } else {
        (part * SHARE_ONE) / whole
    }
}

pub fn share_of(part: usize, whole: usize) -> (r: u64)
    ensures
        r == share(part as int, whole as int),
{
    if whole == 0 {
        return 0;
    }
    assert(0 <= part * SHARE_ONE <= 0xffff_ffff_ffff_ffff * 232_792_560) by (nonlinear_arith)
        requires
            0 <= part <= 0xffff_ffff_ffff_ffff,
            SHARE_ONE == 232_792_560,
    ;
    let exact: u128 = (part as u128) * (SHARE_ONE as u128) / (whole as u128);
    if exact > u64::MAX as u128 {
        u64::MAX
    } else {
        exact as u64
    }
}

/// The share of a whole that is all of it is one, and no part is more.
pub proof fn share_bounds(part: int, whole: int)
    requires
        0 <= part <= whole,
    ensures
        0 <= share(part, whole) <= SHARE_ONE,
        part == whole && whole > 0 ==> share(part, whole) == SHARE_ONE,
{
    if whole > 0 {
        assert((part * SHARE_ONE) / whole <= SHARE_ONE && (part * SHARE_ONE) / whole >= 0)
            by (nonlinear_arith)
            requires
                0 <= part <= whole,
                whole > 0,
                SHARE_ONE == 232_792_560,
        ;
        assert((whole * SHARE_ONE) / whole == SHARE_ONE) by (nonlinear_arith)
            requires
                whole > 0,
                SHARE_ONE == 232_792_560,
        ;
    }
}

/// A share is the largest number of parts that is no more than the quotient.
pub proof fn share_is_nearest_below(part: int, whole: int)
    requires
        0 <= part <= whole,
        whole > 0,
    ensures
        share(part, whole) * whole <= part * SHARE_ONE < (share(part, whole) + 1) * whole,
{
    share_bounds(part, whole);
    let d = part * SHARE_ONE;
    let q = d / whole;
    vstd::arithmetic::div_mod::lemma_fundamental_div_mod(d, whole);
    vstd::arithmetic::div_mod::lemma_mod_bound(d, whole);
    assert(q * whole <= d < (q + 1) * whole) by (nonlinear_arith)
        requires
            d == whole * q + d % whole,
            0 <= d % whole < whole,
    ;
    assert(q <= SHARE_ONE) by (nonlinear_arith)
        requires
            q * whole <= part * SHARE_ONE,
            0 <= part <= whole,
            whole > 0,
    ;
}

impl FieldV {
    pub open spec fn is_scalar(self) -> bool {
        self.types.contains("string"@) || self.types.contains("number"@)
    }

    pub open spec fn is_declared_time(self) -> bool {
        self.kind == "datetime"@
    }
}

impl FieldInfo {
    /// Share of the sampled rows that carry this field.
    pub fn fill(&self, sampled_rows: usize) -> (r: u64)
        ensures
            r == share(self@.seen_in, sampled_rows as int),
    {
        share_of(self.seen_in, sampled_rows)
    }

    /// How selective the field is: one for a different value in every row,
    /// near none for a handful of repeated values.
    pub fn distinct_ratio(&self) -> (r: u64)
        ensures
            r == share(self@.distinct, self@.seen_in),
    {
        share_of(self.distinct, self.seen_in)
    }

    pub fn is_scalar(&self) -> (r: bool)
        ensures
            r == self@.is_scalar(),
    {
        listed(&self.types, "string") || listed(&self.types, "number")
    }

    /// Whether the field was seen holding numbers.
    pub fn is_number(&self) -> (r: bool)
        ensures
            r == self@.types.contains("number"@),
    {
        listed(&self.types, "number")
    }

    /// Whether the workspace declares this column as a timestamp.
    pub fn is_declared_time(&self) -> (r: bool)
        ensures
            r == self@.is_declared_time(),
    {
        same(self.kind.as_str(), "datetime")
    }
}

/// A copy of a list of texts.
pub fn copy_texts(v: &Vec<String>) -> (r: Vec<String>)
    ensures
        views(r@) == views(v@),
{
    let mut r: Vec<String> = Vec::new();
    let mut i: usize = 0;
    while i < v.len()
        invariant
            i <= v@.len(),
            r@.len() == i,
            forall|k: int| 0 <= k < i ==> (#[trigger] r@[k])@ == v@[k]@,
        decreases v@.len() - i,
    {
        r.push(v[i].clone());
        i = i + 1;
    }
    assert(views(r@) =~= views(v@));
    r
}

impl Clone for FieldInfo {
    fn clone(&self) -> (r: FieldInfo)
        ensures
            r@ == self@,
    {
        FieldInfo {
            name: self.name.clone(),
            kind: self.kind.clone(),
            types: copy_texts(&self.types),
            seen_in: self.seen_in,
            distinct: self.distinct,
            values: self.values.clone(),
        }
    }
}

/// One table, as declared plus as sampled.
#[derive(Debug, PartialEq)]
pub struct TableSchema {
    pub table: String,
    pub sampled_rows: usize,
    /// Rows in the scanned window. Zero means that the table exists but held
    /// nothing in range.
    pub rows_in_range: usize,
    pub fields: Vec<FieldInfo>,
}

#[verifier::ext_equal]
pub ghost struct TableV {
    pub table: Text,
    pub sampled_rows: int,
    pub rows_in_range: int,
    pub fields: Seq<FieldV>,
}

impl View for TableSchema {
    type V = TableV;

    open spec fn view(&self) -> TableV {
        TableV {
            table: self.table@,
            sampled_rows: self.sampled_rows as int,
            rows_in_range: self.rows_in_range as int,
            fields: views(self.fields@),
        }
    }
}

impl TableSchema {
    /// The lane identity: the namespace is flat, so it is the table's name.
    pub fn path(&self) -> (r: String)
        ensures
            r@ == self@.table,
    {
        self.table.clone()
    }
}

impl Clone for TableSchema {
    fn clone(&self) -> (r: TableSchema)
        ensures
            r@ == self@,
    {
        let mut fields: Vec<FieldInfo> = Vec::new();
        let mut i: usize = 0;
        while i < self.fields.len()
            invariant
                i <= self.fields@.len(),
                fields@.len() == i,
                forall|k: int| 0 <= k < i ==> (#[trigger] fields@[k])@ == self.fields@[k]@,
            decreases self.fields@.len() - i,
        {
            fields.push(self.fields[i].clone());
            i = i + 1;
        }
        assert(views(fields@) =~= views(self.fields@));
        TableSchema {
            table: self.table.clone(),
            sampled_rows: self.sampled_rows,
            rows_in_range: self.rows_in_range,
            fields,
        }
    }
}

// ── Queries ───────────────────────────────────────────────────────────────

pub open spec fn sample_query_text(tables: Seq<Text>) -> Text {
    "union withsource=SourceTable isfuzzy=true "@ + joined(
        tables.map_values(|t: Text| quoted_name(t)),
        ", "@,
    ) + "\n| summarize Rows = count(), Sample = make_list(pack_all(), 20) by SourceTable"@
}

/// Counts and samples a batch of tables in one round-trip. A table that can
/// no longer be queried is skipped rather than failing the union.
pub fn sample_query(tables: &Vec<String>) -> (r: String)
    ensures
        r@ == sample_query_text(views(tables@)),
{
    let mut refs: Vec<String> = Vec::new();
    let mut i: usize = 0;
    while i < tables.len()
        invariant
            i <= tables@.len(),
            refs@.len() == i,
            forall|k: int| 0 <= k < i ==> (#[trigger] refs@[k])@ == quoted_name(tables@[k]@),
        decreases tables@.len() - i,
    {
        refs.push(table_ref(tables[i].as_str()));
        i = i + 1;
    }
    assert(views(refs@) =~= views(tables@).map_values(|t: Text| quoted_name(t)));
    cat3(
        "union withsource=SourceTable isfuzzy=true ",
        join(&refs, ", ").as_str(),
        "\n| summarize Rows = count(), Sample = make_list(pack_all(), 20) by SourceTable",
    )
}

// ── Flattening ────────────────────────────────────────────────────────────

pub open spec fn path_under(prefix: Text, key: Text) -> Text {
    if prefix.len() == 0 {
        key
    } else {
        prefix + "."@ + key
    }
}

/// The leaves under the members of an object. A nested object is a leaf in
/// its own right and is descended into, up to [`MAX_DEPTH`].
pub open spec fn leaves_of(prefix: Text, ms: Seq<(Text, JsonV)>, depth: int) -> Seq<(Text, JsonV)>
    decreases MAX_DEPTH - depth, ms.len(),
{
    if ms.len() == 0 {
        Seq::empty()
    } else {
        let before = leaves_of(prefix, ms.drop_last(), depth);
        let path = path_under(prefix, ms.last().0);
        if depth + 1 < MAX_DEPTH && ms.last().1 is Object {
            before + seq![(path, JsonV::Object(Seq::empty()))] + leaves_of(
                path,
                ms.last().1->Object_0,
                depth + 1,
            )
        } else {
            before + seq![(path, ms.last().1)]
        }
    }
}

/// The leaves of a row.
pub open spec fn row_leaves(row: JsonV) -> Seq<(Text, JsonV)> {
    match row {
        JsonV::Object(ms) => leaves_of(Seq::empty(), ms, 0),
        _ => Seq::empty(),
    }
}

fn flatten_members(
    prefix: &str,
    ms: &Vec<(String, Json)>,
    depth: usize,
    out: &mut Vec<(String, Json)>,
)
    requires
        depth < MAX_DEPTH,
    ensures
        members(final(out)@) == members(old(out)@) + leaves_of(prefix@, members(ms@), depth as int),
    decreases MAX_DEPTH - depth,
{
    let ghost all = members(ms@);
    let mut i: usize = 0;
    assert(all.take(0) =~= Seq::empty());
    assert(members(out@) =~= members(old(out)@) + leaves_of(prefix@, all.take(0), depth as int));
    while i < ms.len()
        invariant
            i <= ms@.len(),
            all == members(ms@),
            depth < MAX_DEPTH,
            members(out@) == members(old(out)@) + leaves_of(
                prefix@,
                all.take(i as int),
                depth as int,
            ),
        decreases ms@.len() - i,
    {
        let ghost before = members(out@);
        let ghost next = all.take(i + 1);
        assert(next.drop_last() =~= all.take(i as int));
        assert(next.last() == (ms@[i as int].0@, ms@[i as int].1@));
        let path: String = if prefix.is_empty() {
            ms[i].0.clone()
        } else {
            cat3(prefix, ".", ms[i].0.as_str())
        };
        let ghost p = path@;
        let mut nested: bool = false;
        if let Json::Object(inner) = &ms[i].1 {
            if depth + 1 < MAX_DEPTH {
                nested = true;
                proof {
                    object_model(*inner);
                }
                let none: Vec<(String, Json)> = Vec::new();
                proof {
                    object_model(none);
                    assert(members(none@) =~= Seq::empty());
                }
                out.push((path.clone(), Json::Object(none)));
                assert(members(out@) =~= before.push((p, JsonV::Object(Seq::empty()))));
                flatten_members(path.as_str(), inner, depth + 1, out);
                assert(members(out@) =~= members(old(out)@) + leaves_of(
                    prefix@,
                    next,
                    depth as int,
                ));
            }
        }
        if !nested {
            let v = ms[i].1.copy();
            let ghost pair = (p, v@);
            out.push((path, v));
            assert(members(out@) =~= before.push(pair));
            assert(members(out@) =~= members(old(out)@) + leaves_of(prefix@, next, depth as int));
        }
        i = i + 1;
    }
    assert(all.take(i as int) =~= all);
}

/// Walks a row into its dotted paths and values. Arrays are recorded but not
/// descended into: an element's index is not a stable path.
pub fn flatten(row: &Json) -> (r: Vec<(String, Json)>)
    ensures
        members(r@) == row_leaves(row@),
{
    let mut out: Vec<(String, Json)> = Vec::new();
    assert(members(out@) =~= Seq::empty());
    if let Json::Object(ms) = row {
        proof {
            object_model(*ms);
            reveal_strlit("");
            assert(""@ =~= Seq::empty());
        }
        flatten_members("", ms, 0, &mut out);
        assert(members(out@) =~= row_leaves(row@));
    }
    out
}

// ── Statistics ────────────────────────────────────────────────────────────

pub open spec fn shape_name(v: JsonV) -> Text {
    match v {
        JsonV::Null => "null"@,
        JsonV::Bool(_) => "bool"@,
        JsonV::Number(_) => "number"@,
        JsonV::Text(_) => "string"@,
        JsonV::Array(_) => "array"@,
        JsonV::Object(_) => "object"@,
    }
}

/// The text a value is compared by; none for shapes that identify nothing.
pub open spec fn scalar(v: JsonV) -> Option<Text> {
    match v {
        JsonV::Text(s) => Some(s),
        JsonV::Number(n) => Some(n.text),
        _ => None,
    }
}

/// The JSON shape a declared type arrives as.
pub open spec fn declared_type(kind: Text) -> Text {
    if kind == "int"@ || kind == "long"@ || kind == "real"@ || kind == "decimal"@ {
        "number"@
    } else if kind == "bool"@ {
        "bool"@
    } else if kind == "dynamic"@ {
        "object"@
    } else {
        "string"@
    }
}

/// A field nothing is known of.
pub open spec fn blank_field(name: Text) -> FieldV {
    FieldV {
        name,
        kind: Seq::empty(),
        types: Seq::empty(),
        seen_in: 0,
        distinct: 0,
        values: Seq::empty(),
    }
}

/// A field after one more value was seen.
pub open spec fn with_value(f: FieldV, v: JsonV) -> FieldV {
    let ty = shape_name(v);
    let values = match scalar(v) {
        Some(s) => if f.values.len() < VALUE_CAP {
            with_text(f.values, s)
        } else {
            f.values
        },
        None => f.values,
    };
    FieldV {
        types: if f.types.contains(ty) {
            f.types
        } else {
            f.types.push(ty)
        },
        seen_in: f.seen_in + 1,
        distinct: f.distinct + (values.len() - f.values.len()),
        values,
        ..f
    }
}

/// What the leaves say of one field.
pub open spec fn field_after(leaves: Seq<(Text, JsonV)>, name: Text) -> FieldV
    decreases leaves.len(),
{
    if leaves.len() == 0 {
        blank_field(name)
    } else {
        let f = field_after(leaves.drop_last(), name);
        if leaves.last().0 == name {
            with_value(f, leaves.last().1)
        } else {
            f
        }
    }
}

/// A field after one declaration of its column.
pub open spec fn with_column(f: FieldV, kind: Text) -> FieldV {
    FieldV {
        kind,
        types: if f.types.len() == 0 {
            seq![declared_type(kind)]
        } else {
            f.types
        },
        ..f
    }
}

/// A field with what the columns declare of it.
pub open spec fn with_columns(f: FieldV, columns: Seq<ColumnMetaV>) -> FieldV
    decreases columns.len(),
{
    if columns.len() == 0 {
        f
    } else {
        let g = with_columns(f, columns.drop_last());
        if columns.last().name == f.name {
            with_column(g, columns.last().kind)
        } else {
            g
        }
    }
}

/// The leaves of the first `n` rows. The source column is no table's own.
pub open spec fn sampled_leaves(sample: Seq<JsonV>, n: int) -> Seq<(Text, JsonV)>
    decreases n,
{
    if n <= 0 {
        Seq::empty()
    } else {
        sampled_leaves(sample, n - 1) + own_leaves(row_leaves(sample[n - 1]))
    }
}

pub open spec fn own_leaves(leaves: Seq<(Text, JsonV)>) -> Seq<(Text, JsonV)>
    decreases leaves.len(),
{
    if leaves.len() == 0 {
        Seq::empty()
    } else {
        let before = own_leaves(leaves.drop_last());
        if leaves.last().0 == "SourceTable"@ {
            before
        } else {
            before.push(leaves.last())
        }
    }
}

pub open spec fn own_columns(columns: Seq<ColumnMetaV>) -> Seq<ColumnMetaV>
    decreases columns.len(),
{
    if columns.len() == 0 {
        Seq::empty()
    } else {
        let before = own_columns(columns.drop_last());
        if columns.last().name == "SourceTable"@ {
            before
        } else {
            before.push(columns.last())
        }
    }
}

/// The names that fields are made for, ascending.
pub open spec fn field_names(leaves: Seq<(Text, JsonV)>, columns: Seq<ColumnMetaV>) -> Seq<Text> {
    sorted_set(
        leaves.map_values(|l: (Text, JsonV)| l.0) + columns.map_values(|c: ColumnMetaV| c.name),
    )
}

pub open spec fn unsorted_fields(leaves: Seq<(Text, JsonV)>, columns: Seq<ColumnMetaV>) -> Seq<
    FieldV,
> {
    field_names(leaves, columns).map_values(
        |n: Text| with_columns(field_after(leaves, n), columns),
    )
}

/// Fields stand by how many rows carry them, most first, then by name.
pub open spec fn field_rank(f: FieldV) -> RankV {
    RankV { first: -f.seen_in, second: 0, text: f.name }
}

pub open spec fn table_fields(leaves: Seq<(Text, JsonV)>, columns: Seq<ColumnMetaV>) -> Seq<FieldV> {
    let fs = unsorted_fields(leaves, columns);
    arranged(fs, fs.map_values(|f: FieldV| field_rank(f)))
}

pub open spec fn sample_rows(sample: Seq<JsonV>) -> int {
    if sample.len() <= SAMPLE_SIZE {
        sample.len() as int
    } else {
        SAMPLE_SIZE as int
    }
}

pub open spec fn meta_columns(meta: Option<TableMetaV>) -> Seq<ColumnMetaV> {
    match meta {
        Some(m) => m.columns,
        None => Seq::empty(),
    }
}

/// A table from its sampled rows and its declaration.
pub open spec fn summary(
    table: Text,
    rows_in_range: int,
    sample: Seq<JsonV>,
    meta: Option<TableMetaV>,
) -> TableV {
    TableV {
        table,
        sampled_rows: sample_rows(sample),
        rows_in_range,
        fields: table_fields(
            sampled_leaves(sample, sample_rows(sample)),
            own_columns(meta_columns(meta)),
        ),
    }
}

pub fn json_type_name(v: &Json) -> (r: String)
    ensures
        r@ == shape_name(v@),
{
    match v {
        Json::Null => "null".to_owned(),
        Json::Bool(_) => "bool".to_owned(),
        Json::Number(_) => "number".to_owned(),
        Json::Text(_) => "string".to_owned(),
        Json::Array(_) => "array".to_owned(),
        Json::Object(_) => "object".to_owned(),
    }
}

/// The text a value is compared by, if it can be.
pub fn scalar_repr(v: &Json) -> (r: Option<String>)
    ensures
        match r {
            Some(s) => scalar(v@) == Some(s@),
            None => scalar(v@) is None,
        },
{
    match v {
        Json::Text(s) => Some(s.clone()),
        Json::Number(n) => Some(n.text.clone()),
        _ => None,
    }
}

/// The JSON shape a declared column arrives as.
pub fn declared_json_type(column: &ColumnMeta) -> (r: String)
    ensures
        r@ == declared_type(column.kind@),
{
    let kind = column.kind.as_str();
    if same(kind, "int") || same(kind, "long") || same(kind, "real") || same(kind, "decimal") {
        "number".to_owned()
    } else if same(kind, "bool") {
        "bool".to_owned()
    } else if column.is_dynamic() {
        "object".to_owned()
    } else {
        "string".to_owned()
    }
}

fn blank(name: String) -> (r: FieldInfo)
    ensures
        r@ == blank_field(name@),
{
    let r = FieldInfo {
        name,
        kind: String::new(),
        types: Vec::new(),
        seen_in: 0,
        distinct: 0,
        values: TextSet::new(),
    };
    assert(r@ =~= blank_field(name@));
    r
}

fn observe(f: &mut FieldInfo, v: &Json)
    requires
        old(f).seen_in < usize::MAX,
        old(f).distinct <= old(f).seen_in,
    ensures
        final(f)@ == with_value(old(f)@, v@),
        final(f).distinct <= final(f).seen_in,
{
    let ghost before = f@;
    let ty = json_type_name(v);
    if !listed(&f.types, ty.as_str()) {
        let ghost types = views(f.types@);
        let ghost t = ty@;
        f.types.push(ty);
        assert(views(f.types@) =~= types.push(t));
    }
    f.seen_in = f.seen_in + 1;
    if let Some(s) = scalar_repr(v) {
        if f.values.len() < VALUE_CAP {
            if f.values.insert(s) {
                f.distinct = f.distinct + 1;
            }
        }
    }
    assert(f@ =~= with_value(before, v@));
}

fn declare(f: &mut FieldInfo, column: &ColumnMeta)
    ensures
        final(f)@ == with_column(old(f)@, column.kind@),
        final(f).seen_in == old(f).seen_in,
{
    let ghost before = f@;
    f.kind = column.kind.clone();
    if f.types.len() == 0 {
        let ty = declared_json_type(column);
        let ghost t = ty@;
        let ghost types = views(f.types@);
        f.types.push(ty);
        assert(views(f.types@) =~= types.push(t));
    }
    assert(f@ =~= with_column(before, column.kind@));
}

/// Names are kept as fields are filled in.
pub proof fn field_after_facts(leaves: Seq<(Text, JsonV)>, name: Text)
    ensures
        field_after(leaves, name).name == name,
        field_after(leaves, name).kind.len() == 0,
        0 <= field_after(leaves, name).distinct <= field_after(leaves, name).seen_in <= leaves.len(),
        field_after(leaves, name).distinct == field_after(leaves, name).values.len(),
        field_after(leaves, name).values.len() <= VALUE_CAP,
        strictly_sorted(field_after(leaves, name).values),
        field_after(leaves, name).seen_in == 0 ==> field_after(leaves, name) == blank_field(name),
    decreases leaves.len(),
{
    if leaves.len() > 0 {
        field_after_facts(leaves.drop_last(), name);
        let f = field_after(leaves.drop_last(), name);
        if leaves.last().0 == name {
            if let Some(s) = scalar(leaves.last().1) {
                crate::order::with_text_sorted(f.values, s);
                crate::order::with_text_len(f.values, s);
            }
        }
    }
}

/// Declarations touch nothing that was sampled.
pub proof fn with_columns_facts(f: FieldV, columns: Seq<ColumnMetaV>)
    ensures
        with_columns(f, columns).name == f.name,
        with_columns(f, columns).seen_in == f.seen_in,
        with_columns(f, columns).distinct == f.distinct,
        with_columns(f, columns).values == f.values,
    decreases columns.len(),
{
    if columns.len() > 0 {
        with_columns_facts(f, columns.drop_last());
    }
}

fn gather(sample: &Vec<Json>) -> (r: (usize, Vec<(String, Json)>))
    ensures
        r.0 == sample_rows(views(sample@)),
        members(r.1@) == sampled_leaves(views(sample@), sample_rows(views(sample@))),
{
    let ghost rows = views(sample@);
    let mut leaves: Vec<(String, Json)> = Vec::new();
    let mut n: usize = 0;
    assert(members(leaves@) =~= Seq::empty());
    while n < sample.len() && n < SAMPLE_SIZE
        invariant
            n <= sample@.len(),
            n <= SAMPLE_SIZE,
            rows == views(sample@),
            members(leaves@) == sampled_leaves(rows, n as int),
        decreases sample@.len() - n,
    {
        let found = flatten(&sample[n]);
        let ghost mine = members(found@);
        let ghost before = members(leaves@);
        assert(mine == row_leaves(rows[n as int]));
        let mut i: usize = 0;
        assert(mine.take(0) =~= Seq::empty());
        assert(before + own_leaves(mine.take(0)) =~= before);
        while i < found.len()
            invariant
                i <= found@.len(),
                mine == members(found@),
                members(leaves@) == before + own_leaves(mine.take(i as int)),
            decreases found@.len() - i,
        {
            assert(mine.take(i + 1).drop_last() =~= mine.take(i as int));
            if !same(found[i].0.as_str(), "SourceTable") {
                let ghost so_far = members(leaves@);
                let v = found[i].1.copy();
                leaves.push((found[i].0.clone(), v));
                assert(members(leaves@) =~= so_far.push(mine[i as int]));
                assert(members(leaves@) =~= before + own_leaves(mine.take(i + 1)));
            }
            i = i + 1;
        }
        assert(mine.take(i as int) =~= mine);
        n = n + 1;
    }
    (n, leaves)
}

fn own(columns: &Vec<ColumnMeta>) -> (r: Vec<ColumnMeta>)
    ensures
        views(r@) == own_columns(views(columns@)),
{
    let ghost all = views(columns@);
    let mut out: Vec<ColumnMeta> = Vec::new();
    let mut i: usize = 0;
    assert(views(out@) =~= own_columns(all.take(0)));
    while i < columns.len()
        invariant
            i <= columns@.len(),
            all == views(columns@),
            views(out@) == own_columns(all.take(i as int)),
        decreases columns@.len() - i,
    {
        assert(all.take(i + 1).drop_last() =~= all.take(i as int));
        if !same(columns[i].name.as_str(), "SourceTable") {
            let ghost before = views(out@);
            out.push(
                ColumnMeta { name: columns[i].name.clone(), kind: columns[i].kind.clone() },
            );
            assert(views(out@) =~= before.push(all[i as int]));
        }
        i = i + 1;
    }
    assert(all.take(i as int) =~= all);
    out
}

fn name_set(leaves: &Vec<(String, Json)>, columns: &Vec<ColumnMeta>) -> (r: TextSet)
    ensures
        r@ == field_names(members(leaves@), views(columns@)),
{
    let ghost a = members(leaves@).map_values(|l: (Text, JsonV)| l.0);
    let ghost b = views(columns@).map_values(|c: ColumnMetaV| c.name);
    let mut set = TextSet::new();
    let mut i: usize = 0;
    assert((a + b).take(0) =~= Seq::empty());
    while i < leaves.len()
        invariant
            i <= leaves@.len(),
            a == members(leaves@).map_values(|l: (Text, JsonV)| l.0),
            set@ == sorted_set((a + b).take(i as int)),
        decreases leaves@.len() - i,
    {
        assert((a + b).take(i + 1).drop_last() =~= (a + b).take(i as int));
        assert((a + b)[i as int] == leaves@[i as int].0@);
        set.insert(leaves[i].0.clone());
        i = i + 1;
    }
    let mut j: usize = 0;
    while j < columns.len()
        invariant
            j <= columns@.len(),
            a.len() == leaves@.len(),
            b == views(columns@).map_values(|c: ColumnMetaV| c.name),
            set@ == sorted_set((a + b).take(a.len() + j)),
        decreases columns@.len() - j,
    {
        assert((a + b).take(a.len() + j + 1).drop_last() =~= (a + b).take(a.len() + j));
        assert((a + b)[a.len() + j] == columns@[j as int].name@);
        set.insert(columns[j].name.clone());
        j = j + 1;
    }
    assert((a + b).take(a.len() + j) =~= a + b);
    set
}

fn collect_fields(leaves: &Vec<(String, Json)>, columns: &Vec<ColumnMeta>) -> (r: Vec<FieldInfo>)
    ensures
        views(r@) == unsorted_fields(members(leaves@), views(columns@)),
{
    let ghost ls = members(leaves@);
    let ghost cs = views(columns@);
    let set = name_set(leaves, columns);
    let names = set.items();
    proof {
        sorted_set_holds(
            ls.map_values(|l: (Text, JsonV)| l.0) + cs.map_values(|c: ColumnMetaV| c.name),
        );
    }
    let mut fields: Vec<FieldInfo> = Vec::new();
    let mut i: usize = 0;
    while i < names.len()
        invariant
            i <= names@.len(),
            views(names@) == set@,
            fields@.len() == i,
            ls.take(0) == Seq::<(Text, JsonV)>::empty(),
            forall|k: int|
                0 <= k < i ==> (#[trigger] fields@[k])@ == field_after(ls.take(0), set@[k]),
        decreases names@.len() - i,
    {
        fields.push(blank(names[i].clone()));
        assert(views(names@)[i as int] == names@[i as int]@);
        i = i + 1;
    }
    let mut j: usize = 0;
    while j < leaves.len()
        invariant
            j <= leaves@.len(),
            ls == members(leaves@),
            set@ == field_names(ls, cs),
            strictly_sorted(set@),
            fields@.len() == set@.len(),
            forall|x: Text|
                #[trigger] set@.contains(x) <==> (ls.map_values(|l: (Text, JsonV)| l.0)
                    + cs.map_values(|c: ColumnMetaV| c.name)).contains(x),
            forall|k: int|
                0 <= k < fields@.len() ==> (#[trigger] fields@[k])@ == field_after(
                    ls.take(j as int),
                    set@[k],
                ),
        decreases leaves@.len() - j,
    {
        let ghost next = ls.take(j + 1);
        assert(next.drop_last() =~= ls.take(j as int));
        let ghost name = leaves@[j as int].0@;
        let ghost before = fields@;
        match set.position(leaves[j].0.as_str()) {
            Some(p) => {
                proof {
                    field_after_facts(ls.take(j as int), set@[p as int]);
                    assert(fields@[p as int]@ == field_after(ls.take(j as int), set@[p as int]));
                }
                observe(&mut fields[p], &leaves[j].1);
                proof {
                    assert forall|k: int| 0 <= k < fields@.len() implies (#[trigger] fields@[k])@
                        == field_after(next, set@[k]) by {
                        if k == p {
                        } else {
                            assert(fields@[k] == before[k]);
                            assert(before[k]@ == field_after(ls.take(j as int), set@[k]));
                            if set@[k] == name {
                                text_less_irreflexive(name);
                                if k < p {
                                    assert(crate::text::text_less(set@[k], set@[p as int]));
                                } else {
                                    assert(crate::text::text_less(set@[p as int], set@[k]));
                                }
                            }
                        }
                    }
                }
            },
            None => {
                proof {
                    let all = ls.map_values(|l: (Text, JsonV)| l.0) + cs.map_values(
                        |c: ColumnMetaV| c.name,
                    );
                    assert(all[j as int] == name);
                    assert(all.contains(name));
                    assert(set@.contains(name));
                }
            },
        }
        j = j + 1;
    }
    assert(ls.take(j as int) =~= ls);
    let mut c: usize = 0;
    proof {
        assert(cs.take(0) =~= Seq::empty());
        assert forall|k: int| 0 <= k < fields@.len() implies (#[trigger] fields@[k])@
            == with_columns(field_after(ls, set@[k]), cs.take(0)) by {}
    }
    while c < columns.len()
        invariant
            c <= columns@.len(),
            cs == views(columns@),
            set@ == field_names(ls, cs),
            strictly_sorted(set@),
            fields@.len() == set@.len(),
            forall|x: Text|
                #[trigger] set@.contains(x) <==> (ls.map_values(|l: (Text, JsonV)| l.0)
                    + cs.map_values(|c: ColumnMetaV| c.name)).contains(x),
            forall|k: int|
                0 <= k < fields@.len() ==> (#[trigger] fields@[k])@ == with_columns(
                    field_after(ls, set@[k]),
                    cs.take(c as int),
                ),
        decreases columns@.len() - c,
    {
        let ghost next = cs.take(c + 1);
        assert(next.drop_last() =~= cs.take(c as int));
        let ghost name = columns@[c as int].name@;
        let ghost before = fields@;
        match set.position(columns[c].name.as_str()) {
            Some(p) => {
                assert(fields@[p as int]@ == with_columns(
                    field_after(ls, set@[p as int]),
                    cs.take(c as int),
                ));
                declare(&mut fields[p], &columns[c]);
                proof {
                    assert forall|k: int| 0 <= k < fields@.len() implies (#[trigger] fields@[k])@
                        == with_columns(field_after(ls, set@[k]), next) by {
                        field_after_facts(ls, set@[k]);
                        if k == p {
                        } else {
                            assert(fields@[k] == before[k]);
                            assert(before[k]@ == with_columns(
                                field_after(ls, set@[k]),
                                cs.take(c as int),
                            ));
                            if set@[k] == name {
                                text_less_irreflexive(name);
                                if k < p {
                                    assert(crate::text::text_less(set@[k], set@[p as int]));
                                } else {
                                    assert(crate::text::text_less(set@[p as int], set@[k]));
                                }
                            }
                        }
                    }
                }
            },
            None => {
                proof {
                    let all = ls.map_values(|l: (Text, JsonV)| l.0) + cs.map_values(
                        |c: ColumnMetaV| c.name,
                    );
                    assert(all[ls.len() + c] == name);
                    assert(all.contains(name));
                    assert(set@.contains(name));
                }
            },
        }
        c = c + 1;
    }
    assert(cs.take(c as int) =~= cs);
    assert(views(fields@) =~= unsorted_fields(ls, cs));
    fields
}

/// Folds sampled rows into per-field statistics, each field annotated with
/// what the workspace declares of it.
pub fn summarise(
    table: &str,
    rows_in_range: usize,
    sample: &Vec<Json>,
    meta: Option<&TableMeta>,
) -> (r: TableSchema)
    ensures
        r@ == summary(
            table@,
            rows_in_range as int,
            views(sample@),
            match meta {
                Some(m) => Some(m@),
                None => None,
            },
        ),
{
    let (sampled, leaves) = gather(sample);
    let columns: Vec<ColumnMeta> = match meta {
        Some(m) => own(&m.columns),
        None => {
            let none: Vec<ColumnMeta> = Vec::new();
            assert(views(none@) =~= own_columns(Seq::empty()));
            none
        },
    };
    let fields = collect_fields(&leaves, &columns);
    let ghost fs = views(fields@);
    let mut ranks: Vec<Rank> = Vec::new();
    let mut i: usize = 0;
    while i < fields.len()
        invariant
            i <= fields@.len(),
            ranks@.len() == i,
            fs == views(fields@),
            forall|k: int| 0 <= k < i ==> (#[trigger] ranks@[k])@ == field_rank(fs[k]),
        decreases fields@.len() - i,
    {
        ranks.push(
            Rank { first: -(fields[i].seen_in as i128), second: 0, text: fields[i].name.clone() },
        );
        i = i + 1;
    }
    assert(views(ranks@) =~= fs.map_values(|f: FieldV| field_rank(f)));
    let ghost unsorted = fields@;
    let sorted = arrange(fields, &ranks);
    proof {
        arranged_views(unsorted, views(ranks@));
    }
    TableSchema { table: table.to_owned(), sampled_rows: sampled, rows_in_range, fields: sorted }
}

// ── Scanning ──────────────────────────────────────────────────────────────

pub open spec fn table_names(declared: Seq<TableMetaV>) -> Seq<Text> {
    declared.map_values(|t: TableMetaV| t.name)
}

/// The queries that sample a workspace, one per batch of tables.
pub fn scan_queries(declared: &Vec<TableMeta>) -> (r: Vec<String>)
    ensures
        r@.len() == batch_count(declared@.len() as int),
        forall|k: int|
            0 <= k < r@.len() ==> (#[trigger] r@[k])@ == sample_query_text(
                batch(table_names(views(declared@)), k),
            ),
{
    let ghost names = table_names(views(declared@));
    let mut out: Vec<String> = Vec::new();
    let total: usize = count_batches(declared.len());
    let mut k: usize = 0;
    while k < total
        invariant
            k <= total,
            total == batch_count(declared@.len() as int),
            names == table_names(views(declared@)),
            out@.len() == k,
            forall|j: int|
                0 <= j < k ==> (#[trigger] out@[j])@ == sample_query_text(batch(names, j)),
        decreases total - k,
    {
        let (from, to) = batch_bounds(declared.len(), k);
        let mut part: Vec<String> = Vec::new();
        let mut i: usize = from;
        while i < to
            invariant
                from <= i <= to <= declared@.len(),
                names == table_names(views(declared@)),
                part@.len() == i - from,
                forall|j: int| 0 <= j < part@.len() ==> (#[trigger] part@[j])@ == names[from + j],
            decreases to - i,
        {
            part.push(declared[i].name.clone());
            i = i + 1;
        }
        assert(views(part@) =~= batch(names, k as int));
        out.push(sample_query(&part));
        k = k + 1;
    }
    out
}

/// The last declaration of a table.
pub open spec fn declared_named(declared: Seq<TableMetaV>, name: Text) -> Option<TableMetaV>
    decreases declared.len(),
{
    if declared.len() == 0 {
        None
    } else if declared.last().name == name {
        Some(declared.last())
    } else {
        declared_named(declared.drop_last(), name)
    }
}

/// The row count an answer gives for a table.
pub open spec fn counted_rows(row: JsonV) -> int {
    match row.get("Rows"@) {
        Some(v) => match v.as_natural() {
            Some(n) => (n as usize) as int,
            None => 0,
        },
        None => 0,
    }
}

pub open spec fn sample_of(row: JsonV) -> Seq<JsonV> {
    match row.array_at("Sample"@) {
        Some(a) => a,
        None => Seq::empty(),
    }
}

/// The tables that the rows of one answer describe.
pub open spec fn answer_tables(rows: Seq<JsonV>, declared: Seq<TableMetaV>) -> Seq<TableV>
    decreases rows.len(),
{
    if rows.len() == 0 {
        Seq::empty()
    } else {
        let before = answer_tables(rows.drop_last(), declared);
        let row = rows.last();
        match row.text_at("SourceTable"@) {
            Some(t) => before.push(
                summary(t, counted_rows(row), sample_of(row), declared_named(declared, t)),
            ),
            None => before,
        }
    }
}

/// The tables that the answers describe. A batch that failed describes none.
pub open spec fn sampled_tables(
    answers: Seq<Result<Seq<JsonV>, Text>>,
    declared: Seq<TableMetaV>,
) -> Seq<TableV>
    decreases answers.len(),
{
    if answers.len() == 0 {
        Seq::empty()
    } else {
        let before = sampled_tables(answers.drop_last(), declared);
        match answers.last() {
            Ok(rows) => before + answer_tables(rows, declared),
            Err(_) => before,
        }
    }
}

/// The declared tables that nothing was sampled of: they exist, they are
/// only empty in this window.
pub open spec fn unsampled_tables(declared: Seq<TableMetaV>, sampled: Seq<Text>) -> Seq<TableV>
    decreases declared.len(),
{
    if declared.len() == 0 {
        Seq::empty()
    } else {
        let before = unsampled_tables(declared.drop_last(), sampled);
        let meta = declared.last();
        if sampled.contains(meta.name) {
            before
        } else {
            before.push(summary(meta.name, 0, Seq::empty(), Some(meta)))
        }
    }
}

/// Tables stand by how many rows they hold, most first, then by name.
pub open spec fn table_rank(t: TableV) -> RankV {
    RankV { first: -t.rows_in_range, second: 0, text: t.table }
}

pub open spec fn unsorted_scan(
    declared: Seq<TableMetaV>,
    answers: Seq<Result<Seq<JsonV>, Text>>,
) -> Seq<TableV> {
    let sampled = sampled_tables(answers, declared);
    sampled + unsampled_tables(declared, sampled.map_values(|t: TableV| t.table))
}

/// What a scan finds, from the declarations and the answers to its queries.
pub open spec fn scan_result(
    declared: Seq<TableMetaV>,
    answers: Seq<Result<Seq<JsonV>, Text>>,
) -> Seq<TableV> {
    let all = unsorted_scan(declared, answers);
    arranged(all, all.map_values(|t: TableV| table_rank(t)))
}

pub open spec fn answers_view(answers: Seq<Result<Vec<Json>, String>>) -> Seq<
    Result<Seq<JsonV>, Text>,
> {
    answers.map_values(
        |a: Result<Vec<Json>, String>|
            match a {
                Ok(v) => Ok(views(v@)),
                Err(e) => Err(e@),
            },
    )
}

fn find_declared<'a>(declared: &'a Vec<TableMeta>, name: &str) -> (r: Option<&'a TableMeta>)
    ensures
        match r {
            Some(m) => declared_named(views(declared@), name@) == Some(m@),
            None => declared_named(views(declared@), name@) is None,
        },
{
    let ghost all = views(declared@);
    let mut i: usize = declared.len();
    assert(all.take(i as int) =~= all);
    while i > 0
        invariant
            i <= declared@.len(),
            all == views(declared@),
            declared_named(all, name@) == declared_named(all.take(i as int), name@),
        decreases i,
    {
        assert(all.take(i as int).drop_last() =~= all.take(i - 1));
        assert(all.take(i as int).last() == declared@[i - 1]@);
        i = i - 1;
        if same(declared[i].name.as_str(), name) {
            return Some(&declared[i]);
        }
    }
    None
}

fn table_of_row(row: &Json, declared: &Vec<TableMeta>) -> (r: Option<TableSchema>)
    ensures
        match r {
            Some(t) => match row@.text_at("SourceTable"@) {
                Some(name) => t@ == summary(
                    name,
                    counted_rows(row@),
                    sample_of(row@),
                    declared_named(views(declared@), name),
                ),
                None => false,
            },
            None => row@.text_at("SourceTable"@) is None,
        },
{
    match row.text_at("SourceTable") {
        Some(name) => {
            let rows: usize = match row.get("Rows") {
                Some(v) => match v.as_natural() {
                    Some(n) => n as usize,
                    None => 0,
                },
                None => 0,
            };
            let meta = find_declared(declared, name.as_str());
            Some(
                match row.array_at("Sample") {
                    Some(sample) => summarise(name.as_str(), rows, sample, meta),
                    None => {
                        let none: Vec<Json> = Vec::new();
                        assert(views(none@) =~= Seq::<JsonV>::empty());
                        summarise(name.as_str(), rows, &none, meta)
                    },
                },
            )
        },
        None => None,
    }
}

/// Puts a scan together from the declarations and the answers to its
/// queries. Tables that hold nothing in the window are kept, with no rows.
pub fn assemble_scan(
    declared: &Vec<TableMeta>,
    answers: &Vec<Result<Vec<Json>, String>>,
) -> (r: Vec<TableSchema>)
    ensures
        views(r@) == scan_result(views(declared@), answers_view(answers@)),
{
    let ghost ds = views(declared@);
    let ghost av = answers_view(answers@);
    let mut out: Vec<TableSchema> = Vec::new();
    let mut a: usize = 0;
    assert(av.take(0) =~= Seq::empty());
    assert(views(out@) =~= sampled_tables(av.take(0), ds));
    while a < answers.len()
        invariant
            a <= answers@.len(),
            ds == views(declared@),
            av == answers_view(answers@),
            views(out@) == sampled_tables(av.take(a as int), ds),
        decreases answers@.len() - a,
    {
        assert(av.take(a + 1).drop_last() =~= av.take(a as int));
        if let Ok(rows) = &answers[a] {
            let ghost rv = views(rows@);
            assert(av[a as int] == Ok::<Seq<JsonV>, Text>(rv));
            let ghost before = views(out@);
            let mut i: usize = 0;
            assert(rv.take(0) =~= Seq::empty());
            assert(before + answer_tables(rv.take(0), ds) =~= before);
            while i < rows.len()
                invariant
                    i <= rows@.len(),
                    ds == views(declared@),
                    rv == views(rows@),
                    views(out@) == before + answer_tables(rv.take(i as int), ds),
                decreases rows@.len() - i,
            {
                assert(rv.take(i + 1).drop_last() =~= rv.take(i as int));
                let ghost so_far = views(out@);
                if let Some(t) = table_of_row(&rows[i], declared) {
                    let ghost tv = t@;
                    out.push(t);
                    assert(views(out@) =~= so_far.push(tv));
                    assert(views(out@) =~= before + answer_tables(rv.take(i + 1), ds));
                }
                i = i + 1;
            }
            assert(rv.take(i as int) =~= rv);
        }
        a = a + 1;
    }
    assert(av.take(a as int) =~= av);
    let ghost sampled = views(out@);
    let mut names = TextSet::new();
    let ghost sampled_names = sampled.map_values(|t: TableV| t.table);
    let mut i: usize = 0;
    assert(sampled_names.take(0) =~= Seq::empty());
    while i < out.len()
        invariant
            i <= out@.len(),
            sampled == views(out@),
            sampled_names == sampled.map_values(|t: TableV| t.table),
            names@ == sorted_set(sampled_names.take(i as int)),
        decreases out@.len() - i,
    {
        assert(sampled_names.take(i + 1).drop_last() =~= sampled_names.take(i as int));
        names.insert(out[i].table.clone());
        i = i + 1;
    }
    assert(sampled_names.take(i as int) =~= sampled_names);
    proof {
        sorted_set_holds(sampled_names);
    }
    let mut d: usize = 0;
    assert(ds.take(0) =~= Seq::empty());
    assert(views(out@) =~= sampled + unsampled_tables(ds.take(0), sampled_names));
    while d < declared.len()
        invariant
            d <= declared@.len(),
            ds == views(declared@),
            forall|x: Text| #[trigger] names@.contains(x) <==> sampled_names.contains(x),
            views(out@) == sampled + unsampled_tables(ds.take(d as int), sampled_names),
        decreases declared@.len() - d,
    {
        assert(ds.take(d + 1).drop_last() =~= ds.take(d as int));
        if !names.contains(declared[d].name.as_str()) {
            let none: Vec<Json> = Vec::new();
            assert(views(none@) =~= Seq::<JsonV>::empty());
            let ghost so_far = views(out@);
            let t = summarise(declared[d].name.as_str(), 0, &none, Some(&declared[d]));
            let ghost tv = t@;
            out.push(t);
            assert(views(out@) =~= so_far.push(tv));
            assert(views(out@) =~= sampled + unsampled_tables(ds.take(d + 1), sampled_names));
        }
        d = d + 1;
    }
    assert(ds.take(d as int) =~= ds);
    let ghost all = views(out@);
    let mut ranks: Vec<Rank> = Vec::new();
    let mut k: usize = 0;
    while k < out.len()
        invariant
            k <= out@.len(),
            all == views(out@),
            ranks@.len() == k,
            forall|j: int| 0 <= j < k ==> (#[trigger] ranks@[j])@ == table_rank(all[j]),
        decreases out@.len() - k,
    {
        ranks.push(
            Rank { first: -(out[k].rows_in_range as i128), second: 0, text: out[k].table.clone() },
        );
        k = k + 1;
    }
    assert(views(ranks@) =~= all.map_values(|t: TableV| table_rank(t)));
    let ghost unsorted = out@;
    let r = arrange(out, &ranks);
    proof {
        arranged_views(unsorted, views(ranks@));
    }
    r
}

// ── What holds of every summary ───────────────────────────────────────────

proof fn own_leaves_own(leaves: Seq<(Text, JsonV)>)
    ensures
        forall|i: int|
            0 <= i < own_leaves(leaves).len() ==> (#[trigger] own_leaves(leaves)[i]).0
                != "SourceTable"@,
    decreases leaves.len(),
{
    if leaves.len() > 0 {
        let before = own_leaves(leaves.drop_last());
        own_leaves_own(leaves.drop_last());
        assert forall|i: int| 0 <= i < own_leaves(leaves).len() implies (#[trigger] own_leaves(
            leaves,
        )[i]).0 != "SourceTable"@ by {
            if i < before.len() {
                assert(own_leaves(leaves)[i] == before[i]);
            }
        }
    }
}

proof fn sampled_leaves_own(sample: Seq<JsonV>, n: int)
    ensures
        forall|i: int|
            0 <= i < sampled_leaves(sample, n).len() ==> (#[trigger] sampled_leaves(sample, n)[i]).0
                != "SourceTable"@,
    decreases n,
{
    if n > 0 {
        let before = sampled_leaves(sample, n - 1);
        let mine = own_leaves(row_leaves(sample[n - 1]));
        sampled_leaves_own(sample, n - 1);
        own_leaves_own(row_leaves(sample[n - 1]));
        assert forall|i: int| 0 <= i < sampled_leaves(sample, n).len() implies (
        #[trigger] sampled_leaves(sample, n)[i]).0 != "SourceTable"@ by {
            if i < before.len() {
                assert(sampled_leaves(sample, n)[i] == before[i]);
            } else {
                assert(sampled_leaves(sample, n)[i] == mine[i - before.len()]);
            }
        }
    }
}

proof fn own_columns_own(columns: Seq<ColumnMetaV>)
    ensures
        forall|i: int|
            0 <= i < own_columns(columns).len() ==> (#[trigger] own_columns(columns)[i]).name
                != "SourceTable"@,
        forall|c: ColumnMetaV|
            columns.contains(c) && c.name != "SourceTable"@ ==> #[trigger] own_columns(
                columns,
            ).contains(c),
    decreases columns.len(),
{
    if columns.len() > 0 {
        let before = columns.drop_last();
        own_columns_own(before);
        assert forall|c: ColumnMetaV| columns.contains(c) && c.name != "SourceTable"@ implies
            #[trigger] own_columns(columns).contains(c) by {
            let i = choose|i: int| 0 <= i < columns.len() && columns[i] == c;
            if i < before.len() {
                assert(before[i] == c);
                assert(own_columns(before).contains(c));
                let k = choose|k: int|
                    0 <= k < own_columns(before).len() && own_columns(before)[k] == c;
                assert(own_columns(columns)[k] == c);
            } else {
                assert(own_columns(columns).last() == c);
            }
        }
    }
}

/// The fields of a table: one per name, in order of rank.
proof fn table_fields_facts(leaves: Seq<(Text, JsonV)>, columns: Seq<ColumnMetaV>)
    ensures
        forall|f: FieldV| #[trigger]
            table_fields(leaves, columns).contains(f) ==> f == with_columns(
                field_after(leaves, f.name),
                columns,
            ) && field_names(leaves, columns).contains(f.name),
        forall|n: Text| #[trigger]
            field_names(leaves, columns).contains(n) ==> table_fields(leaves, columns).contains(
                with_columns(field_after(leaves, n), columns),
            ),
{
    let names = field_names(leaves, columns);
    let fs = unsorted_fields(leaves, columns);
    let ranks = fs.map_values(|f: FieldV| field_rank(f));
    arranged_keeps(fs, ranks);
    assert forall|f: FieldV| #[trigger] table_fields(leaves, columns).contains(f) implies f
        == with_columns(field_after(leaves, f.name), columns) && names.contains(f.name) by {
        assert(fs.contains(f));
        let i = choose|i: int| 0 <= i < fs.len() && fs[i] == f;
        field_after_facts(leaves, names[i]);
        with_columns_facts(field_after(leaves, names[i]), columns);
        assert(f.name == names[i]);
    }
    assert forall|n: Text| #[trigger] names.contains(n) implies table_fields(
        leaves,
        columns,
    ).contains(with_columns(field_after(leaves, n), columns)) by {
        let i = choose|i: int| 0 <= i < names.len() && names[i] == n;
        assert(fs[i] == with_columns(field_after(leaves, n), columns));
        assert(fs.contains(fs[i]));
    }
}

/// The injected source column never becomes a field.
pub proof fn source_column_is_no_field(
    table: Text,
    rows_in_range: int,
    sample: Seq<JsonV>,
    meta: Option<TableMetaV>,
    f: FieldV,
)
    requires
        summary(table, rows_in_range, sample, meta).fields.contains(f),
    ensures
        f.name != "SourceTable"@,
{
    let leaves = sampled_leaves(sample, sample_rows(sample));
    let columns = own_columns(meta_columns(meta));
    table_fields_facts(leaves, columns);
    sampled_leaves_own(sample, sample_rows(sample));
    own_columns_own(meta_columns(meta));
    let a = leaves.map_values(|l: (Text, JsonV)| l.0);
    let b = columns.map_values(|c: ColumnMetaV| c.name);
    sorted_set_holds(a + b);
    assert((a + b).contains(f.name));
    let i = choose|i: int| 0 <= i < (a + b).len() && (a + b)[i] == f.name;
    if i < a.len() {
        assert(leaves[i].0 == f.name);
    } else {
        assert(columns[i - a.len()].name == f.name);
    }
}

/// Every declared column is a field, whether or not the sample showed it a
/// value; one never seen carries no values, so it is evidence of nothing.
pub proof fn declared_columns_survive(
    table: Text,
    rows_in_range: int,
    sample: Seq<JsonV>,
    meta: TableMetaV,
    column: ColumnMetaV,
)
    requires
        meta.columns.contains(column),
        column.name != "SourceTable"@,
    ensures
        exists|f: FieldV|
            summary(table, rows_in_range, sample, Some(meta)).fields.contains(f) && f.name
                == column.name && (f.seen_in == 0 ==> f.values.len() == 0 && f.distinct == 0),
{
    let leaves = sampled_leaves(sample, sample_rows(sample));
    let columns = own_columns(meta.columns);
    table_fields_facts(leaves, columns);
    own_columns_own(meta.columns);
    let a = leaves.map_values(|l: (Text, JsonV)| l.0);
    let b = columns.map_values(|c: ColumnMetaV| c.name);
    sorted_set_holds(a + b);
    assert(columns.contains(column));
    let i = choose|i: int| 0 <= i < columns.len() && columns[i] == column;
    assert((a + b)[a.len() + i] == column.name);
    assert((a + b).contains(column.name));
    assert(field_names(leaves, columns).contains(column.name));
    let f = with_columns(field_after(leaves, column.name), columns);
    field_after_facts(leaves, column.name);
    with_columns_facts(field_after(leaves, column.name), columns);
    assert(summary(table, rows_in_range, sample, Some(meta)).fields.contains(f));
}

/// A field's count of distinct values is the number of values kept, at most
/// [`VALUE_CAP`], and no more than the times it was seen.
pub proof fn field_counts_agree(
    table: Text,
    rows_in_range: int,
    sample: Seq<JsonV>,
    meta: Option<TableMetaV>,
    f: FieldV,
)
    requires
        summary(table, rows_in_range, sample, meta).fields.contains(f),
    ensures
        f.distinct == f.values.len(),
        f.values.len() <= VALUE_CAP,
        f.distinct <= f.seen_in,
        strictly_sorted(f.values),
{
    let leaves = sampled_leaves(sample, sample_rows(sample));
    let columns = own_columns(meta_columns(meta));
    table_fields_facts(leaves, columns);
    field_after_facts(leaves, f.name);
    with_columns_facts(field_after(leaves, f.name), columns);
}

/// No two fields of a table share a name.
pub proof fn fields_are_distinct(
    table: Text,
    rows_in_range: int,
    sample: Seq<JsonV>,
    meta: Option<TableMetaV>,
    i: int,
    j: int,
)
    requires
        0 <= i < j < summary(table, rows_in_range, sample, meta).fields.len(),
    ensures
        summary(table, rows_in_range, sample, meta).fields[i].name != summary(
            table,
            rows_in_range,
            sample,
            meta,
        ).fields[j].name,
{
    let leaves = sampled_leaves(sample, sample_rows(sample));
    let columns = own_columns(meta_columns(meta));
    let names = field_names(leaves, columns);
    let fs = unsorted_fields(leaves, columns);
    let ranks = fs.map_values(|f: FieldV| field_rank(f));
    let o = order(ranks);
    order_is_stable(ranks);
    order_has_all(o, ranks);
    sorted_set_holds(
        leaves.map_values(|l: (Text, JsonV)| l.0) + columns.map_values(|c: ColumnMetaV| c.name),
    );
    let a = o[i];
    let b = o[j];
    assert(0 <= a < fs.len() && 0 <= b < fs.len() && a != b);
    field_after_facts(leaves, names[a]);
    field_after_facts(leaves, names[b]);
    with_columns_facts(field_after(leaves, names[a]), columns);
    with_columns_facts(field_after(leaves, names[b]), columns);
    text_less_irreflexive(names[a]);
    if a < b {
        assert(crate::text::text_less(names[a], names[b]));
    } else {
        assert(crate::text::text_less(names[b], names[a]));
    }
}

proof fn unsampled_has(declared: Seq<TableMetaV>, sampled: Seq<Text>, meta: TableMetaV)
    requires
        declared.contains(meta),
        !sampled.contains(meta.name),
    ensures
        unsampled_tables(declared, sampled).contains(summary(meta.name, 0, Seq::empty(), Some(meta))),
    decreases declared.len(),
{
    let t = summary(meta.name, 0, Seq::empty(), Some(meta));
    let i = choose|i: int| 0 <= i < declared.len() && declared[i] == meta;
    if i < declared.len() - 1 {
        assert(declared.drop_last()[i] == meta);
        unsampled_has(declared.drop_last(), sampled, meta);
        let before = unsampled_tables(declared.drop_last(), sampled);
        let k = choose|k: int| 0 <= k < before.len() && before[k] == t;
        assert(unsampled_tables(declared, sampled)[k] == t);
    } else {
        assert(unsampled_tables(declared, sampled).last() == t);
    }
}

/// A scan loses no declared table: one that no answer described is there
/// with no rows in range, whatever failed.
pub proof fn scan_keeps_every_table(
    declared: Seq<TableMetaV>,
    answers: Seq<Result<Seq<JsonV>, Text>>,
    meta: TableMetaV,
)
    requires
        declared.contains(meta),
    ensures
        exists|t: TableV|
            #![trigger scan_result(declared, answers).contains(t)]
            scan_result(declared, answers).contains(t) && t.table == meta.name && (
            !sampled_tables(answers, declared).contains(t) ==> t.rows_in_range == 0
                && t.sampled_rows == 0),
{
    let sampled = sampled_tables(answers, declared);
    let names = sampled.map_values(|t: TableV| t.table);
    let all = unsorted_scan(declared, answers);
    arranged_keeps(all, all.map_values(|t: TableV| table_rank(t)));
    if names.contains(meta.name) {
        let i = choose|i: int| 0 <= i < names.len() && names[i] == meta.name;
        let t = sampled[i];
        assert(all[i] == t);
        assert(all.contains(t));
        assert(sampled.contains(t));
        assert(scan_result(declared, answers).contains(t));
    } else {
        let t = summary(meta.name, 0, Seq::empty(), Some(meta));
        unsampled_has(declared, names, meta);
        let rest = unsampled_tables(declared, names);
        let k = choose|k: int| 0 <= k < rest.len() && rest[k] == t;
        assert(all[sampled.len() + k] == t);
        assert(all.contains(t));
        assert(scan_result(declared, answers).contains(t));
    }
}

// ── What a field says ─────────────────────────────────────────────────────

proof fn own_leaves_filter(leaves: Seq<(Text, JsonV)>)
    ensures
        own_leaves(leaves) == leaves.filter(|l: (Text, JsonV)| l.0 != "SourceTable"@),
    decreases leaves.len(),
{
    reveal(Seq::filter);
    if leaves.len() > 0 {
        own_leaves_filter(leaves.drop_last());
    }
}

proof fn own_columns_filter(columns: Seq<ColumnMetaV>)
    ensures
        own_columns(columns) == columns.filter(|c: ColumnMetaV| c.name != "SourceTable"@),
    decreases columns.len(),
{
    reveal(Seq::filter);
    if columns.len() > 0 {
        own_columns_filter(columns.drop_last());
    }
}

/// Each sampled row adds its leaves, but for the source column; no more than
/// twenty rows are read.
pub proof fn rows_add_their_own_leaves(sample: Seq<JsonV>, n: int)
    requires
        0 < n <= sample.len(),
    ensures
        sampled_leaves(sample, n) == sampled_leaves(sample, n - 1) + row_leaves(
            sample[n - 1],
        ).filter(|l: (Text, JsonV)| l.0 != "SourceTable"@),
        sampled_leaves(sample, 0).len() == 0,
        sample.len() <= 20 ==> sample_rows(sample) == sample.len(),
        sample.len() > 20 ==> sample_rows(sample) == 20,
{
    own_leaves_filter(row_leaves(sample[n - 1]));
}

/// A field was seen as often as a leaf of its name was, in the shapes that
/// those leaves had, and every value kept of it is the text of one of them.
pub proof fn fields_count_their_leaves(leaves: Seq<(Text, JsonV)>, name: Text, x: Text)
    ensures
        field_after(leaves, name).name == name,
        field_after(leaves, name).seen_in == leaves.filter(|l: (Text, JsonV)| l.0 == name).len(),
        field_after(leaves, name).types.contains(x) <==> exists|i: int|
            0 <= i < leaves.len() && (#[trigger] leaves[i]).0 == name && shape_name(leaves[i].1)
                == x,
        field_after(leaves, name).values.contains(x) ==> exists|i: int|
            0 <= i < leaves.len() && (#[trigger] leaves[i]).0 == name && scalar(leaves[i].1)
                == Some(x),
        field_after(leaves, name).values.len() <= 256,
        field_after(leaves, name).values.len() < 256 ==> ((exists|i: int|
            0 <= i < leaves.len() && (#[trigger] leaves[i]).0 == name && scalar(leaves[i].1)
                == Some(x)) ==> field_after(leaves, name).values.contains(x)),
    decreases leaves.len(),
{
    reveal(Seq::filter);
    field_after_facts(leaves, name);
    if leaves.len() > 0 {
        let short = leaves.drop_last();
        let last = leaves.last();
        let n = leaves.len() - 1;
        assert(leaves[n] == last);
        fields_count_their_leaves(short, name, x);
        field_after_facts(short, name);
        let f = field_after(short, name);
        let g = field_after(leaves, name);
        if last.0 == name {
            if let Some(s) = scalar(last.1) {
                with_text_sorted(f.values, s);
                with_text_len(f.values, s);
            }
            let ty = shape_name(last.1);
            if f.types.contains(x) && !f.types.contains(ty) {
                let k = choose|k: int| 0 <= k < f.types.len() && f.types[k] == x;
                assert(g.types[k] == x);
            }
            if !f.types.contains(ty) {
                assert(g.types[g.types.len() - 1] == ty);
            }
            if g.types.contains(x) && !f.types.contains(x) {
                let k = choose|k: int| 0 <= k < g.types.len() && g.types[k] == x;
                assert(k < f.types.len() ==> f.types[k] == x);
                assert(x == ty);
            }
        }
        if exists|i: int|
            0 <= i < short.len() && (#[trigger] short[i]).0 == name && shape_name(short[i].1)
                == x {
            let i = choose|i: int|
                0 <= i < short.len() && (#[trigger] short[i]).0 == name && shape_name(short[i].1)
                    == x;
            assert(leaves[i] == short[i]);
        }
        if exists|i: int|
            0 <= i < leaves.len() && (#[trigger] leaves[i]).0 == name && shape_name(leaves[i].1)
                == x {
            let i = choose|i: int|
                0 <= i < leaves.len() && (#[trigger] leaves[i]).0 == name && shape_name(
                    leaves[i].1,
                ) == x;
            assert(i < n ==> short[i] == leaves[i]);
        }
        if exists|i: int|
            0 <= i < short.len() && (#[trigger] short[i]).0 == name && scalar(short[i].1)
                == Some(x) {
            let i = choose|i: int|
                0 <= i < short.len() && (#[trigger] short[i]).0 == name && scalar(short[i].1)
                    == Some(x);
            assert(leaves[i] == short[i]);
        }
        if exists|i: int|
            0 <= i < leaves.len() && (#[trigger] leaves[i]).0 == name && scalar(leaves[i].1)
                == Some(x) {
            let i = choose|i: int|
                0 <= i < leaves.len() && (#[trigger] leaves[i]).0 == name && scalar(leaves[i].1)
                    == Some(x);
            assert(i < n ==> short[i] == leaves[i]);
        }
    }
}

/// Only texts and numbers are compared; each value has the name of its own
/// shape.
pub proof fn shapes_are_told_apart(v: JsonV, t: Text, n: NumberV)
    ensures
        v == JsonV::Text(t) ==> scalar(v) == Some(t) && shape_name(v) == "string"@,
        v == JsonV::Number(n) ==> scalar(v) == Some(n.text) && shape_name(v) == "number"@,
        v is Bool ==> scalar(v) is None && shape_name(v) == "bool"@,
        v is Null ==> scalar(v) is None && shape_name(v) == "null"@,
        v is Array ==> scalar(v) is None && shape_name(v) == "array"@,
        v is Object ==> scalar(v) is None && shape_name(v) == "object"@,
{
}

/// A declaration gives a column its kind, and a shape only where none was
/// seen: a number for the number types, a truth value, an object for what is
/// dynamic, and a text for all else.
pub proof fn declarations_only_fill_in(f: FieldV, columns: Seq<ColumnMetaV>, c: ColumnMetaV)
    requires
        c.name == f.name,
    ensures
        with_columns(f, columns.push(c)).kind == c.kind,
        f.types.len() > 0 ==> with_columns(f, columns).types == f.types,
        f.types.len() == 0 && c.kind == "int"@ ==> with_columns(f, seq![c]).types == seq![
            "number"@,
        ],
        f.types.len() == 0 && c.kind == "long"@ ==> with_columns(f, seq![c]).types == seq![
            "number"@,
        ],
        f.types.len() == 0 && c.kind == "real"@ ==> with_columns(f, seq![c]).types == seq![
            "number"@,
        ],
        f.types.len() == 0 && c.kind == "decimal"@ ==> with_columns(f, seq![c]).types == seq![
            "number"@,
        ],
        with_columns(f, seq![]) == f,
        with_columns(f, columns).seen_in == f.seen_in,
        with_columns(f, columns).values == f.values,
    decreases columns.len(),
{
    with_columns_facts(f, columns);
    assert(columns.push(c).drop_last() =~= columns);
    assert(seq![c].drop_last() =~= Seq::empty());
    if columns.len() > 0 {
        declarations_only_fill_in(f, columns.drop_last(), c);
        with_columns_facts(f, columns.drop_last());
    }
}

/// Columns of other names declare nothing of a field.
pub proof fn other_columns_say_nothing(f: FieldV, columns: Seq<ColumnMetaV>)
    requires
        forall|i: int| 0 <= i < columns.len() ==> (#[trigger] columns[i]).name != f.name,
    ensures
        with_columns(f, columns) == f,
    decreases columns.len(),
{
    if columns.len() > 0 {
        let short = columns.drop_last();
        assert(columns[columns.len() - 1].name != f.name);
        assert forall|i: int| 0 <= i < short.len() implies (#[trigger] short[i]).name
            != f.name by {
            assert(short[i] == columns[i]);
        }
        other_columns_say_nothing(f, short);
    }
}

/// A table's fields stand by how many rows carry them, most first, and then
/// by name.
pub proof fn well_filled_fields_stand_first(
    leaves: Seq<(Text, JsonV)>,
    columns: Seq<ColumnMetaV>,
    i: int,
    j: int,
)
    requires
        0 <= i < j < table_fields(leaves, columns).len(),
    ensures
        table_fields(leaves, columns)[i].seen_in >= table_fields(leaves, columns)[j].seen_in,
        table_fields(leaves, columns)[i].seen_in == table_fields(leaves, columns)[j].seen_in
            ==> !text_less(
            table_fields(leaves, columns)[j].name,
            table_fields(leaves, columns)[i].name,
        ),
{
    let all = unsorted_fields(leaves, columns);
    let ranks = all.map_values(|f: FieldV| field_rank(f));
    order_is_stable(ranks);
    let o = order(ranks);
    assert(precedes(ranks, o[i], o[j]));
    assert(0 <= o[i] < all.len() && 0 <= o[j] < all.len());
}

/// A table has one field for each name that was sampled or declared, with
/// what the leaves and the declarations say of it.
pub proof fn every_name_is_a_field(leaves: Seq<(Text, JsonV)>, columns: Seq<ColumnMetaV>, f: FieldV)
    ensures
        table_fields(leaves, columns).contains(f) <==> f == with_columns(
            field_after(leaves, f.name),
            columns,
        ) && ((exists|i: int| 0 <= i < leaves.len() && (#[trigger] leaves[i]).0 == f.name) || (
        exists|i: int| 0 <= i < columns.len() && (#[trigger] columns[i]).name == f.name)),
{
    let all = unsorted_fields(leaves, columns);
    arranged_keeps(all, all.map_values(|f: FieldV| field_rank(f)));
    let a = leaves.map_values(|l: (Text, JsonV)| l.0);
    let b = columns.map_values(|c: ColumnMetaV| c.name);
    let names = field_names(leaves, columns);
    sorted_set_holds(a + b);
    if table_fields(leaves, columns).contains(f) {
        assert(all.contains(f));
        let k = choose|k: int| 0 <= k < all.len() && all[k] == f;
        field_after_facts(leaves, names[k]);
        with_columns_facts(field_after(leaves, names[k]), columns);
        assert(names.contains(names[k]));
        assert((a + b).contains(f.name));
        let m = choose|m: int| 0 <= m < (a + b).len() && (a + b)[m] == f.name;
        if m < a.len() {
            assert(leaves[m].0 == f.name);
        } else {
            assert(columns[m - a.len()].name == f.name);
        }
    }
    if f == with_columns(field_after(leaves, f.name), columns) && ((exists|i: int|
        0 <= i < leaves.len() && (#[trigger] leaves[i]).0 == f.name) || (exists|i: int|
        0 <= i < columns.len() && (#[trigger] columns[i]).name == f.name)) {
        assert((a + b).contains(f.name)) by {
            if exists|i: int| 0 <= i < leaves.len() && (#[trigger] leaves[i]).0 == f.name {
                let i = choose|i: int| 0 <= i < leaves.len() && (#[trigger] leaves[i]).0 == f.name;
                assert((a + b)[i] == f.name);
            } else {
                let i = choose|i: int|
                    0 <= i < columns.len() && (#[trigger] columns[i]).name == f.name;
                assert((a + b)[a.len() + i] == f.name);
            }
        }
        assert(names.contains(f.name));
        let k = choose|k: int| 0 <= k < names.len() && names[k] == f.name;
        assert(all[k] == f);
        assert(all.contains(f));
    }
}

/// A member that is no object is one leaf. An object is a leaf too, and less
/// than three names deep its members follow it, each under its dotted path.
pub proof fn objects_are_walked_three_deep(prefix: Text, ms: Seq<(Text, JsonV)>, m: (Text, JsonV))
    ensures
        ({
            let path = if prefix.len() == 0 {
                m.0
            } else {
                prefix + "."@ + m.0
            };
            &&& forall|depth: int|
                !(m.1 is Object) ==> (#[trigger] leaves_of(prefix, ms.push(m), depth)) == leaves_of(
                    prefix,
                    ms,
                    depth,
                ).push((path, m.1))
            &&& leaves_of(prefix, ms.push(m), 2) == leaves_of(prefix, ms, 2).push((path, m.1))
            &&& forall|depth: int|
                m.1 is Object && depth < 2 ==> (#[trigger] leaves_of(prefix, ms.push(m), depth))
                    == leaves_of(prefix, ms, depth).push((path, JsonV::Object(Seq::empty())))
                    + leaves_of(path, m.1->Object_0, depth + 1)
        }),
{
    assert(ms.push(m).drop_last() =~= ms);
    let path = path_under(prefix, m.0);
    assert forall|depth: int| !(m.1 is Object) implies (#[trigger] leaves_of(
        prefix,
        ms.push(m),
        depth,
    )) == leaves_of(prefix, ms, depth).push((path, m.1)) by {
        let before = leaves_of(prefix, ms, depth);
        assert(before + seq![(path, m.1)] =~= before.push((path, m.1)));
    }
    let two = leaves_of(prefix, ms, 2);
    assert(two + seq![(path, m.1)] =~= two.push((path, m.1)));
    assert forall|depth: int| m.1 is Object && depth < 2 implies (#[trigger] leaves_of(
        prefix,
        ms.push(m),
        depth,
    )) == leaves_of(prefix, ms, depth).push((path, JsonV::Object(Seq::empty()))) + leaves_of(
        path,
        m.1->Object_0,
        depth + 1,
    ) by {
        let before = leaves_of(prefix, ms, depth);
        let own = (path, JsonV::Object(Seq::empty()));
        assert(before + seq![own] =~= before.push(own));
    }
}

// ── What a scan finds ─────────────────────────────────────────────────────

/// A table of an answer is read off its own row: its name under
/// `SourceTable`, its rows under `Rows`, and its sample under `Sample`.
pub proof fn answers_are_read_row_by_row(
    rows: Seq<JsonV>,
    row: JsonV,
    declared: Seq<TableMetaV>,
    t: Text,
    n: NumberV,
    k: u64,
    sample: Seq<JsonV>,
)
    requires
        k <= usize::MAX,
    ensures
        !(row.get("SourceTable"@) matches Some(JsonV::Text(_))) ==> answer_tables(
            rows.push(row),
            declared,
        ) == answer_tables(rows, declared),
        row.get("SourceTable"@) == Some(JsonV::Text(t)) ==> answer_tables(
            rows.push(row),
            declared,
        ).len() == answer_tables(rows, declared).len() + 1 && answer_tables(
            rows.push(row),
            declared,
        ).drop_last() == answer_tables(rows, declared) && answer_tables(
            rows.push(row),
            declared,
        ).last().table == t,
        row.get("SourceTable"@) == Some(JsonV::Text(t)) && row.get("Rows"@) == Some(
            JsonV::Number(n),
        ) && n.natural == Some(k) ==> answer_tables(rows.push(row), declared).last().rows_in_range
            == k,
        row.get("SourceTable"@) == Some(JsonV::Text(t)) && !(row.get("Rows"@) matches Some(
            JsonV::Number(_),
        )) ==> answer_tables(rows.push(row), declared).last().rows_in_range == 0,
        row.get("SourceTable"@) == Some(JsonV::Text(t)) && row.get("Sample"@) == Some(
            JsonV::Array(sample),
        ) && sample.len() <= 20 ==> answer_tables(rows.push(row), declared).last().sampled_rows
            == sample.len(),
        row.get("SourceTable"@) == Some(JsonV::Text(t)) && row.get("Sample"@) == Some(
            JsonV::Array(sample),
        ) ==> answer_tables(rows.push(row), declared).last().fields == summary(
            t,
            0,
            sample,
            declared_named(declared, t),
        ).fields,
{
    assert(rows.push(row).drop_last() =~= rows);
    let before = answer_tables(rows, declared);
    if row.get("SourceTable"@) == Some(JsonV::Text(t)) {
        let now = answer_tables(rows.push(row), declared);
        assert(now.drop_last() =~= before);
    }
}

/// A table's declaration is the last of its name.
pub proof fn the_last_declaration_counts(declared: Seq<TableMetaV>, name: Text, i: int)
    requires
        -1 <= i < declared.len(),
        forall|j: int| i < j < declared.len() ==> (#[trigger] declared[j]).name != name,
    ensures
        i >= 0 && declared[i].name == name ==> declared_named(declared, name) == Some(declared[i]),
        i == -1 ==> declared_named(declared, name) is None,
    decreases declared.len(),
{
    if declared.len() > 0 && i < declared.len() - 1 {
        let short = declared.drop_last();
        assert(declared[declared.len() - 1].name != name);
        assert forall|j: int| i < j < short.len() implies (#[trigger] short[j]).name != name by {
            assert(short[j] == declared[j]);
        }
        the_last_declaration_counts(short, name, i);
    }
}

proof fn unsampled_filter(declared: Seq<TableMetaV>, sampled: Seq<Text>)
    ensures
        unsampled_tables(declared, sampled) == declared.filter(
            |m: TableMetaV| !sampled.contains(m.name),
        ).map_values(|m: TableMetaV| summary(m.name, 0, Seq::empty(), Some(m))),
    decreases declared.len(),
{
    reveal(Seq::filter);
    let p = |m: TableMetaV| !sampled.contains(m.name);
    let f = |m: TableMetaV| summary(m.name, 0, Seq::empty(), Some(m));
    if declared.len() > 0 {
        unsampled_filter(declared.drop_last(), sampled);
        let part = declared.drop_last().filter(p);
        if p(declared.last()) {
            assert(part.push(declared.last()).map_values(f) =~= part.map_values(f).push(
                f(declared.last()),
            ));
        }
    } else {
        assert(declared.filter(p).map_values(f) =~= Seq::empty());
    }
}

/// A scan holds each table that an answer described, and then each declared
/// one that none described, with no rows; nothing else, and each as often.
pub proof fn scans_hold_what_was_answered_and_declared(
    declared: Seq<TableMetaV>,
    answers: Seq<Result<Seq<JsonV>, Text>>,
)
    ensures
        ({
            let sampled = sampled_tables(answers, declared);
            let named = sampled.map_values(|t: TableV| t.table);
            scan_result(declared, answers).to_multiset() == (sampled + declared.filter(
                |m: TableMetaV| !named.contains(m.name),
            ).map_values(
                |m: TableMetaV| summary(m.name, 0, Seq::empty(), Some(m)),
            )).to_multiset()
        }),
{
    let sampled = sampled_tables(answers, declared);
    let named = sampled.map_values(|t: TableV| t.table);
    unsampled_filter(declared, named);
    let all = unsorted_scan(declared, answers);
    arranged_multiset(all, all.map_values(|t: TableV| table_rank(t)));
}

/// A batch that was answered adds its tables behind those before it; one
/// that failed adds none and takes none away.
pub proof fn failed_batches_cost_only_themselves(
    answers: Seq<Result<Seq<JsonV>, Text>>,
    declared: Seq<TableMetaV>,
    rows: Seq<JsonV>,
    e: Text,
)
    ensures
        sampled_tables(answers.push(Ok(rows)), declared) == sampled_tables(answers, declared)
            + answer_tables(rows, declared),
        sampled_tables(answers.push(Err(e)), declared) == sampled_tables(answers, declared),
        sampled_tables(seq![], declared).len() == 0,
{
    assert(answers.push(Ok(rows)).drop_last() =~= answers);
    assert(answers.push(Err(e)).drop_last() =~= answers);
}

/// The tables of a scan stand by how many rows they hold, most first, and
/// then by name.
pub proof fn the_fullest_tables_stand_first(
    declared: Seq<TableMetaV>,
    answers: Seq<Result<Seq<JsonV>, Text>>,
    i: int,
    j: int,
)
    requires
        0 <= i < j < scan_result(declared, answers).len(),
    ensures
        scan_result(declared, answers)[i].rows_in_range >= scan_result(
            declared,
            answers,
        )[j].rows_in_range,
        scan_result(declared, answers)[i].rows_in_range == scan_result(
            declared,
            answers,
        )[j].rows_in_range ==> !text_less(
            scan_result(declared, answers)[j].table,
            scan_result(declared, answers)[i].table,
        ),
{
    let all = unsorted_scan(declared, answers);
    let ranks = all.map_values(|t: TableV| table_rank(t));
    order_is_stable(ranks);
    let o = order(ranks);
    assert(precedes(ranks, o[i], o[j]));
    assert(0 <= o[i] < all.len() && 0 <= o[j] < all.len());
}

/// A table's summary is of the rows sampled and of its own declaration, but
/// for the source column.
pub proof fn summaries_are_of_sample_and_declaration(
    table: Text,
    rows_in_range: int,
    sample: Seq<JsonV>,
    meta: Option<TableMetaV>,
)
    ensures
        ({
            let s = summary(table, rows_in_range, sample, meta);
            &&& s.table == table && s.rows_in_range == rows_in_range
            &&& s.sampled_rows <= 20 && s.sampled_rows <= sample.len()
            &&& meta is None ==> s.fields == table_fields(
                sampled_leaves(sample, s.sampled_rows),
                Seq::empty(),
            )
            &&& meta matches Some(m) ==> s.fields == table_fields(
                sampled_leaves(sample, s.sampled_rows),
                m.columns.filter(|c: ColumnMetaV| c.name != "SourceTable"@),
            )
        }),
{
    own_columns_filter(meta_columns(meta));
    if meta is None {
        assert(own_columns(meta_columns(meta)) =~= Seq::empty());
    }
}

/// A sample query names every table that it was given, and counts the rows
/// and lists twenty of them under the names that are read off the answer.
pub proof fn samples_are_asked_of_every_table(tables: Seq<Text>, i: int)
    requires
        0 <= i < tables.len(),
    ensures
        ({
            let names = tables.map_values(|t: Text| quoted_name(t));
            &&& holds(joined(names, ", "@), quoted_name(tables[i]))
            &&& sample_query_text(tables) == "union withsource=SourceTable isfuzzy=true "@ + joined(
                names,
                ", "@,
            )
                + "\n| summarize Rows = count(), Sample = make_list(pack_all(), 20) by SourceTable"@
        }),
{
    part_is_held(tables.map_values(|t: Text| quoted_name(t)), ", "@, i);
}

/// Truth values and dynamic columns keep their own shape, and every type
/// that is none of these nor a number arrives as text.
pub proof fn other_types_arrive_as_text(kind: Text)
    ensures
        declared_type("bool"@) == "bool"@,
        declared_type("dynamic"@) == "object"@,
        !seq!["int"@, "long"@, "real"@, "decimal"@, "bool"@, "dynamic"@].contains(kind)
            ==> declared_type(kind) == "string"@,
{
    reveal_strlit("int");
    reveal_strlit("long");
    reveal_strlit("real");
    reveal_strlit("decimal");
    reveal_strlit("bool");
    reveal_strlit("dynamic");
    assert("bool"@.len() != "int"@.len() && "bool"@.len() != "decimal"@.len());
    assert("bool"@[0] != "long"@[0] && "bool"@[0] != "real"@[0]);
    assert("dynamic"@.len() != "int"@.len() && "dynamic"@.len() != "long"@.len()
        && "dynamic"@.len() != "real"@.len() && "dynamic"@.len() != "bool"@.len());
    assert("dynamic"@[1] != "decimal"@[1]);
    let all = seq!["int"@, "long"@, "real"@, "decimal"@, "bool"@, "dynamic"@];
    assert(all[0] == "int"@ && all[1] == "long"@ && all[2] == "real"@ && all[3] == "decimal"@
        && all[4] == "bool"@ && all[5] == "dynamic"@);
}

} // verus!
