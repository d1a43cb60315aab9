//! Rate, failures and latency over a window.
//!
//! No column is named here: the table, the timestamp, the duration and the
//! label arrive as discovered roles, and what counts as a failure comes from
//! the error rules.

use crate::clock::{parse_time, time_of};
use crate::discover::{
    unit_of, unit_text, Insights, InsightsV, RoleCandidate, RoleV, INGESTION_TIME,
};
use crate::json::{compact, compact_text, Json, JsonV, NumberV};
use crate::keys::{binding_in, BindingV, KeyCandidate, KeyV};
use crate::loganalytics::{
    column_ref, column_reference, kql_string, literal, quoted_name, table_ref, TimeRange,
};
use crate::schema::{FieldInfo, FieldV, TableSchema, TableV};
use crate::text::{
    ascii_lowered, cat2, cat3, cat5, cat7, contains, has_suffix, holds, join, joined, listed,
    lowercase, lowered, opt_text, part_is_held, same, same_ignoring_case, same_letters, stands_at,
    views, Text,
};
use crate::trace::{ErrorRule, RuleV};
use vstd::prelude::*;

verus! {

/// Which columns play which part.
#[derive(Debug, PartialEq)]
pub struct Spec {
    pub table: String,
    pub time_field: String,
    /// Empty when the workspace records no duration.
    pub duration_field: String,
    /// What to call each operation. Empty falls back to the table.
    pub label_field: String,
    /// Carried on every row, so that it can be traced.
    pub key_field: String,
    /// The sampling multiplier, when the telemetry has one.
    pub weight_field: String,
    /// What counts as a failure. No rules means no failure line.
    pub rules: Vec<ErrorRule>,
}

#[verifier::ext_equal]
pub ghost struct SpecV {
    pub table: Text,
    pub time_field: Text,
    pub duration_field: Text,
    pub label_field: Text,
    pub key_field: Text,
    pub weight_field: Text,
    pub rules: Seq<RuleV>,
}

impl View for Spec {
    type V = SpecV;

    open spec fn view(&self) -> SpecV {
        SpecV {
            table: self.table@,
            time_field: self.time_field@,
            duration_field: self.duration_field@,
            label_field: self.label_field@,
            key_field: self.key_field@,
            weight_field: self.weight_field@,
            rules: views(self.rules@),
        }
    }
}

pub open spec fn no_spec() -> SpecV {
    SpecV {
        table: Seq::empty(),
        time_field: Seq::empty(),
        duration_field: Seq::empty(),
        label_field: Seq::empty(),
        key_field: Seq::empty(),
        weight_field: Seq::empty(),
        rules: Seq::empty(),
    }
}

impl Default for Spec {
    fn default() -> (r: Spec)
        ensures
            r@ == no_spec(),
    {
        let r = Spec {
            table: String::new(),
            time_field: String::new(),
            duration_field: String::new(),
            label_field: String::new(),
            key_field: String::new(),
            weight_field: String::new(),
            rules: Vec::new(),
        };
        assert(r@ =~= no_spec());
        r
    }
}

pub open spec fn usable(s: SpecV) -> bool {
    s.table.len() > 0 && s.time_field.len() > 0
}

impl Spec {
    pub fn is_usable(&self) -> (r: bool)
        ensures
            r == usable(self@),
    {
        !self.table.as_str().is_empty() && !self.time_field.as_str().is_empty()
    }

    /// Whether a failure count can be computed at all.
    pub fn knows_failure(&self) -> (r: bool)
        ensures
            r == (self@.rules.len() > 0),
    {
        assert(self@.rules.len() == self.rules@.len());
        self.rules.len() > 0
    }
}

/// Bucket width for a window: enough points to show a shape, few enough that
/// each holds a meaningful sample.
pub open spec fn bucket_text(range: TimeRange) -> Text {
    match range {
        TimeRange::LastHour => "1m"@,
        TimeRange::Last2Hours => "2m"@,
        TimeRange::Last4Hours => "5m"@,
        TimeRange::LastDay => "15m"@,
        TimeRange::LastWeek => "1h"@,
        TimeRange::Last30Days => "6h"@,
    }
}

pub fn bucket(range: TimeRange) -> (r: &'static str)
    ensures
        r@ == bucket_text(range),
{
    match range {
        TimeRange::LastHour => "1m",
        TimeRange::Last2Hours => "2m",
        TimeRange::Last4Hours => "5m",
        TimeRange::LastDay => "15m",
        TimeRange::LastWeek => "1h",
        TimeRange::Last30Days => "6h",
    }
}

// ── Choosing a table ──────────────────────────────────────────────────────

/// The rows in range of the first table of that name.
pub open spec fn rows_named(schemas: Seq<TableV>, name: Text) -> int
    decreases schemas.len(),
{
    if schemas.len() == 0 {
        0
    } else if schemas[0].table == name {
        schemas[0].rows_in_range
    } else {
        rows_named(schemas.drop_first(), name)
    }
}

pub fn rows_in(schemas: &Vec<TableSchema>, name: &str) -> (r: usize)
    ensures
        r == rows_named(views(schemas@), name@),
{
    let ghost sv = views(schemas@);
    let mut i: usize = 0;
    assert(sv.skip(0) =~= sv);
    while i < schemas.len()
        invariant
            i <= schemas@.len(),
            sv == views(schemas@),
            rows_named(sv, name@) == rows_named(sv.skip(i as int), name@),
        decreases schemas@.len() - i,
    {
        assert(sv.skip(i as int)[0] == schemas@[i as int]@);
        assert(sv.skip(i as int).drop_first() =~= sv.skip(i + 1));
        if same(schemas[i].table.as_str(), name) {
            return schemas[i].rows_in_range;
        }
        i = i + 1;
    }
    assert(sv.skip(i as int) =~= Seq::empty());
    0
}

/// The table with the most rows; the last of those.
pub open spec fn busiest(schemas: Seq<TableV>, pool: Seq<Text>) -> Option<Text>
    decreases pool.len(),
{
    if pool.len() == 0 {
        None
    } else {
        match busiest(schemas, pool.drop_last()) {
            None => Some(pool.last()),
            Some(b) => if rows_named(schemas, pool.last()) >= rows_named(schemas, b) {
                Some(pool.last())
            } else {
                Some(b)
            },
        }
    }
}

pub(crate) fn busiest_of(schemas: &Vec<TableSchema>, pool: &Vec<String>) -> (r: Option<String>)
    ensures
        match r {
            Some(t) => busiest(views(schemas@), views(pool@)) == Some(t@),
            None => busiest(views(schemas@), views(pool@)) is None,
        },
{
    let ghost pv = views(pool@);
    let ghost sv = views(schemas@);
    let mut best: Option<String> = None;
    let mut most: usize = 0;
    let mut i: usize = 0;
    assert(pv.take(0) =~= Seq::empty());
    while i < pool.len()
        invariant
            i <= pool@.len(),
            pv == views(pool@),
            sv == views(schemas@),
            match best {
                Some(t) => busiest(sv, pv.take(i as int)) == Some(t@) && most == rows_named(sv, t@),
                None => busiest(sv, pv.take(i as int)) is None,
            },
        decreases pool@.len() - i,
    {
        assert(pv.take(i + 1).drop_last() =~= pv.take(i as int));
        assert(pv.take(i + 1).last() == pool@[i as int]@);
        let rows: usize = rows_in(schemas, pool[i].as_str());
        if best.is_none() || rows >= most {
            best = Some(pool[i].clone());
            most = rows;
        }
        i = i + 1;
    }
    assert(pv.take(i as int) =~= pv);
    best
}

/// The tables that a key is bound in and that are listed, in order.
pub open spec fn bound_among(k: KeyV, listed_: Seq<Text>, n: int) -> Seq<Text>
    decreases n,
{
    if n <= 0 {
        Seq::empty()
    } else {
        let before = bound_among(k, listed_, n - 1);
        if listed_.contains(k.bindings[n - 1].table) {
            before.push(k.bindings[n - 1].table)
        } else {
            before
        }
    }
}

/// The tables that a key is bound in, in order.
pub open spec fn all_bound(k: KeyV) -> Seq<Text> {
    k.bindings.map_values(|b: crate::keys::BindingV| b.table)
}

fn bound_tables_among(key: &KeyCandidate, tables: &Vec<String>) -> (r: Vec<String>)
    ensures
        views(r@) == bound_among(key@, views(tables@), key@.bindings.len() as int),
{
    let ghost kv = key@;
    let ghost tv = views(tables@);
    let mut out: Vec<String> = Vec::new();
    let mut i: usize = 0;
    assert(views(out@) =~= Seq::<Text>::empty());
    assert(kv.bindings.len() == key.bindings@.len());
    while i < key.bindings.len()
        invariant
            i <= key.bindings@.len(),
            kv == key@,
            tv == views(tables@),
            views(out@) == bound_among(kv, tv, i as int),
        decreases key.bindings@.len() - i,
    {
        assert(kv.bindings[i as int] == key.bindings@[i as int]@);
        if listed(tables, key.bindings[i].table.as_str()) {
            let ghost before = views(out@);
            out.push(key.bindings[i].table.clone());
            assert(views(out@) =~= before.push(kv.bindings[i as int].table));
        }
        i = i + 1;
    }
    out
}

fn bound_tables(key: &KeyCandidate) -> (r: Vec<String>)
    ensures
        views(r@) == all_bound(key@),
{
    let ghost kv = key@;
    let mut out: Vec<String> = Vec::new();
    let mut i: usize = 0;
    while i < key.bindings.len()
        invariant
            i <= key.bindings@.len(),
            kv == key@,
            out@.len() == i,
            forall|k: int| 0 <= k < i ==> (#[trigger] out@[k])@ == kv.bindings[k].table,
        decreases key.bindings@.len() - i,
    {
        out.push(key.bindings[i].table.clone());
        i = i + 1;
    }
    assert(views(out@) =~= all_bound(kv));
    out
}

/// Whether a table has a column, but for the case of letters.
pub open spec fn column_in(schemas: Seq<TableV>, table: Text, name: Text) -> bool {
    exists|i: int, j: int|
        0 <= i < schemas.len() && 0 <= j < schemas[i].fields.len() && schemas[i].table == table
            && same_letters((#[trigger] schemas[i].fields[j]).name, name)
}

pub open spec fn named_column_in(schemas: Seq<TableV>, table: Text, name: Text) -> bool {
    name.len() > 0 && column_in(schemas, table, name)
}

pub fn has_column(schemas: &Vec<TableSchema>, table: &str, name: &str) -> (r: bool)
    ensures
        r == named_column_in(views(schemas@), table@, name@),
{
    let ghost sv = views(schemas@);
    if name.is_empty() {
        return false;
    }
    let mut i: usize = 0;
    while i < schemas.len()
        invariant
            i <= schemas@.len(),
            sv == views(schemas@),
            name@.len() > 0,
            forall|a: int, b: int|
                0 <= a < i && 0 <= b < sv[a].fields.len() && sv[a].table == table@
                    ==> !same_letters((#[trigger] sv[a].fields[b]).name, name@),
        decreases schemas@.len() - i,
    {
        let s = &schemas[i];
        assert(sv[i as int] == s@);
        if same(s.table.as_str(), table) {
            let mut j: usize = 0;
            while j < s.fields.len()
                invariant
                    j <= s.fields@.len(),
                    i < schemas@.len(),
                    sv == views(schemas@),
                    sv[i as int] == s@,
                    s@.table == table@,
                    name@.len() > 0,
                    forall|b: int|
                        0 <= b < j ==> !same_letters(
                            (#[trigger] sv[i as int].fields[b]).name,
                            name@,
                        ),
                decreases s.fields@.len() - j,
            {
                assert(sv[i as int].fields[j as int] == s.fields@[j as int]@);
                if same_ignoring_case(s.fields[j].name.as_str(), name) {
                    return true;
                }
                j = j + 1;
            }
        }
        i = i + 1;
    }
    false
}

/// A column that says "this row stands for so many occurrences".
pub open spec fn weight_like(f: FieldV) -> bool {
    f.types.contains("number"@) && (holds(lowered(f.name), "itemcount"@) || holds(
        lowered(f.name),
        "samplecount"@,
    ) || holds(lowered(f.name), "_count"@))
}

pub open spec fn weight_among(fields: Seq<FieldV>) -> Option<Text>
    decreases fields.len(),
{
    if fields.len() == 0 {
        None
    } else if weight_like(fields[0]) {
        Some(fields[0].name)
    } else {
        weight_among(fields.drop_first())
    }
}

/// The first multiplier column of a table; empty when it has none.
pub open spec fn weight_of(schemas: Seq<TableV>, table: Text) -> Text
    decreases schemas.len(),
{
    if schemas.len() == 0 {
        Seq::empty()
    } else if schemas[0].table == table && weight_among(schemas[0].fields) is Some {
        weight_among(schemas[0].fields)->0
    } else {
        weight_of(schemas.drop_first(), table)
    }
}

fn find_weight(fields: &Vec<FieldInfo>) -> (r: Option<String>)
    ensures
        match r {
            Some(n) => weight_among(views(fields@)) == Some(n@),
            None => weight_among(views(fields@)) is None,
        },
{
    let ghost fv = views(fields@);
    let mut i: usize = 0;
    assert(fv.skip(0) =~= fv);
    while i < fields.len()
        invariant
            i <= fields@.len(),
            fv == views(fields@),
            weight_among(fv) == weight_among(fv.skip(i as int)),
        decreases fields@.len() - i,
    {
        assert(fv.skip(i as int)[0] == fields@[i as int]@);
        assert(fv.skip(i as int).drop_first() =~= fv.skip(i + 1));
        let lower = lowercase(fields[i].name.as_str());
        if fields[i].is_number() && (contains(lower.as_str(), "itemcount") || contains(
            lower.as_str(),
            "samplecount",
        ) || contains(lower.as_str(), "_count")) {
            return Some(fields[i].name.clone());
        }
        i = i + 1;
    }
    assert(fv.skip(i as int) =~= Seq::empty());
    None
}

fn weight_in(schemas: &Vec<TableSchema>, table: &str) -> (r: String)
    ensures
        r@ == weight_of(views(schemas@), table@),
{
    let ghost sv = views(schemas@);
    let mut i: usize = 0;
    assert(sv.skip(0) =~= sv);
    while i < schemas.len()
        invariant
            i <= schemas@.len(),
            sv == views(schemas@),
            weight_of(sv, table@) == weight_of(sv.skip(i as int), table@),
        decreases schemas@.len() - i,
    {
        assert(sv.skip(i as int)[0] == schemas@[i as int]@);
        assert(sv.skip(i as int).drop_first() =~= sv.skip(i + 1));
        if same(schemas[i].table.as_str(), table) {
            if let Some(name) = find_weight(&schemas[i].fields) {
                return name;
            }
        }
        i = i + 1;
    }
    let none: String = String::new();
    assert(sv.skip(i as int) =~= Seq::empty());
    assert(none@ =~= Seq::empty());
    none
}

/// The label of the first candidate whose column a table has; empty when
/// there is none.
pub open spec fn first_present(schemas: Seq<TableV>, table: Text, found: Seq<RoleV>) -> Text
    decreases found.len(),
{
    if found.len() == 0 {
        Seq::empty()
    } else if named_column_in(schemas, table, found[0].label) {
        found[0].label
    } else {
        first_present(schemas, table, found.drop_first())
    }
}

pub(crate) fn present_label(
    schemas: &Vec<TableSchema>,
    table: &str,
    found: &Vec<RoleCandidate>,
) -> (r: String)
    ensures
        r@ == first_present(views(schemas@), table@, views(found@)),
{
    let ghost fv = views(found@);
    let mut i: usize = 0;
    assert(fv.skip(0) =~= fv);
    while i < found.len()
        invariant
            i <= found@.len(),
            fv == views(found@),
            first_present(views(schemas@), table@, fv) == first_present(
                views(schemas@),
                table@,
                fv.skip(i as int),
            ),
        decreases found@.len() - i,
    {
        assert(fv.skip(i as int)[0] == found@[i as int]@);
        assert(fv.skip(i as int).drop_first() =~= fv.skip(i + 1));
        if has_column(schemas, table, found[i].label.as_str()) {
            return found[i].label.clone();
        }
        i = i + 1;
    }
    let none: String = String::new();
    assert(fv.skip(i as int) =~= Seq::empty());
    assert(none@ =~= Seq::empty());
    none
}

/// A time column that the table has, or else ingestion time, which is always
/// there.
pub open spec fn time_or_ingestion(schemas: Seq<TableV>, table: Text, time_id: Text) -> Text {
    if named_column_in(schemas, table, time_id) {
        time_id
    } else {
        INGESTION_TIME@
    }
}

pub(crate) fn time_column_for(schemas: &Vec<TableSchema>, table: &str, time_id: &str) -> (r: String)
    ensures
        r@ == time_or_ingestion(views(schemas@), table@, time_id@),
{
    if has_column(schemas, table, time_id) {
        time_id.to_owned()
    } else {
        INGESTION_TIME.to_owned()
    }
}

pub open spec fn field_for(k: KeyV, table: Text) -> Text {
    match binding_in(k.bindings, table) {
        Some(b) => b.field,
        None => Seq::empty(),
    }
}

pub(crate) fn key_field_for(key: &KeyCandidate, table: &str) -> (r: String)
    ensures
        r@ == field_for(key@, table@),
{
    match key.binding_for(table) {
        Some(b) => b.field.clone(),
        None => {
            let none: String = String::new();
            assert(none@ =~= Seq::empty());
            none
        },
    }
}

/// Everything about a spec that does not depend on how rows are grouped.
pub open spec fn base_spec(
    schemas: Seq<TableV>,
    insights: InsightsV,
    key: KeyV,
    table: Text,
    time_id: Text,
    rules: Seq<RuleV>,
) -> SpecV {
    SpecV {
        table,
        time_field: time_or_ingestion(schemas, table, time_id),
        duration_field: first_present(schemas, table, insights.durations),
        label_field: Seq::empty(),
        key_field: field_for(key, table),
        weight_field: weight_of(schemas, table),
        rules,
    }
}

pub fn copy_rules(rules: &Vec<ErrorRule>) -> (r: Vec<ErrorRule>)
    ensures
        views(r@) == views(rules@),
{
    let mut out: Vec<ErrorRule> = Vec::new();
    let mut i: usize = 0;
    while i < rules.len()
        invariant
            i <= rules@.len(),
            out@.len() == i,
            forall|k: int| 0 <= k < i ==> (#[trigger] out@[k])@ == rules@[k]@,
        decreases rules@.len() - i,
    {
        out.push(rules[i].clone());
        i = i + 1;
    }
    assert(views(out@) =~= views(rules@));
    out
}

fn spec_for(
    schemas: &Vec<TableSchema>,
    insights: &Insights,
    key: &KeyCandidate,
    table: &str,
    time_id: &str,
    rules: &Vec<ErrorRule>,
) -> (r: Spec)
    ensures
        r@ == base_spec(views(schemas@), insights@, key@, table@, time_id@, views(rules@)),
{
    let label_field: String = String::new();
    assert(label_field@ =~= Seq::empty());
    Spec {
        table: table.to_owned(),
        time_field: time_column_for(schemas, table, time_id),
        duration_field: present_label(schemas, table, &insights.durations),
        label_field,
        key_field: key_field_for(key, table),
        weight_field: weight_in(schemas, table),
        rules: copy_rules(rules),
    }
}

/// The tables that some candidate of a role is in.
pub open spec fn role_tables(found: Seq<RoleV>) -> Seq<Text>
    decreases found.len(),
{
    if found.len() == 0 {
        Seq::empty()
    } else {
        role_tables(found.drop_last()) + found.last().tables
    }
}

/// The tables where the key and a role meet, in the order of the key.
pub open spec fn meeting(key: KeyV, found: Seq<RoleV>) -> Seq<Text> {
    bound_among(key, role_tables(found), key.bindings.len() as int)
}

/// The label of the first candidate that is in a table; empty when there is
/// none.
pub open spec fn label_in(found: Seq<RoleV>, table: Text) -> Text
    decreases found.len(),
{
    if found.len() == 0 {
        Seq::empty()
    } else if found[0].tables.contains(table) {
        found[0].label
    } else {
        label_in(found.drop_first(), table)
    }
}

pub(crate) fn meeting_tables(key: &KeyCandidate, found: &Vec<RoleCandidate>) -> (r: Vec<String>)
    ensures
        views(r@) == meeting(key@, views(found@)),
{
    let ghost fv = views(found@);
    let mut tables: Vec<String> = Vec::new();
    let mut i: usize = 0;
    assert(fv.take(0) =~= Seq::empty());
    assert(views(tables@) =~= Seq::<Text>::empty());
    while i < found.len()
        invariant
            i <= found@.len(),
            fv == views(found@),
            views(tables@) == role_tables(fv.take(i as int)),
        decreases found@.len() - i,
    {
        let ghost before = views(tables@);
        let ghost more = fv[i as int].tables;
        let list = &found[i].tables;
        let mut j: usize = 0;
        assert(more == views(list@));
        assert(before + more.take(0) =~= before);
        while j < list.len()
            invariant
                j <= list@.len(),
                more == views(list@),
                views(tables@) == before + more.take(j as int),
            decreases list@.len() - j,
        {
            let ghost so_far = views(tables@);
            tables.push(list[j].clone());
            assert(views(tables@) =~= so_far.push(more[j as int]));
            assert(views(tables@) =~= before + more.take(j + 1));
            j = j + 1;
        }
        assert(more.take(j as int) =~= more);
        assert(fv.take(i + 1).drop_last() =~= fv.take(i as int));
        i = i + 1;
    }
    assert(fv.take(i as int) =~= fv);
    bound_tables_among(key, &tables)
}

pub(crate) fn label_for(found: &Vec<RoleCandidate>, table: &str) -> (r: String)
    ensures
        r@ == label_in(views(found@), table@),
{
    let ghost fv = views(found@);
    let mut i: usize = 0;
    assert(fv.skip(0) =~= fv);
    while i < found.len()
        invariant
            i <= found@.len(),
            fv == views(found@),
            label_in(fv, table@) == label_in(fv.skip(i as int), table@),
        decreases found@.len() - i,
    {
        assert(fv.skip(i as int)[0] == found@[i as int]@);
        assert(fv.skip(i as int).drop_first() =~= fv.skip(i + 1));
        if listed(&found[i].tables, table) {
            return found[i].label.clone();
        }
        i = i + 1;
    }
    let none: String = String::new();
    assert(fv.skip(i as int).len() == 0);
    assert(none@ =~= Seq::empty());
    none
}

/// The tables to choose from: those where the key and a duration meet, or
/// else all that the key reaches.
pub open spec fn signal_pool(insights: InsightsV, key: KeyV) -> Seq<Text> {
    let both = meeting(key, insights.durations);
    if both.len() == 0 {
        all_bound(key)
    } else {
        both
    }
}

/// What the signals view reads.
pub open spec fn proposal(
    schemas: Seq<TableV>,
    insights: InsightsV,
    key: KeyV,
    time_id: Text,
    label_id: Text,
    rules: Seq<RuleV>,
) -> SpecV {
    match busiest(schemas, signal_pool(insights, key)) {
        None => no_spec(),
        Some(table) => SpecV {
            label_field: if named_column_in(schemas, table, label_id) {
                label_id
            } else {
                Seq::empty()
            },
            ..base_spec(schemas, insights, key, table, time_id, rules)
        },
    }
}

/// Picks the table and columns to read: the table where the key and a
/// duration meet, with the most rows behind it. Without any duration there
/// is still rate and failures; without the key there is nothing.
pub fn propose(
    schemas: &Vec<TableSchema>,
    insights: &Insights,
    key: &KeyCandidate,
    time_id: &str,
    label_id: &str,
    rules: &Vec<ErrorRule>,
) -> (r: Spec)
    ensures
        r@ == proposal(views(schemas@), insights@, key@, time_id@, label_id@, views(rules@)),
{
    let both = meeting_tables(key, &insights.durations);
    assert(views(both@).len() == both@.len());
    let pool = if both.len() == 0 {
        bound_tables(key)
    } else {
        both
    };
    match busiest_of(schemas, &pool) {
        None => Spec::default(),
        Some(table) => {
            let mut r = spec_for(schemas, insights, key, table.as_str(), time_id, rules);
            if has_column(schemas, table.as_str(), label_id) {
                r.label_field = label_id.to_owned();
            }
            r
        },
    }
}

/// What the dependency view reads: the same numbers, grouped by what the
/// call went to.
pub open spec fn dependency_proposal(
    schemas: Seq<TableV>,
    insights: InsightsV,
    key: KeyV,
    time_id: Text,
    rules: Seq<RuleV>,
) -> SpecV {
    match busiest(schemas, meeting(key, insights.targets)) {
        None => no_spec(),
        Some(table) => SpecV {
            label_field: label_in(insights.targets, table),
            ..base_spec(schemas, insights, key, table, time_id, rules)
        },
    }
}

/// As [`propose`], for dependencies: the table is where the key and a target
/// meet.
pub fn propose_dependencies(
    schemas: &Vec<TableSchema>,
    insights: &Insights,
    key: &KeyCandidate,
    time_id: &str,
    rules: &Vec<ErrorRule>,
) -> (r: Spec)
    ensures
        r@ == dependency_proposal(views(schemas@), insights@, key@, time_id@, views(rules@)),
{
    let pool = meeting_tables(key, &insights.targets);
    match busiest_of(schemas, &pool) {
        None => Spec::default(),
        Some(table) => {
            let mut r = spec_for(schemas, insights, key, table.as_str(), time_id, rules);
            r.label_field = label_for(&insights.targets, table.as_str());
            r
        },
    }
}

// ── Queries ───────────────────────────────────────────────────────────────

pub open spec fn failure_clause(r: RuleV) -> Text {
    "tostring("@ + column_reference(r.field) + ") =~ "@ + literal(r.value)
}

/// The error rules as one condition; none without rules.
pub open spec fn failure_condition(rules: Seq<RuleV>) -> Option<Text> {
    if rules.len() == 0 {
        None
    } else {
        Some(joined(rules.map_values(|r: RuleV| failure_clause(r)), " or "@))
    }
}

/// The error rules, OR'd together. They compare as text and without regard
/// to case, as they do in memory.
pub fn failure_expr(rules: &Vec<ErrorRule>) -> (r: Option<String>)
    ensures
        match r {
            Some(t) => failure_condition(views(rules@)) == Some(t@),
            None => failure_condition(views(rules@)) is None,
        },
{
    let ghost rv = views(rules@);
    assert(rv.len() == rules@.len());
    if rules.len() == 0 {
        return None;
    }
    let mut clauses: Vec<String> = Vec::new();
    let mut i: usize = 0;
    while i < rules.len()
        invariant
            i <= rules@.len(),
            rv == views(rules@),
            clauses@.len() == i,
            forall|k: int| 0 <= k < i ==> (#[trigger] clauses@[k])@ == failure_clause(rv[k]),
        decreases rules@.len() - i,
    {
        let head = cat3("tostring(", column_ref(rules[i].field.as_str()).as_str(), ") =~ ");
        clauses.push(cat2(head.as_str(), kql_string(rules[i].value.as_str()).as_str()));
        i = i + 1;
    }
    assert(views(clauses@) =~= rv.map_values(|r: RuleV| failure_clause(r)));
    Some(join(&clauses, " or "))
}

/// How one row is counted.
pub open spec fn weight_text(s: SpecV) -> Text {
    if s.weight_field.len() == 0 {
        "count()"@
    } else {
        "sum("@ + column_reference(s.weight_field) + ")"@
    }
}

pub fn weigh(spec_: &Spec) -> (r: String)
    ensures
        r@ == weight_text(spec_@),
{
    if spec_.weight_field.as_str().is_empty() {
        "count()".to_owned()
    } else {
        cat3("sum(", column_ref(spec_.weight_field.as_str()).as_str(), ")")
    }
}

pub open spec fn failed_text(s: SpecV) -> Text {
    match failure_condition(s.rules) {
        None => "0"@,
        Some(p) => if s.weight_field.len() == 0 {
            "countif("@ + p + ")"@
        } else {
            "sumif("@ + column_reference(s.weight_field) + ", "@ + p + ")"@
        },
    }
}

pub fn failed_expr(spec_: &Spec) -> (r: String)
    ensures
        r@ == failed_text(spec_@),
{
    match failure_expr(&spec_.rules) {
        None => "0".to_owned(),
        Some(p) => if spec_.weight_field.as_str().is_empty() {
            cat3("countif(", p.as_str(), ")")
        } else {
            cat5(
                "sumif(",
                column_ref(spec_.weight_field.as_str()).as_str(),
                ", ",
                p.as_str(),
                ")",
            )
        },
    }
}

/// Percentile clauses; nothing when no duration is recorded.
pub open spec fn percentile_text(s: SpecV) -> Text {
    if s.duration_field.len() == 0 {
        Seq::empty()
    } else {
        let d = column_reference(s.duration_field);
        ",\n            P50 = percentile(todouble("@ + d
            + "), 50),\n            P95 = percentile(todouble("@ + d
            + "), 95),\n            P99 = percentile(todouble("@ + d + "), 99)"@
    }
}

pub fn percentiles(spec_: &Spec) -> (r: String)
    ensures
        r@ == percentile_text(spec_@),
{
    if spec_.duration_field.as_str().is_empty() {
        let none: String = String::new();
        assert(none@ =~= Seq::empty());
        return none;
    }
    let d = column_ref(spec_.duration_field.as_str());
    cat7(
        ",\n            P50 = percentile(todouble(",
        d.as_str(),
        "), 50),\n            P95 = percentile(todouble(",
        d.as_str(),
        "), 95),\n            P99 = percentile(todouble(",
        d.as_str(),
        "), 99)",
    )
}

pub open spec fn series_text(s: SpecV, bucket_: Text) -> Text {
    quoted_name(s.table) + "\n| summarize Total = "@ + weight_text(s) + ", Failed = "@
        + failed_text(s) + percentile_text(s) + "\n    by At = bin("@ + column_reference(
        s.time_field,
    ) + ", "@ + bucket_ + ")\n| order by At asc"@
}

/// Counts per bucket of time. The window is the request's own.
pub fn series_query(spec_: &Spec, bucket_: &str) -> (r: String)
    ensures
        r@ == series_text(spec_@, bucket_@),
{
    let mut r = cat7(
        table_ref(spec_.table.as_str()).as_str(),
        "\n| summarize Total = ",
        weigh(spec_).as_str(),
        ", Failed = ",
        failed_expr(spec_).as_str(),
        percentiles(spec_).as_str(),
        "\n    by At = bin(",
    );
    r.append(column_ref(spec_.time_field.as_str()).as_str());
    r.append(", ");
    r.append(bucket_);
    r.append(")\n| order by At asc");
    r
}

pub open spec fn operation_p95(s: SpecV) -> Text {
    if s.duration_field.len() == 0 {
        Seq::empty()
    } else {
        ",\n            P95 = percentile(todouble("@ + column_reference(s.duration_field)
            + "), 95)"@
    }
}

pub open spec fn operation_group(s: SpecV) -> Text {
    if s.label_field.len() == 0 {
        "Label = "@ + literal(s.table)
    } else {
        "Label = tostring("@ + column_reference(s.label_field) + ")"@
    }
}

pub open spec fn operations_text(s: SpecV) -> Text {
    quoted_name(s.table) + "\n| summarize Calls = "@ + weight_text(s) + ", Failures = "@
        + failed_text(s) + operation_p95(s) + "\n            , SampleKey = any(tostring("@
        + column_reference(s.key_field) + "))\n    by "@ + operation_group(s)
        + "\n| order by Failures desc, Calls desc\n| take 50"@
}

/// Counts per operation, each row with a value to trace. Without a label the
/// table's name yields the one row that is still the honest answer.
pub fn operations_query(spec_: &Spec) -> (r: String)
    ensures
        r@ == operations_text(spec_@),
{
    let p95: String = if spec_.duration_field.as_str().is_empty() {
        let none: String = String::new();
        assert(none@ =~= Seq::empty());
        none
    } else {
        cat3(
            ",\n            P95 = percentile(todouble(",
            column_ref(spec_.duration_field.as_str()).as_str(),
            "), 95)",
        )
    };
    let group: String = if spec_.label_field.as_str().is_empty() {
        cat2("Label = ", kql_string(spec_.table.as_str()).as_str())
    } else {
        cat3("Label = tostring(", column_ref(spec_.label_field.as_str()).as_str(), ")")
    };
    let mut r = cat7(
        table_ref(spec_.table.as_str()).as_str(),
        "\n| summarize Calls = ",
        weigh(spec_).as_str(),
        ", Failures = ",
        failed_expr(spec_).as_str(),
        p95.as_str(),
        "\n            , SampleKey = any(tostring(",
    );
    r.append(column_ref(spec_.key_field.as_str()).as_str());
    r.append("))\n    by ");
    r.append(group.as_str());
    r.append("\n| order by Failures desc, Calls desc\n| take 50");
    r
}

// ── Rows ──────────────────────────────────────────────────────────────────

/// A cell as text; empty when there is none.
pub open spec fn cell_text(cell: Option<JsonV>) -> Text {
    match cell {
        None => Seq::empty(),
        Some(v) => match v {
            JsonV::Null => Seq::empty(),
            JsonV::Text(s) => s,
            JsonV::Number(n) => n.text,
            JsonV::Bool(b) => if b {
                "true"@
            } else {
                "false"@
            },
            _ => compact(v),
        },
    }
}

pub fn text(row: &Json, field: &str) -> (r: String)
    ensures
        r@ == cell_text(row@.get(field@)),
{
    match row.get(field) {
        None => {
            let none: String = String::new();
            assert(none@ =~= Seq::empty());
            none
        },
        Some(v) => match v {
            Json::Null => {
                let none: String = String::new();
                assert(none@ =~= Seq::empty());
                none
            },
            Json::Text(s) => s.clone(),
            Json::Number(n) => n.text.clone(),
            Json::Bool(b) => if *b {
                "true".to_owned()
            } else {
                "false".to_owned()
            },
            _ => compact_text(v),
        },
    }
}

/// The text of a cell that is a number, or text that may spell one.
pub open spec fn numeric_text(cell: Option<JsonV>) -> Option<Text> {
    match cell {
        Some(JsonV::Number(n)) => Some(n.text),
        Some(JsonV::Text(s)) => Some(s),
        _ => None,
    }
}

pub fn number(row: &Json, field: &str) -> (r: Option<String>)
    ensures
        opt_text(r) == numeric_text(row@.get(field@)),
{
    match row.get(field) {
        Some(v) => match v {
            Json::Number(n) => Some(n.text.clone()),
            Json::Text(s) => Some(s.clone()),
            _ => None,
        },
        None => None,
    }
}

/// One bucket of time. Numbers are kept as the text they came as.
#[derive(Debug, PartialEq)]
pub struct Point {
    /// Epoch milliseconds.
    pub at: i64,
    pub total: Option<String>,
    pub failed: Option<String>,
    pub p50: Option<String>,
    pub p95: Option<String>,
    pub p99: Option<String>,
}

#[verifier::ext_equal]
pub ghost struct PointV {
    pub at: i64,
    pub total: Option<Text>,
    pub failed: Option<Text>,
    pub p50: Option<Text>,
    pub p95: Option<Text>,
    pub p99: Option<Text>,
}

impl View for Point {
    type V = PointV;

    open spec fn view(&self) -> PointV {
        PointV {
            at: self.at,
            total: opt_text(self.total),
            failed: opt_text(self.failed),
            p50: opt_text(self.p50),
            p95: opt_text(self.p95),
            p99: opt_text(self.p99),
        }
    }
}

/// A row with a timestamp is a point.
pub open spec fn point_of(row: JsonV) -> Option<PointV> {
    match row.get("At"@) {
        None => None,
        Some(v) => match time_of(v) {
            None => None,
            Some(at) => Some(
                PointV {
                    at,
                    total: numeric_text(row.get("Total"@)),
                    failed: numeric_text(row.get("Failed"@)),
                    p50: numeric_text(row.get("P50"@)),
                    p95: numeric_text(row.get("P95"@)),
                    p99: numeric_text(row.get("P99"@)),
                },
            ),
        },
    }
}

pub fn build_point(row: &Json) -> (r: Option<Point>)
    ensures
        match r {
            Some(p) => point_of(row@) == Some(p@),
            None => point_of(row@) is None,
        },
        r is Some <==> row@.get("At"@) is Some && time_of(row@.get("At"@)->0) is Some,
        r matches Some(p) ==> {
            &&& time_of(row@.get("At"@)->0) == Some(p.at)
            &&& opt_text(p.total) == numeric_text(row@.get("Total"@))
            &&& opt_text(p.failed) == numeric_text(row@.get("Failed"@))
            &&& opt_text(p.p50) == numeric_text(row@.get("P50"@))
            &&& opt_text(p.p95) == numeric_text(row@.get("P95"@))
            &&& opt_text(p.p99) == numeric_text(row@.get("P99"@))
        },
{
    match row.get("At") {
        None => None,
        Some(v) => match parse_time(v) {
            None => None,
            Some(at) => Some(
                Point {
                    at,
                    total: number(row, "Total"),
                    failed: number(row, "Failed"),
                    p50: number(row, "P50"),
                    p95: number(row, "P95"),
                    p99: number(row, "P99"),
                },
            ),
        },
    }
}

/// One operation. Numbers are kept as the text they came as.
#[derive(Debug, PartialEq)]
pub struct Operation {
    pub label: String,
    pub calls: Option<String>,
    pub failures: Option<String>,
    pub p95: Option<String>,
    /// One correlation value of this group, for the pivot into the trace.
    pub sample_key: String,
}

#[verifier::ext_equal]
pub ghost struct OperationV {
    pub label: Text,
    pub calls: Option<Text>,
    pub failures: Option<Text>,
    pub p95: Option<Text>,
    pub sample_key: Text,
}

impl View for Operation {
    type V = OperationV;

    open spec fn view(&self) -> OperationV {
        OperationV {
            label: self.label@,
            calls: opt_text(self.calls),
            failures: opt_text(self.failures),
            p95: opt_text(self.p95),
            sample_key: self.sample_key@,
        }
    }
}

/// A group with no label is still a group; it is named rather than blank.
pub open spec fn operation_of(row: JsonV) -> OperationV {
    let l = cell_text(row.get("Label"@));
    OperationV {
        label: if l.len() == 0 {
            "(unnamed)"@
        } else {
            l
        },
        calls: numeric_text(row.get("Calls"@)),
        failures: numeric_text(row.get("Failures"@)),
        p95: numeric_text(row.get("P95"@)),
        sample_key: cell_text(row.get("SampleKey"@)),
    }
}

pub fn build_operation(row: &Json) -> (r: Operation)
    ensures
        r@ == operation_of(row@),
        r.label@ == if cell_text(row@.get("Label"@)).len() == 0 {
            "(unnamed)"@
        } else {
            cell_text(row@.get("Label"@))
        },
        opt_text(r.calls) == numeric_text(row@.get("Calls"@)),
        opt_text(r.failures) == numeric_text(row@.get("Failures"@)),
        opt_text(r.p95) == numeric_text(row@.get("P95"@)),
        r.sample_key@ == cell_text(row@.get("SampleKey"@)),
{
    let l = text(row, "Label");
    let label = if l.as_str().is_empty() {
        "(unnamed)".to_owned()
    } else {
        l
    };
    Operation {
        label,
        calls: number(row, "Calls"),
        failures: number(row, "Failures"),
        p95: number(row, "P95"),
        sample_key: text(row, "SampleKey"),
    }
}

#[derive(Debug, PartialEq)]
pub struct Signals {
    pub series: Vec<Point>,
    pub operations: Vec<Operation>,
    /// What the duration numbers are in.
    pub unit: String,
}

#[verifier::ext_equal]
pub ghost struct SignalsV {
    pub series: Seq<PointV>,
    pub operations: Seq<OperationV>,
    pub unit: Text,
}

impl View for Signals {
    type V = SignalsV;

    open spec fn view(&self) -> SignalsV {
        SignalsV {
            series: views(self.series@),
            operations: views(self.operations@),
            unit: self.unit@,
        }
    }
}

impl Default for Signals {
    fn default() -> (r: Signals)
        ensures
            r@ == (SignalsV {
                series: Seq::empty(),
                operations: Seq::empty(),
                unit: Seq::empty(),
            }),
    {
        let r = Signals { series: Vec::new(), operations: Vec::new(), unit: String::new() };
        assert(r@ =~= (SignalsV {
            series: Seq::empty(),
            operations: Seq::empty(),
            unit: Seq::empty(),
        }));
        r
    }
}

impl Signals {
    pub fn is_empty(&self) -> (r: bool)
        ensures
            r == (self@.series.len() == 0 && self@.operations.len() == 0),
    {
        assert(self@.series.len() == self.series@.len());
        assert(self@.operations.len() == self.operations@.len());
        self.series.len() == 0 && self.operations.len() == 0
    }
}

/// The rows that are points, in order.
pub open spec fn points_of(rows: Seq<JsonV>) -> Seq<PointV>
    decreases rows.len(),
{
    if rows.len() == 0 {
        Seq::empty()
    } else {
        let before = points_of(rows.drop_last());
        match point_of(rows.last()) {
            Some(p) => before.push(p),
            None => before,
        }
    }
}

pub open spec fn signals_of(s: SpecV, series: Seq<JsonV>, operations: Seq<JsonV>) -> SignalsV {
    SignalsV {
        series: points_of(series),
        operations: operations.map_values(|r: JsonV| operation_of(r)),
        unit: if s.duration_field.len() == 0 {
            Seq::empty()
        } else {
            unit_text(s.duration_field)
        },
    }
}

/// The two queries of the view, series then operations; none when the spec
/// is not usable.
pub fn load_queries(spec_: &Spec, range: TimeRange) -> (r: Option<(String, String)>)
    ensures
        match r {
            Some((a, b)) => usable(spec_@) && a@ == series_text(spec_@, bucket_text(range)) && b@
                == operations_text(spec_@),
            None => !usable(spec_@),
        },
{
    if !spec_.is_usable() {
        return None;
    }
    Some((series_query(spec_, bucket(range)), operations_query(spec_)))
}

/// Puts the view together from the answers to its two queries.
pub fn assemble_signals(spec_: &Spec, series: &Vec<Json>, operations: &Vec<Json>) -> (r: Signals)
    ensures
        r@ == signals_of(spec_@, views(series@), views(operations@)),
{
    let ghost sv = views(series@);
    let ghost ov = views(operations@);
    let mut points: Vec<Point> = Vec::new();
    let mut i: usize = 0;
    assert(sv.take(0) =~= Seq::empty());
    assert(views(points@) =~= Seq::<PointV>::empty());
    while i < series.len()
        invariant
            i <= series@.len(),
            sv == views(series@),
            views(points@) == points_of(sv.take(i as int)),
        decreases series@.len() - i,
    {
        assert(sv.take(i + 1).drop_last() =~= sv.take(i as int));
        assert(sv.take(i + 1).last() == series@[i as int]@);
        if let Some(p) = build_point(&series[i]) {
            let ghost before = views(points@);
            let ghost pv = p@;
            points.push(p);
            assert(views(points@) =~= before.push(pv));
        }
        i = i + 1;
    }
    assert(sv.take(i as int) =~= sv);
    let mut ops: Vec<Operation> = Vec::new();
    let mut j: usize = 0;
    while j < operations.len()
        invariant
            j <= operations@.len(),
            ov == views(operations@),
            ops@.len() == j,
            forall|k: int| 0 <= k < j ==> (#[trigger] ops@[k])@ == operation_of(ov[k]),
        decreases operations@.len() - j,
    {
        ops.push(build_operation(&operations[j]));
        j = j + 1;
    }
    assert(views(ops@) =~= ov.map_values(|r: JsonV| operation_of(r)));
    let unit: String = if spec_.duration_field.as_str().is_empty() {
        let none: String = String::new();
        assert(none@ =~= Seq::empty());
        none
    } else {
        unit_of(spec_.duration_field.as_str()).to_owned()
    };
    Signals { series: points, operations: ops, unit }
}

// ── What holds of every proposal ──────────────────────────────────────────

/// The table picked is one to choose from, none of which has more rows; and
/// one is picked as soon as there is any.
pub proof fn busiest_is_listed(schemas: Seq<TableV>, pool: Seq<Text>)
    ensures
        busiest(schemas, pool) matches Some(t) ==> pool.contains(t) && forall|i: int|
            0 <= i < pool.len() ==> rows_named(schemas, #[trigger] pool[i]) <= rows_named(
                schemas,
                t,
            ),
        busiest(schemas, pool) is None <==> pool.len() == 0,
    decreases pool.len(),
{
    if pool.len() > 0 {
        let short = pool.drop_last();
        busiest_is_listed(schemas, short);
        let t = busiest(schemas, pool)->0;
        assert(pool[pool.len() - 1] == pool.last());
        if t != pool.last() {
            let k = choose|k: int| 0 <= k < short.len() && short[k] == t;
            assert(pool[k] == t);
        }
        assert forall|i: int| 0 <= i < pool.len() implies rows_named(schemas, #[trigger] pool[i])
            <= rows_named(schemas, t) by {
            if i < short.len() {
                assert(short[i] == pool[i]);
            }
        }
    }
}

proof fn bound_among_bound(k: KeyV, listed_: Seq<Text>, n: int)
    requires
        0 <= n <= k.bindings.len(),
    ensures
        forall|i: int|
            0 <= i < bound_among(k, listed_, n).len() ==> all_bound(k).contains(
                #[trigger] bound_among(k, listed_, n)[i],
            ) && listed_.contains(bound_among(k, listed_, n)[i]),
    decreases n,
{
    if n > 0 {
        bound_among_bound(k, listed_, n - 1);
        let before = bound_among(k, listed_, n - 1);
        let r = bound_among(k, listed_, n);
        assert(all_bound(k)[n - 1] == k.bindings[n - 1].table);
        assert forall|i: int| 0 <= i < r.len() implies all_bound(k).contains(#[trigger] r[i])
            && listed_.contains(r[i]) by {
            if i < before.len() {
                assert(r[i] == before[i]);
            }
        }
    }
}

/// A proposed table always carries the key, so that every row drawn can be
/// traced; and a key bound anywhere always gets a proposal.
pub proof fn proposed_tables_carry_the_key(
    schemas: Seq<TableV>,
    insights: InsightsV,
    key: KeyV,
    time_id: Text,
    label_id: Text,
    rules: Seq<RuleV>,
)
    ensures
        key.bindings.len() > 0 ==> all_bound(key).contains(
            proposal(schemas, insights, key, time_id, label_id, rules).table,
        ),
        key.bindings.len() == 0 ==> proposal(schemas, insights, key, time_id, label_id, rules)
            == no_spec(),
{
    let pool = signal_pool(insights, key);
    busiest_is_listed(schemas, pool);
    bound_among_bound(key, role_tables(insights.durations), key.bindings.len() as int);
    if key.bindings.len() > 0 {
        let t = busiest(schemas, pool)->0;
        assert(pool.contains(t));
        let i = choose|i: int| 0 <= i < pool.len() && pool[i] == t;
        assert(all_bound(key).contains(pool[i]));
    } else {
        assert(all_bound(key).len() == 0);
    }
}

proof fn role_tables_list(found: Seq<RoleV>, t: Text)
    ensures
        role_tables(found).contains(t) <==> exists|d: int|
            0 <= d < found.len() && (#[trigger] found[d]).tables.contains(t),
    decreases found.len(),
{
    if found.len() > 0 {
        let short = found.drop_last();
        let a = role_tables(short);
        let b = found.last().tables;
        role_tables_list(short, t);
        if role_tables(found).contains(t) {
            let x = choose|x: int| 0 <= x < (a + b).len() && (a + b)[x] == t;
            if x < a.len() {
                assert(a[x] == t);
                let d = choose|d: int| 0 <= d < short.len() && (#[trigger] short[d]).tables.contains(t);
                assert(found[d] == short[d]);
            } else {
                assert(b[x - a.len()] == t);
                assert(found[found.len() - 1].tables.contains(t));
            }
        }
        if exists|d: int| 0 <= d < found.len() && (#[trigger] found[d]).tables.contains(t) {
            let d = choose|d: int| 0 <= d < found.len() && (#[trigger] found[d]).tables.contains(t);
            if d < short.len() {
                assert(short[d] == found[d]);
                let x = choose|x: int| 0 <= x < a.len() && a[x] == t;
                assert((a + b)[x] == t);
            } else {
                let x = choose|x: int| 0 <= x < b.len() && b[x] == t;
                assert((a + b)[a.len() + x] == t);
            }
        }
    }
}

proof fn bound_among_has(k: KeyV, listed_: Seq<Text>, n: int, i: int)
    requires
        0 <= i < n <= k.bindings.len(),
        listed_.contains(k.bindings[i].table),
    ensures
        bound_among(k, listed_, n).contains(k.bindings[i].table),
    decreases n,
{
    let before = bound_among(k, listed_, n - 1);
    let r = bound_among(k, listed_, n);
    if i < n - 1 {
        bound_among_has(k, listed_, n - 1, i);
        let x = choose|x: int| 0 <= x < before.len() && before[x] == k.bindings[i].table;
        assert(r[x] == k.bindings[i].table);
    } else {
        assert(r[r.len() - 1] == k.bindings[i].table);
    }
}

/// The tables where a key and a role meet are those that the key reaches and
/// some candidate of the role is in.
pub proof fn meeting_means_both(key: KeyV, found: Seq<RoleV>, t: Text)
    ensures
        meeting(key, found).contains(t) <==> all_bound(key).contains(t) && exists|d: int|
            0 <= d < found.len() && (#[trigger] found[d]).tables.contains(t),
{
    let n = key.bindings.len() as int;
    let listed_ = role_tables(found);
    role_tables_list(found, t);
    bound_among_bound(key, listed_, n);
    if meeting(key, found).contains(t) {
        let x = choose|x: int| 0 <= x < meeting(key, found).len() && meeting(key, found)[x] == t;
        assert(all_bound(key).contains(bound_among(key, listed_, n)[x]));
    }
    if all_bound(key).contains(t) && listed_.contains(t) {
        let i = choose|i: int| 0 <= i < all_bound(key).len() && all_bound(key)[i] == t;
        assert(key.bindings[i].table == t);
        bound_among_has(key, listed_, n, i);
    }
}

/// Whichever duration meets the key, and wherever, the table that is read is
/// one where they meet: it wins over a busier one that records no duration.
pub proof fn duration_wins_over_volume(
    schemas: Seq<TableV>,
    insights: InsightsV,
    key: KeyV,
    time_id: Text,
    label_id: Text,
    rules: Seq<RuleV>,
    d: int,
    t: Text,
)
    requires
        0 <= d < insights.durations.len(),
        insights.durations[d].tables.contains(t),
        all_bound(key).contains(t),
    ensures
        meeting(key, insights.durations).contains(
            proposal(schemas, insights, key, time_id, label_id, rules).table,
        ),
{
    meeting_means_both(key, insights.durations, t);
    busiest_is_listed(schemas, signal_pool(insights, key));
}

/// The dependency view reads a table where the key and a target meet, and
/// reads something as soon as they do.
pub proof fn dependencies_are_where_targets_meet(
    schemas: Seq<TableV>,
    insights: InsightsV,
    key: KeyV,
    time_id: Text,
    rules: Seq<RuleV>,
    d: int,
    t: Text,
)
    requires
        0 <= d < insights.targets.len(),
        insights.targets[d].tables.contains(t),
        all_bound(key).contains(t),
    ensures
        meeting(key, insights.targets).contains(
            dependency_proposal(schemas, insights, key, time_id, rules).table,
        ),
{
    meeting_means_both(key, insights.targets, t);
    busiest_is_listed(schemas, meeting(key, insights.targets));
}

// ── What is read off a row ────────────────────────────────────────────────

/// What a row says in numbers: the text of a cell that is a number, or of one
/// that is a text; nothing of any other, nor of one that is missing.
pub proof fn numbers_are_read_as_they_stand(cell: Option<JsonV>, n: NumberV, t: Text)
    ensures
        cell == Some(JsonV::Number(n)) ==> numeric_text(cell) == Some(n.text),
        cell == Some(JsonV::Text(t)) ==> numeric_text(cell) == Some(t),
        !(cell matches Some(JsonV::Number(_))) && !(cell matches Some(JsonV::Text(_)))
            ==> numeric_text(cell) is None,
{
}

/// What a cell says: a text or a number as it stands, a truth value in a
/// word, nothing for what is missing or null.
pub proof fn cells_are_read_as_they_stand(cell: Option<JsonV>, n: NumberV, t: Text)
    ensures
        cell == Some(JsonV::Text(t)) ==> cell_text(cell) == t,
        cell == Some(JsonV::Number(n)) ==> cell_text(cell) == n.text,
        cell == Some(JsonV::Bool(true)) ==> cell_text(cell) == "true"@,
        cell == Some(JsonV::Bool(false)) ==> cell_text(cell) == "false"@,
        cell == Some(JsonV::Null) || cell is None ==> cell_text(cell).len() == 0,
        cell matches Some(v) ==> (v is Array || v is Object ==> cell_text(cell) == compact(v)),
{
}

/// A row is a point when its cell `At` is an instant. Each number of the
/// point is the cell of its own name and of no other.
pub proof fn points_hold_their_own_cells(row: JsonV, n: NumberV, t: Text)
    ensures
        point_of(row) is Some <==> row.get("At"@) is Some && time_of(row.get("At"@)->0) is Some,
        point_of(row) matches Some(p) ==> {
            &&& time_of(row.get("At"@)->0) == Some(p.at)
            &&& row.get("Total"@) == Some(JsonV::Number(n)) ==> p.total == Some(n.text)
            &&& row.get("Failed"@) == Some(JsonV::Number(n)) ==> p.failed == Some(n.text)
            &&& row.get("P50"@) == Some(JsonV::Number(n)) ==> p.p50 == Some(n.text)
            &&& row.get("P95"@) == Some(JsonV::Number(n)) ==> p.p95 == Some(n.text)
            &&& row.get("P99"@) == Some(JsonV::Number(n)) ==> p.p99 == Some(n.text)
            &&& row.get("Total"@) == Some(JsonV::Text(t)) ==> p.total == Some(t)
            &&& row.get("Failed"@) == Some(JsonV::Text(t)) ==> p.failed == Some(t)
            &&& row.get("P50"@) == Some(JsonV::Text(t)) ==> p.p50 == Some(t)
            &&& row.get("P95"@) == Some(JsonV::Text(t)) ==> p.p95 == Some(t)
            &&& row.get("P99"@) == Some(JsonV::Text(t)) ==> p.p99 == Some(t)
            &&& row.get("Total"@) is None ==> p.total is None
            &&& row.get("Failed"@) is None ==> p.failed is None
            &&& row.get("P50"@) is None ==> p.p50 is None
            &&& row.get("P95"@) is None ==> p.p95 is None
            &&& row.get("P99"@) is None ==> p.p99 is None
        },
{
}

/// Every number of an operation is the cell of its own name, and so are its
/// label and the value to trace. Only an empty label is replaced.
pub proof fn operations_hold_their_own_cells(row: JsonV, n: NumberV, t: Text)
    ensures
        row.get("Label"@) == Some(JsonV::Text(t)) && t.len() > 0 ==> operation_of(row).label == t,
        row.get("Label"@) is None || row.get("Label"@) == Some(JsonV::Null) || row.get("Label"@)
            == Some(JsonV::Text(Seq::empty())) ==> operation_of(row).label == "(unnamed)"@,
        row.get("SampleKey"@) == Some(JsonV::Text(t)) ==> operation_of(row).sample_key == t,
        row.get("SampleKey"@) == Some(JsonV::Number(n)) ==> operation_of(row).sample_key == n.text,
        row.get("SampleKey"@) is None ==> operation_of(row).sample_key.len() == 0,
        row.get("Calls"@) == Some(JsonV::Number(n)) ==> operation_of(row).calls == Some(n.text),
        row.get("Failures"@) == Some(JsonV::Number(n)) ==> operation_of(row).failures == Some(
            n.text,
        ),
        row.get("P95"@) == Some(JsonV::Number(n)) ==> operation_of(row).p95 == Some(n.text),
        row.get("Calls"@) == Some(JsonV::Text(t)) ==> operation_of(row).calls == Some(t),
        row.get("Failures"@) == Some(JsonV::Text(t)) ==> operation_of(row).failures == Some(t),
        row.get("P95"@) == Some(JsonV::Text(t)) ==> operation_of(row).p95 == Some(t),
        row.get("Calls"@) is None ==> operation_of(row).calls is None,
        row.get("Failures"@) is None ==> operation_of(row).failures is None,
        row.get("P95"@) is None ==> operation_of(row).p95 is None,
{
}

proof fn points_are_filtered(rows: Seq<JsonV>)
    ensures
        points_of(rows) == rows.filter(
            |r: JsonV| r.get("At"@) is Some && time_of(r.get("At"@)->0) is Some,
        ).map_values(|r: JsonV| point_of(r)->0),
    decreases rows.len(),
{
    reveal(Seq::filter);
    let p = |r: JsonV| r.get("At"@) is Some && time_of(r.get("At"@)->0) is Some;
    let f = |r: JsonV| point_of(r)->0;
    if rows.len() > 0 {
        points_are_filtered(rows.drop_last());
        let part = rows.drop_last().filter(p);
        if p(rows.last()) {
            assert(part.push(rows.last()).map_values(f) =~= part.map_values(f).push(
                f(rows.last()),
            ));
        }
    } else {
        assert(rows.filter(p).map_values(f) =~= Seq::empty());
    }
}

/// The view draws each row that has an instant, in the order of the rows,
/// and lists every operation in theirs. A unit is told only of a duration
/// whose name ends in it.
pub proof fn signals_hold_every_row(s: SpecV, series: Seq<JsonV>, operations: Seq<JsonV>, i: int)
    ensures
        signals_of(s, series, operations).series == series.filter(
            |r: JsonV| r.get("At"@) is Some && time_of(r.get("At"@)->0) is Some,
        ).map_values(|r: JsonV| point_of(r)->0),
        signals_of(s, series, operations).operations.len() == operations.len(),
        0 <= i < operations.len() ==> signals_of(s, series, operations).operations[i]
            == operation_of(operations[i]),
        s.duration_field.len() == 0 ==> signals_of(s, series, operations).unit.len() == 0,
        s.duration_field.len() > 0 && has_suffix(lowered(s.duration_field), "ms"@) ==> signals_of(
            s,
            series,
            operations,
        ).unit == "ms"@,
        !has_suffix(lowered(s.duration_field), "ms"@) ==> signals_of(
            s,
            series,
            operations,
        ).unit.len() == 0,
{
    points_are_filtered(series);
    reveal_strlit("");
}

// ── What a proposal reads ─────────────────────────────────────────────────

/// A table's rows are those told of the first of that name; of a name that
/// nothing has there are none.
pub proof fn rows_are_of_the_first_named(schemas: Seq<TableV>, name: Text, i: int)
    requires
        0 <= i <= schemas.len(),
        forall|j: int| 0 <= j < i ==> (#[trigger] schemas[j]).table != name,
    ensures
        i < schemas.len() && schemas[i].table == name ==> rows_named(schemas, name)
            == schemas[i].rows_in_range,
        i == schemas.len() ==> rows_named(schemas, name) == 0,
    decreases i,
{
    if i > 0 {
        let rest = schemas.drop_first();
        assert(schemas[0].table != name);
        assert forall|j: int| 0 <= j < i - 1 implies (#[trigger] rest[j]).table != name by {
            assert(rest[j] == schemas[j + 1]);
        }
        rows_are_of_the_first_named(rest, name, i - 1);
    }
}

/// Of several tables with the most rows the one listed last is read.
pub proof fn the_busiest_is_the_last_of_the_most(schemas: Seq<TableV>, pool: Seq<Text>, i: int)
    requires
        0 <= i < pool.len(),
        forall|j: int|
            0 <= j < pool.len() ==> rows_named(schemas, #[trigger] pool[j]) <= rows_named(
                schemas,
                pool[i],
            ),
        forall|j: int|
            i < j < pool.len() ==> rows_named(schemas, #[trigger] pool[j]) < rows_named(
                schemas,
                pool[i],
            ),
    ensures
        busiest(schemas, pool) == Some(pool[i]),
    decreases pool.len(),
{
    let short = pool.drop_last();
    if i < short.len() {
        assert(pool.last() == pool[pool.len() - 1]);
        assert forall|j: int| 0 <= j < short.len() implies rows_named(schemas, #[trigger] short[j])
            <= rows_named(schemas, short[i]) by {
            assert(short[j] == pool[j]);
        }
        assert forall|j: int| i < j < short.len() implies rows_named(schemas, #[trigger] short[j])
            < rows_named(schemas, short[i]) by {
            assert(short[j] == pool[j]);
        }
        the_busiest_is_the_last_of_the_most(schemas, short, i);
    } else {
        busiest_is_listed(schemas, short);
        if let Some(b) = busiest(schemas, short) {
            let k = choose|k: int| 0 <= k < short.len() && short[k] == b;
            assert(pool[k] == b);
        }
    }
}

proof fn bound_among_filters(k: KeyV, listed_: Seq<Text>, n: int)
    requires
        0 <= n <= k.bindings.len(),
    ensures
        bound_among(k, listed_, n) == k.bindings.map_values(
            |b: BindingV| b.table,
        ).take(n).filter(|t: Text| listed_.contains(t)),
    decreases n,
{
    reveal(Seq::filter);
    let p = |t: Text| listed_.contains(t);
    let all = k.bindings.map_values(|b: BindingV| b.table);
    if n > 0 {
        bound_among_filters(k, listed_, n - 1);
        assert(all.take(n).drop_last() =~= all.take(n - 1));
        assert(all.take(n).last() == k.bindings[n - 1].table);
    } else {
        assert(all.take(n).filter(p) =~= Seq::empty());
    }
}

/// The tables where a key and a role meet keep the order of the key's own.
pub proof fn meetings_keep_the_order_of_the_key(key: KeyV, found: Seq<RoleV>)
    ensures
        meeting(key, found) == key.bindings.map_values(|b: BindingV| b.table).filter(
            |t: Text| exists|d: int|
                0 <= d < found.len() && (#[trigger] found[d]).tables.contains(t),
        ),
{
    let all = key.bindings.map_values(|b: BindingV| b.table);
    let listed_ = role_tables(found);
    let p = |t: Text| listed_.contains(t);
    let q = |t: Text| exists|d: int|
        0 <= d < found.len() && (#[trigger] found[d]).tables.contains(t);
    bound_among_filters(key, listed_, key.bindings.len() as int);
    assert(all.take(all.len() as int) =~= all);
    assert forall|t: Text| #[trigger] p(t) == q(t) by {
        role_tables_list(found, t);
    }
    assert(p =~= q);
}

/// A table's label is that of the first candidate that is in it.
pub proof fn labels_are_of_the_first_in_the_table(found: Seq<RoleV>, table: Text, d: int)
    requires
        0 <= d <= found.len(),
        forall|j: int| 0 <= j < d ==> !(#[trigger] found[j]).tables.contains(table),
    ensures
        d < found.len() && found[d].tables.contains(table) ==> label_in(found, table)
            == found[d].label,
        d == found.len() ==> label_in(found, table).len() == 0,
    decreases d,
{
    if d > 0 {
        let rest = found.drop_first();
        assert(!found[0].tables.contains(table));
        assert forall|j: int| 0 <= j < d - 1 implies !(#[trigger] rest[j]).tables.contains(
            table,
        ) by {
            assert(rest[j] == found[j + 1]);
        }
        labels_are_of_the_first_in_the_table(rest, table, d - 1);
    }
}

/// The column taken for a role is the first candidate that the table has a
/// column for, whatever tables the candidate is listed under.
pub proof fn the_first_present_column_is_taken(
    schemas: Seq<TableV>,
    table: Text,
    found: Seq<RoleV>,
    d: int,
)
    requires
        0 <= d <= found.len(),
        forall|j: int|
            0 <= j < d ==> !((#[trigger] found[j]).label.len() > 0 && column_in(
                schemas,
                table,
                found[j].label,
            )),
    ensures
        d < found.len() && found[d].label.len() > 0 && column_in(schemas, table, found[d].label)
            ==> first_present(schemas, table, found) == found[d].label,
        d == found.len() ==> first_present(schemas, table, found).len() == 0,
    decreases d,
{
    if d > 0 {
        let rest = found.drop_first();
        assert(!(found[0].label.len() > 0 && column_in(schemas, table, found[0].label)));
        assert forall|j: int| 0 <= j < d - 1 implies !((#[trigger] rest[j]).label.len() > 0
            && column_in(schemas, table, rest[j].label)) by {
            assert(rest[j] == found[j + 1]);
        }
        the_first_present_column_is_taken(schemas, table, rest, d - 1);
    }
}

/// A column is there when some table of the name has a field spelled so, but
/// for the case of ASCII letters, and in no other case.
pub proof fn columns_are_found_in_their_table(
    schemas: Seq<TableV>,
    table: Text,
    name: Text,
    i: int,
    j: int,
)
    requires
        0 <= i < schemas.len(),
        0 <= j < schemas[i].fields.len(),
    ensures
        schemas[i].table == table && ascii_lowered(schemas[i].fields[j].name) == ascii_lowered(name)
            ==> column_in(schemas, table, name),
        column_in(schemas, table, name) ==> exists|a: int, b: int|
            0 <= a < schemas.len() && 0 <= b < schemas[a].fields.len() && schemas[a].table == table
                && ascii_lowered((#[trigger] schemas[a].fields[b]).name) == ascii_lowered(name),
{
    let f = schemas[i].fields[j];
    if schemas[i].table == table && ascii_lowered(f.name) == ascii_lowered(name) {
        assert(same_letters(schemas[i].fields[j].name, name));
    }
    if column_in(schemas, table, name) {
        let (a, b) = choose|a: int, b: int|
            0 <= a < schemas.len() && 0 <= b < schemas[a].fields.len() && schemas[a].table == table
                && same_letters((#[trigger] schemas[a].fields[b]).name, name);
        assert(ascii_lowered(schemas[a].fields[b].name) == ascii_lowered(name));
    }
}

proof fn weight_among_first(fields: Seq<FieldV>, j: int)
    requires
        0 <= j <= fields.len(),
        forall|k: int| 0 <= k < j ==> !weight_like(#[trigger] fields[k]),
    ensures
        j < fields.len() && weight_like(fields[j]) ==> weight_among(fields) == Some(fields[j].name),
        j == fields.len() ==> weight_among(fields) is None,
    decreases j,
{
    if j > 0 {
        let rest = fields.drop_first();
        assert(!weight_like(fields[0]));
        assert forall|k: int| 0 <= k < j - 1 implies !weight_like(#[trigger] rest[k]) by {
            assert(rest[k] == fields[k + 1]);
        }
        weight_among_first(rest, j - 1);
    }
}

proof fn weight_skips(schemas: Seq<TableV>, table: Text, i: int)
    requires
        0 <= i <= schemas.len(),
        forall|a: int, b: int|
            0 <= a < i && schemas[a].table == table && 0 <= b < schemas[a].fields.len()
                ==> !weight_like(#[trigger] schemas[a].fields[b]),
    ensures
        weight_of(schemas, table) == weight_of(schemas.skip(i), table),
    decreases i,
{
    if i > 0 {
        let rest = schemas.drop_first();
        if schemas[0].table == table {
            let fs = schemas[0].fields;
            assert forall|k: int| 0 <= k < fs.len() implies !weight_like(#[trigger] fs[k]) by {
                assert(!weight_like(schemas[0].fields[k]));
            }
            weight_among_first(fs, fs.len() as int);
        }
        assert forall|a: int, b: int|
            0 <= a < i - 1 && rest[a].table == table && 0 <= b < rest[a].fields.len() implies
            !weight_like(#[trigger] rest[a].fields[b]) by {
            assert(rest[a] == schemas[a + 1]);
            assert(!weight_like(schemas[a + 1].fields[b]));
        }
        weight_skips(rest, table, i - 1);
        assert(rest.skip(i - 1) =~= schemas.skip(i));
    } else {
        assert(schemas.skip(0) =~= schemas);
    }
}

/// What makes a column a multiplier: it holds numbers, and its name says
/// that it counts what a row stands for.
pub proof fn multipliers_are_counts(f: FieldV)
    ensures
        weight_like(f) ==> f.types.contains("number"@),
        f.types.contains("number"@) && holds(lowered(f.name), "itemcount"@) ==> weight_like(f),
        f.types.contains("number"@) && holds(lowered(f.name), "samplecount"@) ==> weight_like(f),
        f.types.contains("number"@) && holds(lowered(f.name), "_count"@) ==> weight_like(f),
        !holds(lowered(f.name), "itemcount"@) && !holds(lowered(f.name), "samplecount"@) && !holds(
            lowered(f.name),
            "_count"@,
        ) ==> !weight_like(f),
{
}

/// A table's weight is its first multiplier; without one it has none.
pub proof fn the_weight_is_the_first_multiplier(schemas: Seq<TableV>, table: Text, i: int, j: int)
    requires
        0 <= i <= schemas.len(),
        forall|a: int, b: int|
            0 <= a < i && schemas[a].table == table && 0 <= b < schemas[a].fields.len()
                ==> !weight_like(#[trigger] schemas[a].fields[b]),
        i < schemas.len() ==> schemas[i].table == table && 0 <= j < schemas[i].fields.len()
            && weight_like(schemas[i].fields[j]) && forall|b: int|
            0 <= b < j ==> !weight_like(#[trigger] schemas[i].fields[b]),
    ensures
        i < schemas.len() ==> weight_of(schemas, table) == schemas[i].fields[j].name,
        i == schemas.len() ==> weight_of(schemas, table).len() == 0,
{
    weight_skips(schemas, table, i);
    if i < schemas.len() {
        weight_among_first(schemas[i].fields, j);
        assert(schemas.skip(i)[0] == schemas[i]);
    }
}

proof fn binding_is_first(bindings: Seq<BindingV>, table: Text, b: int)
    requires
        0 <= b <= bindings.len(),
        forall|j: int| 0 <= j < b ==> (#[trigger] bindings[j]).table != table,
    ensures
        b < bindings.len() && bindings[b].table == table ==> binding_in(bindings, table) == Some(
            bindings[b],
        ),
        b == bindings.len() ==> binding_in(bindings, table) is None,
    decreases b,
{
    if b > 0 {
        let rest = bindings.drop_first();
        assert(bindings[0].table != table);
        assert forall|j: int| 0 <= j < b - 1 implies (#[trigger] rest[j]).table != table by {
            assert(rest[j] == bindings[j + 1]);
        }
        binding_is_first(rest, table, b - 1);
    }
}

/// The column of a key in a table is that of the key's first binding there.
pub proof fn keys_are_read_in_their_own_column(key: KeyV, table: Text, b: int)
    requires
        0 <= b <= key.bindings.len(),
        forall|j: int| 0 <= j < b ==> (#[trigger] key.bindings[j]).table != table,
    ensures
        b < key.bindings.len() && key.bindings[b].table == table ==> field_for(key, table)
            == key.bindings[b].field,
        b == key.bindings.len() ==> field_for(key, table).len() == 0,
{
    binding_is_first(key.bindings, table, b);
}

/// What is read of the proposed table: the time column asked for, or else
/// ingestion time; a duration, a multiplier and the key as the table has
/// them; the label asked for, if the table has it; and the rules as given.
pub proof fn proposals_read_the_tables_own_columns(
    schemas: Seq<TableV>,
    insights: InsightsV,
    key: KeyV,
    time_id: Text,
    label_id: Text,
    rules: Seq<RuleV>,
)
    requires
        key.bindings.len() > 0,
    ensures
        ({
            let p = proposal(schemas, insights, key, time_id, label_id, rules);
            let t = p.table;
            &&& p.time_field == if time_id.len() > 0 && column_in(schemas, t, time_id) {
                time_id
            } else {
                "TimeGenerated"@
            }
            &&& p.duration_field == first_present(schemas, t, insights.durations)
            &&& p.weight_field == weight_of(schemas, t)
            &&& p.key_field == field_for(key, t)
            &&& label_id.len() > 0 && column_in(schemas, t, label_id) ==> p.label_field == label_id
            &&& !(label_id.len() > 0 && column_in(schemas, t, label_id)) ==> p.label_field.len()
                == 0
            &&& p.rules == rules
        }),
        ({
            let p = proposal(schemas, insights, key, time_id, label_id, rules);
            let d = dependency_proposal(schemas, insights, key, time_id, rules);
            let t = d.table;
            &&& meeting(key, insights.targets).len() > 0 ==> {
                &&& d.time_field == if time_id.len() > 0 && column_in(schemas, t, time_id) {
                    time_id
                } else {
                    "TimeGenerated"@
                }
                &&& d.duration_field == first_present(schemas, t, insights.durations)
                &&& d.weight_field == weight_of(schemas, t)
                &&& d.key_field == field_for(key, t)
                &&& d.label_field == label_in(insights.targets, t)
                &&& d.rules == rules
            }
            &&& meeting(key, insights.targets).len() == 0 ==> d.table.len() == 0
                && d.label_field.len() == 0
        }),
        meeting(key, insights.durations).len() == 0 ==> forall|i: int|
            0 <= i < key.bindings.len() ==> rows_named(
                schemas,
                (#[trigger] key.bindings[i]).table,
            ) <= rows_named(
                schemas,
                proposal(schemas, insights, key, time_id, label_id, rules).table,
            ),
{
    let all = all_bound(key);
    assert(all.len() == key.bindings.len());
    busiest_is_listed(schemas, signal_pool(insights, key));
    busiest_is_listed(schemas, meeting(key, insights.targets));
    assert forall|i: int| 0 <= i < key.bindings.len() implies (#[trigger] key.bindings[i]).table
        == all[i] by {}
}

// ── What a query asks ─────────────────────────────────────────────────────

/// The text before a query's last part, which groups by the time column in
/// buckets of the width asked for, oldest first.
pub proof fn series_are_by_time(s: SpecV, width: Text) -> (before: Text)
    ensures
        series_text(s, width) == before + "\n    by At = bin("@ + column_reference(s.time_field)
            + ", "@ + width + ")\n| order by At asc"@,
        before == quoted_name(s.table) + "\n| summarize Total = "@ + weight_text(s)
            + ", Failed = "@ + failed_text(s) + percentile_text(s),
{
    quoted_name(s.table) + "\n| summarize Total = "@ + weight_text(s) + ", Failed = "@
        + failed_text(s) + percentile_text(s)
}

/// Operations are grouped by the label, or by the name of the table where
/// there is none, those that fail most first; each carries a value of the
/// key.
pub proof fn operations_are_by_label(s: SpecV) -> (before: Text)
    ensures
        s.label_field.len() > 0 ==> operations_text(s) == before
            + "\n            , SampleKey = any(tostring("@ + column_reference(s.key_field)
            + "))\n    by "@ + ("Label = tostring("@ + column_reference(s.label_field) + ")"@)
            + "\n| order by Failures desc, Calls desc\n| take 50"@,
        s.label_field.len() == 0 ==> operations_text(s) == before
            + "\n            , SampleKey = any(tostring("@ + column_reference(s.key_field)
            + "))\n    by "@ + ("Label = "@ + literal(s.table))
            + "\n| order by Failures desc, Calls desc\n| take 50"@,
        s.duration_field.len() == 0 ==> before == quoted_name(s.table) + "\n| summarize Calls = "@
            + weight_text(s) + ", Failures = "@ + failed_text(s),
        s.duration_field.len() > 0 ==> before == quoted_name(s.table) + "\n| summarize Calls = "@
            + weight_text(s) + ", Failures = "@ + failed_text(s)
            + (",\n            P95 = percentile(todouble("@ + column_reference(s.duration_field)
            + "), 95)"@),
{
    let head = quoted_name(s.table) + "\n| summarize Calls = "@ + weight_text(s) + ", Failures = "@
        + failed_text(s);
    assert(head + Seq::<char>::empty() =~= head);
    head + operation_p95(s)
}

/// With a multiplier rows are summed, without one they are counted; and
/// failures are counted the same way, under every rule of the view. Without
/// rules nothing fails.
pub proof fn rows_are_weighed_alike(s: SpecV, i: int)
    ensures
        s.weight_field.len() == 0 ==> weight_text(s) == "count()"@,
        s.weight_field.len() > 0 ==> weight_text(s) == "sum("@ + column_reference(s.weight_field)
            + ")"@,
        s.rules.len() == 0 ==> failed_text(s) == "0"@ && failure_condition(s.rules) is None,
        s.rules.len() > 0 ==> failure_condition(s.rules) is Some,
        s.rules.len() > 0 && s.weight_field.len() == 0 ==> failed_text(s) == "countif("@
            + failure_condition(s.rules)->0 + ")"@,
        s.rules.len() > 0 && s.weight_field.len() > 0 ==> failed_text(s) == "sumif("@
            + column_reference(s.weight_field) + ", "@ + failure_condition(s.rules)->0 + ")"@,
        0 <= i < s.rules.len() ==> holds(
            failure_condition(s.rules)->0,
            "tostring("@ + column_reference(s.rules[i].field) + ") =~ "@ + literal(
                s.rules[i].value,
            ),
        ),
        s.rules.len() > 1 ==> failure_condition(s.rules)->0 == failure_condition(
            s.rules.drop_last(),
        )->0 + " or "@ + failure_clause(s.rules.last()),
{
    let clauses = s.rules.map_values(|r: RuleV| failure_clause(r));
    if 0 <= i < s.rules.len() {
        part_is_held(clauses, " or "@, i);
    }
    if s.rules.len() > 1 {
        assert(s.rules.drop_last().map_values(|r: RuleV| failure_clause(r))
            =~= clauses.drop_last());
        assert(clauses.last() == failure_clause(s.rules.last()));
    }
}

/// Each percentile is of the duration and carries its own number; without a
/// duration there is none.
pub proof fn percentiles_are_of_the_duration(s: SpecV)
    ensures
        s.duration_field.len() == 0 ==> percentile_text(s).len() == 0,
        ({
            let d = column_reference(s.duration_field);
            s.duration_field.len() > 0 ==> {
                &&& holds(percentile_text(s), "P50 = percentile(todouble("@ + d + "), 50)"@)
                &&& holds(percentile_text(s), "P95 = percentile(todouble("@ + d + "), 95)"@)
                &&& holds(percentile_text(s), "P99 = percentile(todouble("@ + d + "), 99)"@)
            }
        }),
{
    if s.duration_field.len() > 0 {
        let d = column_reference(s.duration_field);
        let t = percentile_text(s);
        reveal_strlit(",\n            P50 = percentile(todouble(");
        reveal_strlit("), 50),\n            P95 = percentile(todouble(");
        reveal_strlit("), 95),\n            P99 = percentile(todouble(");
        reveal_strlit("), 99)");
        reveal_strlit("P50 = percentile(todouble(");
        reveal_strlit("P95 = percentile(todouble(");
        reveal_strlit("P99 = percentile(todouble(");
        reveal_strlit("), 50)");
        reveal_strlit("), 95)");
        let a = ",\n            P50 = percentile(todouble("@;
        let b = "), 50),\n            P95 = percentile(todouble("@;
        let c = "), 95),\n            P99 = percentile(todouble("@;
        let p50 = "P50 = percentile(todouble("@ + d + "), 50)"@;
        let p95 = "P95 = percentile(todouble("@ + d + "), 95)"@;
        let p99 = "P99 = percentile(todouble("@ + d + "), 99)"@;
        let first: int = 14;
        let second: int = (a.len() + d.len() + 20) as int;
        let third: int = (a.len() + d.len() + b.len() + d.len() + 20) as int;
        assert(t.subrange(first, first + p50.len()) =~= p50);
        assert(t.subrange(second, second + p95.len()) =~= p95);
        assert(t.subrange(third, third + p99.len()) =~= p99);
        assert(stands_at(t, p50, first));
        assert(stands_at(t, p95, second));
        assert(stands_at(t, p99, third));
    }
}

/// Each window is cut into buckets of its own width, wider ones for a longer
/// window.
pub proof fn longer_windows_have_wider_buckets(range: TimeRange)
    ensures
        range is LastHour ==> bucket_text(range) == "1m"@,
        range is Last2Hours ==> bucket_text(range) == "2m"@,
        range is Last4Hours ==> bucket_text(range) == "5m"@,
        range is LastDay ==> bucket_text(range) == "15m"@,
        range is LastWeek ==> bucket_text(range) == "1h"@,
        range is Last30Days ==> bucket_text(range) == "6h"@,
{
}

} // verus!
