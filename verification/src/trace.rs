//! Following one key value through the tables that carry it.
//!
//! The result is a set of lanes, each in one of four states: an empty lane
//! is as informative as a full one, as long as "hasn't arrived" is told apart
//! from "was never on this path".

use crate::batch::{batch, batch_bounds, batch_count, count_batches};
use crate::clock::{format_time, parse_time, shown_time, time_of};
use crate::discover::{is_system, system_column};
use crate::json::{members, object_model, Json, JsonV, NumberV};
use crate::keys::{binding_in, Binding, BindingV, KeyCandidate, KeyV};
use crate::loganalytics::{
    column_ref, column_reference, kql_string, let_literal, let_statement, literal, quoted_name,
    table_ref, TimeRange,
};
use crate::order::{filter_holds, strictly_sorted, with_text, with_text_sorted, TextSet};
use crate::text::{
    ascii_lowered, byte_len, bytes_in, cat2, cat3, cat5, cat7, chars_of, decimal, digits, holds,
    join, joined, leaf, listed, lowercase, lowered, part_is_held, piece, pieces, same,
    same_ignoring_case, same_letters, split, trim, trimmed, views, Text,
};
use vstd::prelude::*;

verus! {

/// Blocks kept per lane.
pub const MAX_BLOCKS: usize = 200;

/// Facts shown on a block.
pub const MAX_FACTS: usize = 3;

/// Characters of a fact's value.
pub const FACT_WIDTH: usize = 28;

/// Shortest fragment worth scanning for, in bytes.
pub const MIN_FRAGMENT: usize = 4;

/// Suggestions offered for a fragment.
pub const MAX_SUGGESTIONS: usize = 25;

// ── Reading rows ──────────────────────────────────────────────────────────

/// The first member whose name lowercases to `segment`.
pub open spec fn member_lower(ms: Seq<(Text, JsonV)>, segment: Text) -> Option<(Text, JsonV)>
    decreases ms.len(),
{
    if ms.len() == 0 {
        None
    } else if lowered(ms[0].0) == segment {
        Some(ms[0])
    } else {
        member_lower(ms.drop_first(), segment)
    }
}

/// What is reached by going down some segments.
pub open spec fn descend(name: Text, v: JsonV, segments: Seq<Text>) -> Option<(Text, JsonV)>
    decreases segments.len(),
{
    if segments.len() == 0 {
        Some((name, v))
    } else {
        match v {
            JsonV::Object(ms) => match member_lower(ms, segments[0]) {
                Some((k, inner)) => descend(k, inner, segments.drop_first()),
                None => None,
            },
            _ => None,
        }
    }
}

/// What a row holds under a lowercased dotted path, with the last name as
/// the row spells it.
pub open spec fn entry_at(doc: JsonV, lower_path: Text) -> Option<(Text, JsonV)> {
    if lower_path.len() == 0 {
        None
    } else {
        descend(Seq::empty(), doc, pieces(lower_path, '.'))
    }
}

/// A scalar as text; an empty string says nothing.
pub open spec fn text_form(v: JsonV) -> Option<Text> {
    match v {
        JsonV::Text(s) => if s.len() > 0 {
            Some(s)
        } else {
            None
        },
        JsonV::Number(n) => Some(n.text),
        JsonV::Bool(b) => Some(
            if b {
                "true"@
            } else {
                "false"@
            },
        ),
        _ => None,
    }
}

/// The scalar a row holds under a path, as text.
pub open spec fn text_under(doc: JsonV, lower_path: Text) -> Option<Text> {
    match entry_at(doc, lower_path) {
        Some((_, v)) => text_form(v),
        None => None,
    }
}

fn find_lower<'a>(ms: &'a Vec<(String, Json)>, segment: &str) -> (r: Option<(&'a String, &'a Json)>)
    ensures
        match r {
            Some((k, v)) => member_lower(members(ms@), segment@) == Some((k@, v@)),
            None => member_lower(members(ms@), segment@) is None,
        },
{
    let ghost all = members(ms@);
    let mut i: usize = 0;
    assert(all.skip(0) =~= all);
    while i < ms.len()
        invariant
            i <= ms@.len(),
            all == members(ms@),
            member_lower(all, segment@) == member_lower(all.skip(i as int), segment@),
        decreases ms@.len() - i,
    {
        assert(all.skip(i as int)[0] == all[i as int]);
        assert(all.skip(i as int).drop_first() =~= all.skip(i + 1));
        if same(lowercase(ms[i].0.as_str()).as_str(), segment) {
            return Some((&ms[i].0, &ms[i].1));
        }
        i = i + 1;
    }
    None
}

/// As [`lookup`], with the name as the row spells it. Paths are matched
/// lowercased, but anything shown wants the real spelling.
pub fn lookup_entry<'a>(doc: &'a Json, lower_path: &str) -> (r: Option<(String, &'a Json)>)
    ensures
        match r {
            Some((k, v)) => entry_at(doc@, lower_path@) == Some((k@, v@)),
            None => entry_at(doc@, lower_path@) is None,
        },
{
    if lower_path.is_empty() {
        return None;
    }
    let segments = split(lower_path, '.');
    let ghost sv = views(segments@);
    let mut name: String = String::new();
    assert(name@ =~= Seq::empty());
    let mut current: &'a Json = doc;
    let mut i: usize = 0;
    assert(sv.skip(0) =~= sv);
    while i < segments.len()
        invariant
            i <= segments@.len(),
            sv == views(segments@),
            sv == pieces(lower_path@, '.'),
            lower_path@.len() > 0,
            descend(Seq::empty(), doc@, sv) == descend(name@, current@, sv.skip(i as int)),
        decreases segments@.len() - i,
    {
        assert(sv.skip(i as int)[0] == segments@[i as int]@);
        assert(sv.skip(i as int).drop_first() =~= sv.skip(i + 1));
        match current {
            Json::Object(ms) => {
                proof {
                    object_model(*ms);
                }
                match find_lower(ms, segments[i].as_str()) {
                    Some((k, v)) => {
                        name = k.clone();
                        current = v;
                    },
                    None => {
                        return None;
                    },
                }
            },
            _ => {
                return None;
            },
        }
        i = i + 1;
    }
    assert(sv.skip(i as int) =~= Seq::empty());
    Some((name, current))
}

/// Case-insensitive lookup down a dotted path.
pub fn lookup<'a>(doc: &'a Json, lower_path: &str) -> (r: Option<&'a Json>)
    ensures
        match r {
            Some(v) => entry_at(doc@, lower_path@) matches Some((_, x)) && x == v@,
            None => entry_at(doc@, lower_path@) is None,
        },
{
    match lookup_entry(doc, lower_path) {
        Some((_, v)) => Some(v),
        None => None,
    }
}

pub fn scalar_text(v: &Json) -> (r: Option<String>)
    ensures
        match r {
            Some(s) => text_form(v@) == Some(s@),
            None => text_form(v@) is None,
        },
{
    match v {
        Json::Text(s) => if s.as_str().is_empty() {
            None
        } else {
            Some(s.clone())
        },
        Json::Number(n) => Some(n.text.clone()),
        Json::Bool(b) => Some(
            if *b {
                "true".to_owned()
            } else {
                "false".to_owned()
            },
        ),
        _ => None,
    }
}

fn text_at_path(doc: &Json, lower_path: &str) -> (r: Option<String>)
    ensures
        match r {
            Some(s) => text_under(doc@, lower_path@) == Some(s@),
            None => text_under(doc@, lower_path@) is None,
        },
{
    match lookup(doc, lower_path) {
        Some(v) => scalar_text(v),
        None => None,
    }
}

// ── Error rules ───────────────────────────────────────────────────────────

/// A column value that means "this step failed". What counts as an error is
/// supplied, never guessed.
#[derive(Debug, PartialEq)]
pub struct ErrorRule {
    /// Lowercased dotted column path.
    pub field: String,
    /// The column's own spelling.
    pub display: String,
    /// Compared as text, case-insensitively.
    pub value: String,
}

#[verifier::ext_equal]
pub ghost struct RuleV {
    pub field: Text,
    pub display: Text,
    pub value: Text,
}

impl View for ErrorRule {
    type V = RuleV;

    open spec fn view(&self) -> RuleV {
        RuleV { field: self.field@, display: self.display@, value: self.value@ }
    }
}

impl Clone for ErrorRule {
    fn clone(&self) -> (r: ErrorRule)
        ensures
            r@ == self@,
    {
        ErrorRule {
            field: self.field.clone(),
            display: self.display.clone(),
            value: self.value.clone(),
        }
    }
}

pub open spec fn rule_label(r: RuleV) -> Text {
    (if r.display.len() == 0 {
        pieces(r.field, '.').last()
    } else {
        r.display
    }) + " = "@ + r.value
}

impl ErrorRule {
    /// `ResultCode = 500`, for display.
    pub fn label(&self) -> (r: String)
        ensures
            r@ == rule_label(self@),
    {
        let name = if self.display.as_str().is_empty() {
            leaf(self.field.as_str())
        } else {
            self.display.clone()
        };
        cat3(name.as_str(), " = ", self.value.as_str())
    }
}

pub open spec fn matches_rule(doc: JsonV, rule: RuleV) -> bool {
    match text_under(doc, rule.field) {
        Some(t) => same_letters(t, rule.value),
        None => false,
    }
}

/// Any rule that matches makes a row an error.
pub open spec fn erroneous(doc: JsonV, rules: Seq<RuleV>) -> bool {
    exists|i: int| 0 <= i < rules.len() && matches_rule(doc, #[trigger] rules[i])
}

/// Whether any rule matches.
pub fn is_error(doc: &Json, rules: &Vec<ErrorRule>) -> (r: bool)
    ensures
        r == erroneous(doc@, views(rules@)),
{
    let ghost all = views(rules@);
    let mut i: usize = 0;
    while i < rules.len()
        invariant
            i <= rules@.len(),
            all == views(rules@),
            forall|k: int| 0 <= k < i ==> !matches_rule(doc@, #[trigger] all[k]),
        decreases rules@.len() - i,
    {
        assert(all[i as int] == rules@[i as int]@);
        if let Some(t) = text_at_path(doc, rules[i].field.as_str()) {
            if same_ignoring_case(t.as_str(), rules[i].value.as_str()) {
                return true;
            }
        }
        i = i + 1;
    }
    false
}

/// More rules never make a failed row succeed.
pub proof fn rules_only_add_errors(doc: JsonV, rules: Seq<RuleV>, more: Seq<RuleV>)
    requires
        erroneous(doc, rules),
    ensures
        erroneous(doc, rules + more),
{
    let i = choose|i: int| 0 <= i < rules.len() && matches_rule(doc, #[trigger] rules[i]);
    assert((rules + more)[i] == rules[i]);
}

// ── Queries ───────────────────────────────────────────────────────────────

/// How a column is compared against the searched value. A declared string
/// compares directly; anything else as text.
pub open spec fn predicate_text(field: Text, kind: Text, partial: bool) -> Text {
    (if kind == "string"@ {
        column_reference(field)
    } else {
        "tostring("@ + column_reference(field) + ")"@
    }) + if partial {
        " contains v"@
    } else {
        " == v"@
    }
}

pub fn predicate(field: &str, kind: &str, partial: bool) -> (r: String)
    ensures
        r@ == predicate_text(field@, kind@, partial),
{
    let column = column_ref(field);
    let comparable = if same(kind, "string") {
        column
    } else {
        cat3("tostring(", column.as_str(), ")")
    };
    if partial {
        cat2(comparable.as_str(), " contains v")
    } else {
        cat2(comparable.as_str(), " == v")
    }
}

pub open spec fn trace_branch(b: BindingV, partial: bool) -> Text {
    "    ("@ + quoted_name(b.table) + " | where "@ + predicate_text(b.field, b.kind, partial)
        + " | extend __ais_lane = "@ + literal(b.table) + ")"@
}

pub open spec fn trace_query_text(bound: Seq<BindingV>, value: Text, partial: bool) -> Text {
    let_statement("v"@, value) + "\nunion isfuzzy=true\n"@ + joined(
        bound.map_values(|b: BindingV| trace_branch(b, partial)),
        ",\n"@,
    ) + "\n| take "@ + digits(
        (MAX_BLOCKS * if bound.len() == 0 {
            1
        } else {
            bound.len() as int
        }) as nat,
    )
}

/// One union that covers every bound table, each branch filtering on its own
/// column and tagging its rows with the lane they belong to.
pub fn trace_query(bound: &Vec<Binding>, value: &str, partial: bool) -> (r: String)
    ensures
        r@ == trace_query_text(views(bound@), value@, partial),
{
    let ghost bv = views(bound@);
    let mut branches: Vec<String> = Vec::new();
    let mut i: usize = 0;
    while i < bound.len()
        invariant
            i <= bound@.len(),
            bv == views(bound@),
            branches@.len() == i,
            forall|k: int| 0 <= k < i ==> (#[trigger] branches@[k])@ == trace_branch(bv[k], partial),
        decreases bound@.len() - i,
    {
        let b = &bound[i];
        branches.push(
            cat7(
                "    (",
                table_ref(b.table.as_str()).as_str(),
                " | where ",
                predicate(b.field.as_str(), b.kind.as_str(), partial).as_str(),
                " | extend __ais_lane = ",
                kql_string(b.table.as_str()).as_str(),
                ")",
            ),
        );
        i = i + 1;
    }
    assert(views(branches@) =~= bv.map_values(|b: BindingV| trace_branch(b, partial)));
    let n: u128 = if bound.len() == 0 {
        1
    } else {
        bound.len() as u128
    };
    cat5(
        let_literal("v", value).as_str(),
        "\nunion isfuzzy=true\n",
        join(&branches, ",\n").as_str(),
        "\n| take ",
        decimal((MAX_BLOCKS as u128) * n).as_str(),
    )
}

pub open spec fn suggest_branch(b: BindingV) -> Text {
    "    ("@ + quoted_name(b.table) + " | where tostring("@ + column_reference(b.field)
        + ") contains v | project Value = tostring("@ + column_reference(b.field) + "))"@
}

pub open spec fn suggest_query_text(bound: Seq<BindingV>, fragment: Text) -> Text {
    let_statement("v"@, fragment) + "\nunion isfuzzy=true\n"@ + joined(
        bound.map_values(|b: BindingV| suggest_branch(b)),
        ",\n"@,
    ) + "\n| distinct Value\n| take 25"@
}

/// Asks for the distinct key values that contain a fragment: a handful of
/// strings rather than every matching row.
pub fn suggest_query(bound: &Vec<Binding>, fragment: &str) -> (r: String)
    ensures
        r@ == suggest_query_text(views(bound@), fragment@),
{
    let ghost bv = views(bound@);
    let mut branches: Vec<String> = Vec::new();
    let mut i: usize = 0;
    while i < bound.len()
        invariant
            i <= bound@.len(),
            bv == views(bound@),
            branches@.len() == i,
            forall|k: int| 0 <= k < i ==> (#[trigger] branches@[k])@ == suggest_branch(bv[k]),
        decreases bound@.len() - i,
    {
        let b = &bound[i];
        let column = column_ref(b.field.as_str());
        branches.push(
            cat7(
                "    (",
                table_ref(b.table.as_str()).as_str(),
                " | where tostring(",
                column.as_str(),
                ") contains v | project Value = tostring(",
                column.as_str(),
                "))",
            ),
        );
        i = i + 1;
    }
    assert(views(branches@) =~= bv.map_values(|b: BindingV| suggest_branch(b)));
    let body = join(&branches, ",\n");
    cat2(
        cat3(let_literal("v", fragment).as_str(), "\nunion isfuzzy=true\n", body.as_str()).as_str(),
        "\n| distinct Value\n| take 25",
    )
}

/// The bindings of the tables that carry the key, in order.
pub open spec fn bound_in(tables: Seq<Text>, bindings: Seq<BindingV>) -> Seq<BindingV>
    decreases tables.len(),
{
    if tables.len() == 0 {
        Seq::empty()
    } else {
        let before = bound_in(tables.drop_last(), bindings);
        match binding_in(bindings, tables.last()) {
            Some(b) => before.push(b),
            None => before,
        }
    }
}

/// The tables that do not carry the key, in order.
pub open spec fn off_path(tables: Seq<Text>, bindings: Seq<BindingV>) -> Seq<Text>
    decreases tables.len(),
{
    if tables.len() == 0 {
        Seq::empty()
    } else {
        let before = off_path(tables.drop_last(), bindings);
        match binding_in(bindings, tables.last()) {
            Some(_) => before,
            None => before.push(tables.last()),
        }
    }
}

/// The bindings of the tables that carry the key.
pub fn bound_bindings(tables: &Vec<String>, key: &KeyCandidate) -> (r: Vec<Binding>)
    ensures
        views(r@) == bound_in(views(tables@), key@.bindings),
{
    let ghost tv = views(tables@);
    let mut out: Vec<Binding> = Vec::new();
    let mut i: usize = 0;
    assert(tv.take(0) =~= Seq::empty());
    assert(views(out@) =~= Seq::<BindingV>::empty());
    while i < tables.len()
        invariant
            i <= tables@.len(),
            tv == views(tables@),
            views(out@) == bound_in(tv.take(i as int), key@.bindings),
        decreases tables@.len() - i,
    {
        assert(tv.take(i + 1).drop_last() =~= tv.take(i as int));
        assert(tv.take(i + 1).last() == tables@[i as int]@);
        if let Some(b) = key.binding_for(tables[i].as_str()) {
            let ghost before = views(out@);
            let ghost bv = b@;
            out.push(b.clone());
            assert(views(out@) =~= before.push(bv));
        }
        i = i + 1;
    }
    assert(tv.take(i as int) =~= tv);
    out
}

/// A batch of bindings.
fn part_of(bound: &Vec<Binding>, from: usize, to: usize) -> (r: Vec<Binding>)
    requires
        from <= to <= bound@.len(),
    ensures
        views(r@) == views(bound@).subrange(from as int, to as int),
{
    let ghost bv = views(bound@);
    let mut part: Vec<Binding> = Vec::new();
    let mut i: usize = from;
    while i < to
        invariant
            from <= i <= to <= bound@.len(),
            bv == views(bound@),
            part@.len() == i - from,
            forall|j: int| 0 <= j < part@.len() ==> (#[trigger] part@[j])@ == bv[from + j],
        decreases to - i,
    {
        part.push(bound[i].clone());
        i = i + 1;
    }
    assert(views(part@) =~= bv.subrange(from as int, to as int));
    part
}

/// What to trace, and how to read each row once found.
#[derive(Debug, PartialEq)]
pub struct TraceSpec {
    pub key: KeyCandidate,
    pub value: String,
    /// Lowercased column paths; empty means "not chosen".
    pub time_field: String,
    pub label_field: String,
    /// Columns worth showing on a card, best first.
    pub fact_fields: Vec<String>,
    pub range: TimeRange,
}

#[verifier::ext_equal]
pub ghost struct SpecV {
    pub key: KeyV,
    pub value: Text,
    pub time_field: Text,
    pub label_field: Text,
    pub fact_fields: Seq<Text>,
    pub range: TimeRange,
}

impl View for TraceSpec {
    type V = SpecV;

    open spec fn view(&self) -> SpecV {
        SpecV {
            key: self.key@,
            value: self.value@,
            time_field: self.time_field@,
            label_field: self.label_field@,
            fact_fields: views(self.fact_fields@),
            range: self.range,
        }
    }
}

/// The queries of a trace, one per batch of the tables that carry the key.
pub fn trace_queries(tables: &Vec<String>, spec_: &TraceSpec, partial: bool) -> (r: Vec<String>)
    ensures
        r@.len() == batch_count(bound_in(views(tables@), spec_@.key.bindings).len() as int),
        forall|k: int|
            0 <= k < r@.len() ==> (#[trigger] r@[k])@ == trace_query_text(
                batch(bound_in(views(tables@), spec_@.key.bindings), k),
                spec_@.value,
                partial,
            ),
{
    let bound = bound_bindings(tables, &spec_.key);
    let ghost bv = views(bound@);
    let total: usize = count_batches(bound.len());
    let mut out: Vec<String> = Vec::new();
    let mut k: usize = 0;
    assert(bv.len() == bound@.len());
    while k < total
        invariant
            k <= total,
            bv == views(bound@),
            bv.len() == bound@.len(),
            total == batch_count(bound@.len() as int),
            out@.len() == k,
            forall|j: int|
                0 <= j < k ==> (#[trigger] out@[j])@ == trace_query_text(
                    batch(bv, j),
                    spec_@.value,
                    partial,
                ),
        decreases total - k,
    {
        let (from, to) = batch_bounds(bound.len(), k);
        let part = part_of(&bound, from, to);
        assert(views(part@) == batch(bv, k as int));
        out.push(trace_query(&part, spec_.value.as_str(), partial));
        k = k + 1;
    }
    out
}

// ── Type-ahead ────────────────────────────────────────────────────────────

/// Whether a fragment is worth asking about.
pub open spec fn long_enough(fragment: Text) -> bool {
    byte_len(trimmed(fragment)) >= MIN_FRAGMENT
}

/// The queries of a type-ahead: none when the fragment is too short, or when
/// no table carries the key.
pub fn suggest_queries(tables: &Vec<String>, key: &KeyCandidate, fragment: &str) -> (r: Vec<String>)
    ensures
        !long_enough(fragment@) ==> r@.len() == 0,
        long_enough(fragment@) ==> r@.len() == batch_count(
            bound_in(views(tables@), key@.bindings).len() as int,
        ),
        forall|k: int|
            0 <= k < r@.len() ==> (#[trigger] r@[k])@ == suggest_query_text(
                batch(bound_in(views(tables@), key@.bindings), k),
                trimmed(fragment@),
            ),
{
    let mut out: Vec<String> = Vec::new();
    let fragment = trim(fragment);
    if bytes_in(fragment.as_str()) < MIN_FRAGMENT as u128 {
        return out;
    }
    let bound = bound_bindings(tables, key);
    let ghost bv = views(bound@);
    let total: usize = count_batches(bound.len());
    let mut k: usize = 0;
    assert(bv.len() == bound@.len());
    while k < total
        invariant
            k <= total,
            bv == views(bound@),
            bv.len() == bound@.len(),
            total == batch_count(bound@.len() as int),
            out@.len() == k,
            forall|j: int|
                0 <= j < k ==> (#[trigger] out@[j])@ == suggest_query_text(
                    batch(bv, j),
                    fragment@,
                ),
        decreases total - k,
    {
        let (from, to) = batch_bounds(bound.len(), k);
        let part = part_of(&bound, from, to);
        assert(views(part@) == batch(bv, k as int));
        out.push(suggest_query(&part, fragment.as_str()));
        k = k + 1;
    }
    out
}

/// The values that the rows of an answer suggest, in order.
pub open spec fn suggested(rows: Seq<JsonV>) -> Seq<Text>
    decreases rows.len(),
{
    if rows.len() == 0 {
        Seq::empty()
    } else {
        let before = suggested(rows.drop_last());
        match rows.last().text_at("Value"@) {
            Some(t) => before.push(t),
            None => before,
        }
    }
}

pub open spec fn with_texts(set: Seq<Text>, more: Seq<Text>) -> Seq<Text>
    decreases more.len(),
{
    if more.len() == 0 {
        set
    } else {
        with_text(with_texts(set, more.drop_last()), more.last())
    }
}

/// What is found after one more answer. An answer that failed adds nothing.
pub open spec fn suggestions_after(found: Seq<Text>, answer: Result<Seq<JsonV>, Text>) -> Seq<Text> {
    match answer {
        Ok(rows) => with_texts(found, suggested(rows)),
        Err(_) => found,
    }
}

/// Takes in an answer; false when enough was found and no more need be
/// asked.
pub fn absorb_suggestions(found: &mut TextSet, answer: &Result<Vec<Json>, String>) -> (more: bool)
    ensures
        final(found)@ == suggestions_after(
            old(found)@,
            match answer {
                Ok(v) => Ok(views(v@)),
                Err(e) => Err(e@),
            },
        ),
        more == (final(found)@.len() < MAX_SUGGESTIONS),
        more <==> final(found)@.len() < 25,
{
    if let Ok(rows) = answer {
        let ghost rv = views(rows@);
        let ghost start = found@;
        let mut i: usize = 0;
        assert(rv.take(0) =~= Seq::empty());
        while i < rows.len()
            invariant
                i <= rows@.len(),
                rv == views(rows@),
                found@ == with_texts(start, suggested(rv.take(i as int))),
            decreases rows@.len() - i,
        {
            assert(rv.take(i + 1).drop_last() =~= rv.take(i as int));
            assert(rv.take(i + 1).last() == rows@[i as int]@);
            if let Some(t) = rows[i].text_at("Value") {
                let ghost before = suggested(rv.take(i as int));
                found.insert(t.clone());
                assert(before.push(t@).drop_last() =~= before);
            }
            i = i + 1;
        }
        assert(rv.take(i as int) =~= rv);
    }
    found.len() < MAX_SUGGESTIONS
}

/// The first of what was found, ascending.
pub fn finish_suggestions(found: &TextSet) -> (r: Vec<String>)
    ensures
        views(r@) == if found@.len() <= MAX_SUGGESTIONS {
            found@
        } else {
            found@.take(MAX_SUGGESTIONS as int)
        },
        r@.len() <= 25,
        r@.len() < 25 ==> views(r@) == found@,
{
    let items = found.items();
    let ghost fv = found@;
    let mut out: Vec<String> = Vec::new();
    let mut i: usize = 0;
    assert(fv.len() == items@.len());
    while i < items.len() && i < MAX_SUGGESTIONS
        invariant
            i <= items@.len(),
            i <= MAX_SUGGESTIONS,
            fv == views(items@),
            out@.len() == i,
            forall|k: int| 0 <= k < i ==> (#[trigger] out@[k])@ == fv[k],
        decreases items@.len() - i,
    {
        out.push(items[i].clone());
        i = i + 1;
    }
    assert(views(out@) =~= if fv.len() <= MAX_SUGGESTIONS {
        fv
    } else {
        fv.take(MAX_SUGGESTIONS as int)
    });
    out
}

// ── Blocks ────────────────────────────────────────────────────────────────

/// A row, as a card shows it.
#[derive(Debug, PartialEq)]
pub struct Block {
    /// Stable across the sort, so that a selected card stays selected.
    pub id: String,
    pub label: String,
    /// Epoch milliseconds, when a usable time was found.
    pub at: Option<i64>,
    pub at_text: String,
    pub facts: Vec<(String, String)>,
    /// Where the row lives.
    pub table: String,
    /// The correlation value that the row carries.
    pub key_value: String,
    /// The row as returned.
    pub doc: Json,
}

#[verifier::ext_equal]
pub ghost struct BlockV {
    pub id: Text,
    pub label: Text,
    pub at: Option<i64>,
    pub at_text: Text,
    pub facts: Seq<(Text, Text)>,
    pub table: Text,
    pub key_value: Text,
    pub doc: JsonV,
}

pub open spec fn pairs(v: Seq<(String, String)>) -> Seq<(Text, Text)> {
    Seq::new(v.len(), |i: int| (v[i].0@, v[i].1@))
}

impl View for Block {
    type V = BlockV;

    open spec fn view(&self) -> BlockV {
        BlockV {
            id: self.id@,
            label: self.label@,
            at: self.at,
            at_text: self.at_text@,
            facts: pairs(self.facts@),
            table: self.table@,
            key_value: self.key_value@,
            doc: self.doc@,
        }
    }
}

impl Clone for Block {
    fn clone(&self) -> (r: Block)
        ensures
            r@ == self@,
    {
        let mut facts: Vec<(String, String)> = Vec::new();
        let mut i: usize = 0;
        while i < self.facts.len()
            invariant
                i <= self.facts@.len(),
                facts@.len() == i,
                forall|k: int| 0 <= k < i ==> (#[trigger] facts@[k]).0@ == self.facts@[k].0@,
                forall|k: int| 0 <= k < i ==> (#[trigger] facts@[k]).1@ == self.facts@[k].1@,
            decreases self.facts@.len() - i,
        {
            facts.push((self.facts[i].0.clone(), self.facts[i].1.clone()));
            i = i + 1;
        }
        assert(pairs(facts@) =~= pairs(self.facts@));
        Block {
            id: self.id.clone(),
            label: self.label.clone(),
            at: self.at,
            at_text: self.at_text.clone(),
            facts,
            table: self.table.clone(),
            key_value: self.key_value.clone(),
            doc: self.doc.copy(),
        }
    }
}

/// At most `max` characters, the last an ellipsis where some were cut.
pub open spec fn truncated(s: Text, max: int) -> Text {
    if s.len() <= max {
        s
    } else {
        s.take(if max > 0 {
            max - 1
        } else {
            0
        }) + "…"@
    }
}

pub fn truncate(s: &str, max: usize) -> (r: String)
    ensures
        r@ == truncated(s@, max as int),
{
    let chars = chars_of(s);
    if chars.len() <= max {
        return s.to_owned();
    }
    let keep: usize = if max > 0 {
        max - 1
    } else {
        0
    };
    let head = piece(&chars, 0, keep);
    assert(chars@.subrange(0, keep as int) =~= chars@.take(keep as int));
    cat2(head.as_str(), "…")
}

/// Facts so far, and the paths that need no card of their own any more.
pub ghost struct FactsV {
    pub facts: Seq<(Text, Text)>,
    pub taken: Seq<Text>,
}

/// After the chosen columns: each shown as the workspace spells it, its
/// value shortened.
pub open spec fn chosen_facts(doc: JsonV, start: Seq<Text>, paths: Seq<Text>) -> FactsV
    decreases paths.len(),
{
    if paths.len() == 0 {
        FactsV { facts: Seq::empty(), taken: start }
    } else {
        let before = chosen_facts(doc, start, paths.drop_last());
        let path = paths.last();
        if before.facts.len() >= MAX_FACTS || before.taken.contains(path) {
            before
        } else {
            match entry_at(doc, path) {
                Some((name, v)) => match text_form(v) {
                    Some(t) => FactsV {
                        facts: before.facts.push((name, truncated(t, FACT_WIDTH as int))),
                        taken: before.taken.push(path),
                    },
                    None => before,
                },
                None => before,
            }
        }
    }
}

/// Whether a member can fill a card: short, and said nowhere else on it.
pub open spec fn fills(m: (Text, JsonV), taken: Seq<Text>) -> bool {
    &&& m.0 != "__ais_lane"@
    &&& !system_column(m.0)
    &&& !taken.contains(lowered(m.0))
    &&& text_form(m.1) matches Some(t) && byte_len(t) <= FACT_WIDTH
}

/// After whatever short scalars the row has, so that a card is not blank.
pub open spec fn filled_facts(
    facts: Seq<(Text, Text)>,
    ms: Seq<(Text, JsonV)>,
    taken: Seq<Text>,
) -> Seq<(Text, Text)>
    decreases ms.len(),
{
    if ms.len() == 0 {
        facts
    } else {
        let before = filled_facts(facts, ms.drop_last(), taken);
        let m = ms.last();
        if before.len() < MAX_FACTS && fills(m, taken) {
            before.push((m.0, text_form(m.1)->0))
        } else {
            before
        }
    }
}

pub open spec fn block_facts(doc: JsonV, spec_: SpecV, key_field: Text) -> Seq<(Text, Text)> {
    let start = seq![
        lowered(key_field),
        spec_.time_field,
        spec_.label_field,
        lowered("__ais_lane"@),
    ];
    let c = chosen_facts(doc, start, spec_.fact_fields);
    match doc {
        JsonV::Object(ms) => if c.facts.len() < MAX_FACTS {
            filled_facts(c.facts, ms, c.taken)
        } else {
            c.facts
        },
        _ => c.facts,
    }
}

pub open spec fn block_at(doc: JsonV, time_field: Text) -> Option<i64> {
    if time_field.len() == 0 {
        None
    } else {
        match entry_at(doc, time_field) {
            Some((_, v)) => time_of(v),
            None => None,
        }
    }
}

/// The card that a row makes.
pub open spec fn block_of(
    doc: JsonV,
    spec_: SpecV,
    table: Text,
    key_field: Text,
    id: Text,
) -> BlockV {
    let at = block_at(doc, spec_.time_field);
    BlockV {
        id,
        label: match text_under(doc, spec_.label_field) {
            Some(t) => t,
            None => table,
        },
        at,
        at_text: match at {
            Some(t) => shown_time(t),
            None => Seq::empty(),
        },
        facts: block_facts(doc, spec_, key_field),
        table,
        key_value: match text_under(doc, lowered(key_field)) {
            Some(t) => t,
            None => Seq::empty(),
        },
        doc,
    }
}

fn empty_text() -> (r: String)
    ensures
        r@ == Seq::<char>::empty(),
{
    let r: String = String::new();
    assert(r@ =~= Seq::empty());
    r
}

fn gather_facts(doc: &Json, spec_: &TraceSpec, key_field: &str) -> (r: Vec<(String, String)>)
    ensures
        pairs(r@) == block_facts(doc@, spec_@, key_field@),
{
    let mut facts: Vec<(String, String)> = Vec::new();
    let mut taken: Vec<String> = Vec::new();
    taken.push(lowercase(key_field));
    taken.push(spec_.time_field.clone());
    taken.push(spec_.label_field.clone());
    taken.push(lowercase("__ais_lane"));
    let ghost start = seq![
        lowered(key_field@),
        spec_@.time_field,
        spec_@.label_field,
        lowered("__ais_lane"@),
    ];
    assert(views(taken@) =~= start);
    let ghost paths = views(spec_.fact_fields@);
    let mut i: usize = 0;
    assert(paths.take(0) =~= Seq::empty());
    assert(pairs(facts@) =~= Seq::empty());
    while i < spec_.fact_fields.len()
        invariant
            i <= spec_.fact_fields@.len(),
            paths == views(spec_.fact_fields@),
            pairs(facts@) == chosen_facts(doc@, start, paths.take(i as int)).facts,
            views(taken@) == chosen_facts(doc@, start, paths.take(i as int)).taken,
        decreases spec_.fact_fields@.len() - i,
    {
        let path = &spec_.fact_fields[i];
        assert(paths.take(i + 1).drop_last() =~= paths.take(i as int));
        assert(paths.take(i + 1).last() == path@);
        assert(pairs(facts@).len() == facts@.len());
        if facts.len() < MAX_FACTS && !listed(&taken, path.as_str()) {
            if let Some((name, v)) = lookup_entry(doc, path.as_str()) {
                if let Some(t) = scalar_text(v) {
                    let ghost before = pairs(facts@);
                    let ghost before_taken = views(taken@);
                    let shown = truncate(t.as_str(), FACT_WIDTH);
                    let ghost pair = (name@, shown@);
                    facts.push((name, shown));
                    taken.push(path.clone());
                    assert(pairs(facts@) =~= before.push(pair));
                    assert(views(taken@) =~= before_taken.push(path@));
                }
            }
        }
        i = i + 1;
    }
    assert(paths.take(i as int) =~= paths);
    assert(pairs(facts@).len() == facts@.len());
    if facts.len() < MAX_FACTS {
        if let Json::Object(map) = doc {
            proof {
                object_model(*map);
            }
            let ghost ms = members(map@);
            let ghost first = pairs(facts@);
            let ghost tk = views(taken@);
            let mut j: usize = 0;
            assert(ms.take(0) =~= Seq::empty());
            while j < map.len()
                invariant
                    j <= map@.len(),
                    ms == members(map@),
                    tk == views(taken@),
                    pairs(facts@) == filled_facts(first, ms.take(j as int), tk),
                decreases map@.len() - j,
            {
                assert(ms.take(j + 1).drop_last() =~= ms.take(j as int));
                assert(ms.take(j + 1).last() == ms[j as int]);
                assert(pairs(facts@).len() == facts@.len());
                let name = &map[j].0;
                if facts.len() < MAX_FACTS && !same(name.as_str(), "__ais_lane") && !is_system(
                    name.as_str(),
                ) && !listed(&taken, lowercase(name.as_str()).as_str()) {
                    if let Some(t) = scalar_text(&map[j].1) {
                        if bytes_in(t.as_str()) <= FACT_WIDTH as u128 {
                            let ghost before = pairs(facts@);
                            let ghost pair = (name@, t@);
                            facts.push((name.clone(), t));
                            assert(pairs(facts@) =~= before.push(pair));
                        }
                    }
                }
                j = j + 1;
            }
            assert(ms.take(j as int) =~= ms);
        }
    }
    facts
}

/// The card that a row makes.
pub fn build_block(doc: &Json, spec_: &TraceSpec, table: &str, key_field: &str, id: &str) -> (r:
    Block)
    ensures
        r@ == block_of(doc@, spec_@, table@, key_field@, id@),
{
    let at: Option<i64> = if spec_.time_field.as_str().is_empty() {
        None
    } else {
        match lookup(doc, spec_.time_field.as_str()) {
            Some(v) => parse_time(v),
            None => None,
        }
    };
    let label = match text_at_path(doc, spec_.label_field.as_str()) {
        Some(t) => t,
        None => table.to_owned(),
    };
    let key_value = match text_at_path(doc, lowercase(key_field).as_str()) {
        Some(t) => t,
        None => empty_text(),
    };
    let at_text = match at {
        Some(t) => format_time(t),
        None => empty_text(),
    };
    Block {
        id: id.to_owned(),
        label,
        at,
        at_text,
        facts: gather_facts(doc, spec_, key_field),
        table: table.to_owned(),
        key_value,
        doc: doc.copy(),
    }
}

proof fn chosen_facts_few(doc: JsonV, start: Seq<Text>, paths: Seq<Text>)
    ensures
        chosen_facts(doc, start, paths).facts.len() <= MAX_FACTS,
        forall|t: Text| #[trigger]
            start.contains(t) ==> chosen_facts(doc, start, paths).taken.contains(t),
    decreases paths.len(),
{
    if paths.len() > 0 {
        chosen_facts_few(doc, start, paths.drop_last());
        let before = chosen_facts(doc, start, paths.drop_last()).taken;
        let after = chosen_facts(doc, start, paths).taken;
        assert forall|t: Text| #[trigger] start.contains(t) implies after.contains(t) by {
            assert(before.contains(t));
            let k = choose|k: int| 0 <= k < before.len() && before[k] == t;
            assert(after[k] == t);
        }
    }
}

proof fn filled_facts_few(facts: Seq<(Text, Text)>, ms: Seq<(Text, JsonV)>, taken: Seq<Text>)
    requires
        facts.len() <= MAX_FACTS,
    ensures
        facts.len() <= filled_facts(facts, ms, taken).len() <= MAX_FACTS,
        filled_facts(facts, ms, taken).take(facts.len() as int) == facts,
        forall|i: int|
            facts.len() <= i < filled_facts(facts, ms, taken).len() ==> {
                let name = (#[trigger] filled_facts(facts, ms, taken)[i]).0;
                !system_column(name) && name != "__ais_lane"@ && !taken.contains(lowered(name))
            },
    decreases ms.len(),
{
    if ms.len() > 0 {
        filled_facts_few(facts, ms.drop_last(), taken);
        let before = filled_facts(facts, ms.drop_last(), taken);
        let after = filled_facts(facts, ms, taken);
        assert(after.take(facts.len() as int) =~= before.take(facts.len() as int));
        assert forall|i: int| facts.len() <= i < after.len() implies {
            let name = (#[trigger] after[i]).0;
            !system_column(name) && name != "__ais_lane"@ && !taken.contains(lowered(name))
        } by {
            if i < before.len() {
                assert(after[i] == before[i]);
            }
        }
    } else {
        assert(facts.take(facts.len() as int) =~= facts);
    }
}

/// A card shows at most [`MAX_FACTS`] facts, the chosen ones first; one that
/// was not chosen is never an injected column, and never the key, the time
/// or the label, which the card already shows.
pub proof fn facts_are_few_and_own(doc: JsonV, spec_: SpecV, key_field: Text)
    ensures
        block_facts(doc, spec_, key_field).len() <= MAX_FACTS,
        forall|i: int|
            chosen_facts(
                doc,
                seq![
                    lowered(key_field),
                    spec_.time_field,
                    spec_.label_field,
                    lowered("__ais_lane"@),
                ],
                spec_.fact_fields,
            ).facts.len() <= i < block_facts(doc, spec_, key_field).len() ==> {
                let name = (#[trigger] block_facts(doc, spec_, key_field)[i]).0;
                !system_column(name) && name != "__ais_lane"@ && lowered(name) != lowered(key_field)
                    && lowered(name) != spec_.time_field && lowered(name) != spec_.label_field
            },
{
    let start = seq![
        lowered(key_field),
        spec_.time_field,
        spec_.label_field,
        lowered("__ais_lane"@),
    ];
    let c = chosen_facts(doc, start, spec_.fact_fields);
    chosen_facts_few(doc, start, spec_.fact_fields);
    assert(start[0] == lowered(key_field) && start[1] == spec_.time_field && start[2]
        == spec_.label_field);
    assert(start.contains(lowered(key_field)) && start.contains(spec_.time_field)
        && start.contains(spec_.label_field));
    if doc is Object && c.facts.len() < MAX_FACTS {
        filled_facts_few(c.facts, doc->Object_0, c.taken);
        let all = block_facts(doc, spec_, key_field);
        assert forall|i: int| c.facts.len() <= i < all.len() implies {
            let name = (#[trigger] all[i]).0;
            !system_column(name) && name != "__ais_lane"@ && lowered(name) != lowered(key_field)
                && lowered(name) != spec_.time_field && lowered(name) != spec_.label_field
        } by {
            assert(!c.taken.contains(lowered(all[i].0)));
            assert(c.taken.contains(lowered(key_field)));
            assert(c.taken.contains(spec_.time_field));
            assert(c.taken.contains(spec_.label_field));
        }
    }
}

// ── What holds of a card ──────────────────────────────────────────────────

/// Going down one segment reaches the first member whose name lowercases to
/// it, under the name that the row spells; and nothing where there is none.
pub proof fn paths_go_down_one_name_at_a_time(
    name: Text,
    ms: Seq<(Text, JsonV)>,
    segments: Seq<Text>,
    i: int,
)
    requires
        segments.len() > 0,
        0 <= i <= ms.len(),
        forall|j: int| 0 <= j < i ==> lowered((#[trigger] ms[j]).0) != segments[0],
    ensures
        i < ms.len() && lowered(ms[i].0) == segments[0] ==> descend(
            name,
            JsonV::Object(ms),
            segments,
        ) == descend(ms[i].0, ms[i].1, segments.drop_first()),
        i == ms.len() ==> descend(name, JsonV::Object(ms), segments) is None,
        descend(name, JsonV::Object(ms), Seq::empty()) == Some((name, JsonV::Object(ms))),
{
    first_member_lower(ms, segments[0], i);
}

proof fn first_member_lower(ms: Seq<(Text, JsonV)>, segment: Text, i: int)
    requires
        0 <= i <= ms.len(),
        forall|j: int| 0 <= j < i ==> lowered((#[trigger] ms[j]).0) != segment,
    ensures
        i < ms.len() && lowered(ms[i].0) == segment ==> member_lower(ms, segment) == Some(ms[i]),
        i == ms.len() ==> member_lower(ms, segment) is None,
    decreases i,
{
    if i > 0 {
        let rest = ms.drop_first();
        assert(lowered(ms[0].0) != segment);
        assert forall|j: int| 0 <= j < i - 1 implies lowered((#[trigger] rest[j]).0)
            != segment by {
            assert(rest[j] == ms[j + 1]);
        }
        first_member_lower(rest, segment, i - 1);
    }
}

/// A scalar says what it holds; an empty text, null, a list and an object
/// say nothing.
pub proof fn scalars_say_what_they_hold(v: JsonV, t: Text, n: NumberV)
    ensures
        v == JsonV::Text(t) && t.len() > 0 ==> text_form(v) == Some(t),
        v == JsonV::Text(t) && t.len() == 0 ==> text_form(v) is None,
        v == JsonV::Number(n) ==> text_form(v) == Some(n.text),
        v == JsonV::Bool(true) ==> text_form(v) == Some("true"@),
        v == JsonV::Bool(false) ==> text_form(v) == Some("false"@),
        v is Null || v is Array || v is Object ==> text_form(v) is None,
{
}

/// A row is an error exactly when it holds, under the field of some rule, a
/// scalar that is the rule's value but for the case of letters.
pub proof fn errors_match_a_rule(doc: JsonV, rules: Seq<RuleV>)
    ensures
        erroneous(doc, rules) <==> exists|i: int|
            0 <= i < rules.len() && text_under(doc, (#[trigger] rules[i]).field) is Some
                && ascii_lowered(text_under(doc, rules[i].field)->0) == ascii_lowered(
                rules[i].value,
            ),
{
    if erroneous(doc, rules) {
        let i = choose|i: int| 0 <= i < rules.len() && matches_rule(doc, #[trigger] rules[i]);
        assert(text_under(doc, rules[i].field) is Some);
    }
    if exists|i: int|
        0 <= i < rules.len() && text_under(doc, (#[trigger] rules[i]).field) is Some
            && ascii_lowered(text_under(doc, rules[i].field)->0) == ascii_lowered(rules[i].value) {
        let i = choose|i: int|
            0 <= i < rules.len() && text_under(doc, (#[trigger] rules[i]).field) is Some
                && ascii_lowered(text_under(doc, rules[i].field)->0) == ascii_lowered(
                rules[i].value,
            );
        assert(matches_rule(doc, rules[i]));
    }
}

/// A card carries the row it was made of, the table and the id that it was
/// given, what the row holds under the label, the key and the time, and the
/// table's name where there is no label.
pub proof fn cards_are_read_off_their_row(
    doc: JsonV,
    spec_: SpecV,
    table: Text,
    key_field: Text,
    id: Text,
    name: Text,
    v: JsonV,
)
    ensures
        ({
            let b = block_of(doc, spec_, table, key_field, id);
            &&& b.doc == doc && b.table == table && b.id == id
            &&& entry_at(doc, spec_.label_field) == Some((name, v)) && text_form(v) is Some
                ==> b.label == text_form(v)->0
            &&& entry_at(doc, spec_.label_field) is None ==> b.label == table
            &&& entry_at(doc, spec_.label_field) == Some((name, v)) && text_form(v) is None
                ==> b.label == table
            &&& entry_at(doc, lowered(key_field)) == Some((name, v)) && text_form(v) is Some
                ==> b.key_value == text_form(v)->0
            &&& entry_at(doc, lowered(key_field)) is None ==> b.key_value.len() == 0
            &&& spec_.time_field.len() > 0 && entry_at(doc, spec_.time_field) == Some((name, v))
                ==> b.at == time_of(v)
            &&& entry_at(doc, spec_.time_field) is None ==> b.at is None
            &&& b.at is None ==> b.at_text.len() == 0
            &&& b.at matches Some(t) ==> b.at_text == shown_time(t)
        }),
{
}

/// A text that fits is kept whole. Of one that does not, all characters but
/// the last are kept that fit, and an ellipsis ends it.
pub proof fn shortened_texts_fit(s: Text, max: int)
    requires
        max > 0,
    ensures
        truncated(s, max).len() <= max,
        s.len() <= max ==> truncated(s, max) == s,
        s.len() > max ==> truncated(s, max).len() == max && truncated(s, max).last() == '…',
        forall|i: int|
            0 <= i < max - 1 && i < s.len() ==> (#[trigger] truncated(s, max)[i]) == s[i],
{
    reveal_strlit("…");
}

proof fn filled_is_filtered(facts: Seq<(Text, Text)>, ms: Seq<(Text, JsonV)>, taken: Seq<Text>)
    requires
        facts.len() <= 3,
    ensures
        ({
            let all = facts + ms.filter(|m: (Text, JsonV)| fills(m, taken)).map_values(
                |m: (Text, JsonV)| (m.0, text_form(m.1)->0),
            );
            filled_facts(facts, ms, taken) == all.take(
                if all.len() < 3 {
                    all.len() as int
                } else {
                    3
                },
            )
        }),
    decreases ms.len(),
{
    reveal(Seq::filter);
    let p = |m: (Text, JsonV)| fills(m, taken);
    let f = |m: (Text, JsonV)| (m.0, text_form(m.1)->0);
    let all = facts + ms.filter(p).map_values(f);
    if ms.len() > 0 {
        filled_is_filtered(facts, ms.drop_last(), taken);
        let part = ms.drop_last().filter(p);
        let short = facts + part.map_values(f);
        if p(ms.last()) {
            assert(part.push(ms.last()).map_values(f) =~= part.map_values(f).push(f(ms.last())));
            assert(all =~= short.push(f(ms.last())));
            if short.len() < 3 {
                assert(filled_facts(facts, ms, taken) =~= all.take(all.len() as int));
            } else {
                assert(all.take(3) =~= short.take(3));
            }
        }
    } else {
        assert(ms.filter(p).map_values(f) =~= Seq::empty());
        assert(all =~= facts);
        assert(all.take(all.len() as int) =~= facts);
    }
}

proof fn chosen_is_filtered(doc: JsonV, start: Seq<Text>, paths: Seq<Text>)
    requires
        paths.no_duplicates(),
        forall|i: int| 0 <= i < paths.len() ==> !start.contains(#[trigger] paths[i]),
    ensures
        ({
            let all = paths.filter(|p: Text| text_under(doc, p) is Some).map_values(
                |p: Text| ((entry_at(doc, p)->0).0, truncated(text_under(doc, p)->0, 28)),
            );
            chosen_facts(doc, start, paths).facts == all.take(
                if all.len() < 3 {
                    all.len() as int
                } else {
                    3
                },
            )
        }),
        forall|t: Text| #[trigger]
            chosen_facts(doc, start, paths).taken.contains(t) ==> start.contains(t)
                || paths.contains(t),
    decreases paths.len(),
{
    reveal(Seq::filter);
    let q = |p: Text| text_under(doc, p) is Some;
    let f = |p: Text| ((entry_at(doc, p)->0).0, truncated(text_under(doc, p)->0, 28));
    let all = paths.filter(q).map_values(f);
    if paths.len() > 0 {
        let short = paths.drop_last();
        assert forall|i: int| 0 <= i < short.len() implies !start.contains(
            #[trigger] short[i],
        ) by {
            assert(short[i] == paths[i]);
        }
        chosen_is_filtered(doc, start, short);
        let before = chosen_facts(doc, start, short);
        let now = chosen_facts(doc, start, paths);
        let path = paths.last();
        assert(paths[paths.len() - 1] == path);
        assert(!before.taken.contains(path)) by {
            if short.contains(path) {
                let k = choose|k: int| 0 <= k < short.len() && short[k] == path;
                assert(paths[k] == paths[paths.len() - 1]);
            }
        }
        assert forall|t: Text| #[trigger] now.taken.contains(t) implies start.contains(t)
            || paths.contains(t) by {
            if before.taken.contains(t) {
                if short.contains(t) {
                    let k = choose|k: int| 0 <= k < short.len() && short[k] == t;
                    assert(paths[k] == t);
                }
            } else {
                let k = choose|k: int| 0 <= k < now.taken.len() && now.taken[k] == t;
                assert(k < before.taken.len() ==> before.taken[k] == t);
                assert(t == path);
            }
        }
        let part = short.filter(q);
        if q(path) {
            assert(part.push(path).map_values(f) =~= part.map_values(f).push(f(path)));
            if part.len() < 3 {
                assert(part.map_values(f).take(part.len() as int) =~= part.map_values(f));
                assert(all.take(all.len() as int) =~= all);
            } else {
                assert(all.take(3) =~= part.map_values(f).take(3));
            }
        }
    } else {
        assert(all =~= Seq::empty());
        assert(all.take(0) =~= Seq::empty());
    }
}

/// A card shows three facts at most: first the chosen columns that say
/// something in the row, in the order in which they were chosen, each as the
/// row spells it and shortened to fit; then whatever short scalars are left,
/// whole, in the order of the row.
pub proof fn chosen_facts_come_first(doc: JsonV, spec_: SpecV, key_field: Text)
    requires
        spec_.fact_fields.no_duplicates(),
        !spec_.fact_fields.contains(lowered(key_field)),
        !spec_.fact_fields.contains(spec_.time_field),
        !spec_.fact_fields.contains(spec_.label_field),
        !spec_.fact_fields.contains(lowered("__ais_lane"@)),
    ensures
        ({
            let start = seq![
                lowered(key_field),
                spec_.time_field,
                spec_.label_field,
                lowered("__ais_lane"@),
            ];
            let taken = chosen_facts(doc, start, spec_.fact_fields).taken;
            let chosen = spec_.fact_fields.filter(
                |p: Text| text_under(doc, p) is Some,
            ).map_values(|p: Text| ((entry_at(doc, p)->0).0, truncated(text_under(doc, p)->0, 28)));
            let rest = doc->Object_0.filter(|m: (Text, JsonV)| fills(m, taken)).map_values(
                |m: (Text, JsonV)| (m.0, text_form(m.1)->0),
            );
            let got = block_facts(doc, spec_, key_field);
            &&& chosen.len() >= 3 ==> got == chosen.take(3)
            &&& chosen.len() < 3 && doc is Object && (chosen + rest).len() >= 3 ==> got == (chosen
                + rest).take(3)
            &&& chosen.len() < 3 && doc is Object && (chosen + rest).len() < 3 ==> got == chosen
                + rest
        }),
{
    let start = seq![
        lowered(key_field),
        spec_.time_field,
        spec_.label_field,
        lowered("__ais_lane"@),
    ];
    let paths = spec_.fact_fields;
    assert forall|i: int| 0 <= i < paths.len() implies !start.contains(#[trigger] paths[i]) by {
        assert(paths.contains(paths[i]));
        if start.contains(paths[i]) {
            let k = choose|k: int| 0 <= k < start.len() && start[k] == paths[i];
            assert(k == 0 || k == 1 || k == 2 || k == 3);
        }
    }
    chosen_is_filtered(doc, start, paths);
    let c = chosen_facts(doc, start, paths);
    let chosen = paths.filter(|p: Text| text_under(doc, p) is Some).map_values(
        |p: Text| ((entry_at(doc, p)->0).0, truncated(text_under(doc, p)->0, 28)),
    );
    if chosen.len() < 3 {
        assert(chosen.take(chosen.len() as int) =~= chosen);
        if let JsonV::Object(ms) = doc {
            filled_is_filtered(c.facts, ms, c.taken);
            let rest = ms.filter(|m: (Text, JsonV)| fills(m, c.taken)).map_values(
                |m: (Text, JsonV)| (m.0, text_form(m.1)->0),
            );
            assert((chosen + rest).take((chosen + rest).len() as int) =~= chosen + rest);
        }
    }
}

/// A member fills a card when it is a scalar of at most twenty-eight bytes
/// that is neither injected nor shown already.
pub proof fn short_scalars_fill(m: (Text, JsonV), taken: Seq<Text>)
    ensures
        fills(m, taken) <==> text_form(m.1) is Some && byte_len(text_form(m.1)->0) <= 28
            && !taken.contains(lowered(m.0)) && !system_column(m.0) && m.0 != "__ais_lane"@,
{
}

// ── What holds of a search ────────────────────────────────────────────────

proof fn first_binding(bindings: Seq<BindingV>, table: Text)
    ensures
        binding_in(bindings, table) is Some <==> exists|b: int|
            0 <= b < bindings.len() && (#[trigger] bindings[b]).table == table,
        binding_in(bindings, table) matches Some(x) ==> bindings.contains(x) && x.table == table,
    decreases bindings.len(),
{
    if bindings.len() > 0 {
        let rest = bindings.drop_first();
        first_binding(rest, table);
        if bindings[0].table == table {
            assert(bindings.contains(bindings[0]));
        } else {
            if exists|b: int| 0 <= b < bindings.len() && (#[trigger] bindings[b]).table == table {
                let b = choose|b: int|
                    0 <= b < bindings.len() && (#[trigger] bindings[b]).table == table;
                assert(rest[b - 1] == bindings[b]);
            }
            if let Some(x) = binding_in(rest, table) {
                let k = choose|k: int| 0 <= k < rest.len() && rest[k] == x;
                assert(bindings[k + 1] == x);
            }
        }
    }
}

/// The tables of a trace are split by whether the key is bound in them, each
/// part in the order of the tables; and each table that carries the key is
/// asked through a binding of its own.
pub proof fn tables_carry_the_key_or_are_off_path(tables: Seq<Text>, bindings: Seq<BindingV>)
    ensures
        bound_in(tables, bindings).map_values(|b: BindingV| b.table) == tables.filter(
            |t: Text| exists|b: int|
                0 <= b < bindings.len() && (#[trigger] bindings[b]).table == t,
        ),
        off_path(tables, bindings) == tables.filter(
            |t: Text| !exists|b: int|
                0 <= b < bindings.len() && (#[trigger] bindings[b]).table == t,
        ),
        forall|i: int|
            0 <= i < bound_in(tables, bindings).len() ==> bindings.contains(
                #[trigger] bound_in(tables, bindings)[i],
            ),
    decreases tables.len(),
{
    reveal(Seq::filter);
    let p = |t: Text| exists|b: int| 0 <= b < bindings.len() && (#[trigger] bindings[b]).table == t;
    let q = |t: Text| !exists|b: int|
        0 <= b < bindings.len() && (#[trigger] bindings[b]).table == t;
    let f = |b: BindingV| b.table;
    let all = bound_in(tables, bindings);
    if tables.len() > 0 {
        let short = tables.drop_last();
        tables_carry_the_key_or_are_off_path(short, bindings);
        first_binding(bindings, tables.last());
        let before = bound_in(short, bindings);
        assert(p(tables.last()) == !q(tables.last()));
        if let Some(x) = binding_in(bindings, tables.last()) {
            assert(before.push(x).map_values(f) =~= before.map_values(f).push(x.table));
        }
        assert forall|i: int| 0 <= i < all.len() implies bindings.contains(#[trigger] all[i]) by {
            if i < before.len() {
                assert(all[i] == before[i]);
            }
        }
    } else {
        assert(all.map_values(f) =~= Seq::empty());
    }
}

/// A trace asks every table that it was given, each on its own column, and
/// takes two hundred rows of each.
pub proof fn traces_ask_every_bound_table(bound: Seq<BindingV>, value: Text, partial: bool, i: int)
    requires
        0 <= i < bound.len(),
    ensures
        ({
            let b = bound[i];
            let column = if b.kind == "string"@ {
                column_reference(b.field)
            } else {
                "tostring("@ + column_reference(b.field) + ")"@
            };
            let asked = column + if partial {
                " contains v"@
            } else {
                " == v"@
            };
            let branches = bound.map_values(|b: BindingV| trace_branch(b, partial));
            &&& holds(
                joined(branches, ",\n"@),
                "    ("@ + quoted_name(b.table) + " | where "@ + asked + " | extend __ais_lane = "@
                    + literal(b.table) + ")"@,
            )
            &&& trace_query_text(bound, value, partial) == let_statement("v"@, value)
                + "\nunion isfuzzy=true\n"@ + joined(branches, ",\n"@) + "\n| take "@ + digits(
                (200 * bound.len()) as nat,
            )
        }),
{
    let branches = bound.map_values(|b: BindingV| trace_branch(b, partial));
    part_is_held(branches, ",\n"@, i);
    assert(branches[i] == trace_branch(bound[i], partial));
}

proof fn suggested_is_filtered(rows: Seq<JsonV>)
    ensures
        suggested(rows) == rows.filter(
            |r: JsonV| r.get("Value"@) matches Some(JsonV::Text(_)),
        ).map_values(|r: JsonV| r.get("Value"@)->0->Text_0),
    decreases rows.len(),
{
    reveal(Seq::filter);
    let p = |r: JsonV| r.get("Value"@) matches Some(JsonV::Text(_));
    let f = |r: JsonV| r.get("Value"@)->0->Text_0;
    if rows.len() > 0 {
        suggested_is_filtered(rows.drop_last());
        let part = rows.drop_last().filter(p);
        if p(rows.last()) {
            assert(part.push(rows.last()).map_values(f) =~= part.map_values(f).push(
                f(rows.last()),
            ));
        }
    } else {
        assert(rows.filter(p).map_values(f) =~= Seq::empty());
    }
}

proof fn with_texts_holds(set: Seq<Text>, more: Seq<Text>)
    requires
        strictly_sorted(set),
    ensures
        strictly_sorted(with_texts(set, more)),
        forall|x: Text| #[trigger]
            with_texts(set, more).contains(x) <==> set.contains(x) || more.contains(x),
    decreases more.len(),
{
    if more.len() > 0 {
        let short = more.drop_last();
        with_texts_holds(set, short);
        with_text_sorted(with_texts(set, short), more.last());
        assert forall|x: Text| #[trigger] with_texts(set, more).contains(x) <==> set.contains(x)
            || more.contains(x) by {
            if more.contains(x) {
                let k = choose|k: int| 0 <= k < more.len() && more[k] == x;
                if k < short.len() {
                    assert(short[k] == x);
                }
            }
            if short.contains(x) {
                let k = choose|k: int| 0 <= k < short.len() && short[k] == x;
                assert(more[k] == x);
            }
            assert(more[more.len() - 1] == more.last());
        }
    }
}

/// An answer adds the texts under `Value` of its rows and nothing else, and
/// what was found stays, ascending and each once; a failed one adds nothing.
pub proof fn suggestions_are_the_values_found(found: Seq<Text>, rows: Seq<JsonV>, e: Text, x: Text)
    requires
        strictly_sorted(found),
    ensures
        strictly_sorted(suggestions_after(found, Ok(rows))),
        suggestions_after(found, Ok(rows)).contains(x) <==> found.contains(x) || exists|i: int|
            0 <= i < rows.len() && (#[trigger] rows[i]).get("Value"@) == Some(JsonV::Text(x)),
        suggestions_after(found, Err(e)) == found,
{
    let p = |r: JsonV| r.get("Value"@) matches Some(JsonV::Text(_));
    let f = |r: JsonV| r.get("Value"@)->0->Text_0;
    suggested_is_filtered(rows);
    with_texts_holds(found, suggested(rows));
    filter_holds(rows, p);
    let kept = rows.filter(p);
    let told = suggested(rows);
    if told.contains(x) {
        let k = choose|k: int| 0 <= k < told.len() && told[k] == x;
        assert(kept.contains(kept[k]));
        assert(p(kept[k]));
        let i = choose|i: int| 0 <= i < rows.len() && rows[i] == kept[k];
        assert(rows[i].get("Value"@) == Some(JsonV::Text(x)));
    }
    if exists|i: int|
        0 <= i < rows.len() && (#[trigger] rows[i]).get("Value"@) == Some(JsonV::Text(x)) {
        let i = choose|i: int|
            0 <= i < rows.len() && (#[trigger] rows[i]).get("Value"@) == Some(JsonV::Text(x));
        assert(rows.contains(rows[i]));
        assert(p(rows[i]));
        assert(kept.contains(rows[i]));
        let k = choose|k: int| 0 <= k < kept.len() && kept[k] == rows[i];
        assert(told[k] == x);
    }
}

/// A type-ahead asks every table that it was given, each for the values of
/// its own column that contain the fragment, and for twenty-five in all.
pub proof fn suggestions_ask_every_bound_table(bound: Seq<BindingV>, fragment: Text, i: int)
    requires
        0 <= i < bound.len(),
    ensures
        ({
            let branches = bound.map_values(|b: BindingV| suggest_branch(b));
            let column = "tostring("@ + column_reference(bound[i].field) + ")"@;
            &&& holds(joined(branches, ",\n"@), suggest_branch(bound[i]))
            &&& suggest_branch(bound[i]) == "    ("@ + quoted_name(bound[i].table)
                + " | where tostring("@ + column_reference(bound[i].field)
                + ") contains v | project Value = tostring("@ + column_reference(bound[i].field)
                + "))"@
            &&& suggest_query_text(bound, fragment) == let_statement("v"@, fragment)
                + "\nunion isfuzzy=true\n"@ + joined(branches, ",\n"@)
                + "\n| distinct Value\n| take 25"@
        }),
{
    let branches = bound.map_values(|b: BindingV| suggest_branch(b));
    part_is_held(branches, ",\n"@, i);
}

/// A fragment of four bytes or more, without the white space around it, is
/// worth asking about, and no shorter one.
pub proof fn short_fragments_are_not_asked_about(fragment: Text)
    ensures
        long_enough(fragment) <==> byte_len(trimmed(fragment)) >= 4,
{
}

/// A rule is shown under the name that it displays, or else under the last
/// part of its path, with its value.
pub proof fn rules_are_shown_with_their_value(r: RuleV)
    ensures
        r.display.len() > 0 ==> rule_label(r) == r.display + " = "@ + r.value,
        r.display.len() == 0 ==> rule_label(r) == pieces(r.field, '.').last() + " = "@ + r.value,
{
}

proof fn taken_grows(doc: JsonV, start: Seq<Text>, paths: Seq<Text>)
    ensures
        forall|t: Text| start.contains(t) ==> #[trigger] chosen_facts(
            doc,
            start,
            paths,
        ).taken.contains(t),
        forall|t: Text|
            paths.contains(t) ==> chosen_facts(doc, start, paths).facts.len() >= 3
                || #[trigger] chosen_facts(doc, start, paths).taken.contains(t) || text_under(
                doc,
                t,
            ) is None,
    decreases paths.len(),
{
    if paths.len() > 0 {
        let short = paths.drop_last();
        taken_grows(doc, start, short);
        let before = chosen_facts(doc, start, short);
        let now = chosen_facts(doc, start, paths);
        assert forall|t: Text| before.taken.contains(t) implies #[trigger] now.taken.contains(
            t,
        ) by {
            let k = choose|k: int| 0 <= k < before.taken.len() && before.taken[k] == t;
            assert(now.taken[k] == t);
        }
        assert forall|t: Text| paths.contains(t) implies now.facts.len() >= 3
            || #[trigger] now.taken.contains(t) || text_under(doc, t) is None by {
            let k = choose|k: int| 0 <= k < paths.len() && paths[k] == t;
            if k < short.len() {
                assert(short[k] == t);
                assert(short.contains(t));
                assert(before.facts.len() >= 3 || before.taken.contains(t) || text_under(
                    doc,
                    t,
                ) is None);
            } else if now.taken.len() > before.taken.len() {
                assert(now.taken[now.taken.len() - 1] == t);
            }
        }
    }
}

/// What a card shows already, and what was chosen before, is not shown
/// again as a fact.
pub proof fn nothing_is_shown_twice(doc: JsonV, start: Seq<Text>, paths: Seq<Text>, p: Text)
    requires
        start.contains(p) || paths.contains(p),
    ensures
        chosen_facts(doc, start, paths.push(p)) == chosen_facts(doc, start, paths),
{
    assert(paths.push(p).drop_last() =~= paths);
    taken_grows(doc, start, paths);
    let before = chosen_facts(doc, start, paths);
    assert(before.facts.len() >= 3 || before.taken.contains(p) || text_under(doc, p) is None);
}

} // verus!
