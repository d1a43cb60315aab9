//! The Log Analytics data plane: what a request says, and what a response
//! means.
//!
//! The query API has no parameter binding, so any value a user supplies is
//! written into the query text. [`let_literal`] is the boundary: a value it
//! writes can be read only as one string literal.

use crate::json::{
    get_smaller, member, members, object_model, parse, parsed, set_member, with_member,
    with_member_reads, Json, JsonV,
};
use crate::text::{
    cat2, cat3, cat5, chars_of, code_point, concat_all, concatenated, decimal, digits, piece,
    pieces, same, split, trim, trim_start, trim_start_of, trimmed, views, Text,
};
use vstd::prelude::*;

verus! {

/// Ceiling on rows kept from any one query. The service allows far more, but
/// nothing can usefully display it.
pub const MAX_ROWS: usize = 5_000;

/// Characters of an unreadable failure body worth repeating.
pub const MAX_DETAIL: usize = 300;

// ── Time range ────────────────────────────────────────────────────────────

/// How far back to look. Every query is bounded by a timespan.
#[derive(Clone, Copy, Debug, PartialEq, Eq, Structural)]
pub enum TimeRange {
    LastHour,
    Last2Hours,
    Last4Hours,
    LastDay,
    LastWeek,
    Last30Days,
}

impl Default for TimeRange {
    fn default() -> (r: TimeRange)
        ensures
            r == TimeRange::LastDay,
    {
        TimeRange::LastDay
    }
}

impl TimeRange {
    pub open spec fn iso_text(self) -> Text {
        match self {
            TimeRange::LastHour => "PT1H"@,
            TimeRange::Last2Hours => "PT2H"@,
            TimeRange::Last4Hours => "PT4H"@,
            TimeRange::LastDay => "P1D"@,
            TimeRange::LastWeek => "P7D"@,
            TimeRange::Last30Days => "P30D"@,
        }
    }

    pub open spec fn label_text(self) -> Text {
        match self {
            TimeRange::LastHour => "Last hour"@,
            TimeRange::Last2Hours => "Last 2 hours"@,
            TimeRange::Last4Hours => "Last 4 hours"@,
            TimeRange::LastDay => "Last 24 hours"@,
            TimeRange::LastWeek => "Last 7 days"@,
            TimeRange::Last30Days => "Last 30 days"@,
        }
    }

    /// The ISO-8601 duration that a request carries.
    pub fn iso(self) -> (r: &'static str)
        ensures
            r@ == self.iso_text(),
    {
        match self {
            TimeRange::LastHour => "PT1H",
            TimeRange::Last2Hours => "PT2H",
            TimeRange::Last4Hours => "PT4H",
            TimeRange::LastDay => "P1D",
            TimeRange::LastWeek => "P7D",
            TimeRange::Last30Days => "P30D",
        }
    }

    pub fn label(self) -> (r: &'static str)
        ensures
            r@ == self.label_text(),
    {
        match self {
            TimeRange::LastHour => "Last hour",
            TimeRange::Last2Hours => "Last 2 hours",
            TimeRange::Last4Hours => "Last 4 hours",
            TimeRange::LastDay => "Last 24 hours",
            TimeRange::LastWeek => "Last 7 days",
            TimeRange::Last30Days => "Last 30 days",
        }
    }

    /// Every range, shortest first.
    pub fn all() -> (r: [TimeRange; 6])
        ensures
            r@ == seq![
                TimeRange::LastHour,
                TimeRange::Last2Hours,
                TimeRange::Last4Hours,
                TimeRange::LastDay,
                TimeRange::LastWeek,
                TimeRange::Last30Days,
            ],
            forall|x: TimeRange| r@.contains(x),
    {
        let r = [
            TimeRange::LastHour,
            TimeRange::Last2Hours,
            TimeRange::Last4Hours,
            TimeRange::LastDay,
            TimeRange::LastWeek,
            TimeRange::Last30Days,
        ];
        proof {
            assert(r@[0] == TimeRange::LastHour);
            assert(r@[1] == TimeRange::Last2Hours);
            assert(r@[2] == TimeRange::Last4Hours);
            assert(r@[3] == TimeRange::LastDay);
            assert(r@[4] == TimeRange::LastWeek);
            assert(r@[5] == TimeRange::Last30Days);
            assert forall|x: TimeRange| r@.contains(x) by {
                match x {
                    TimeRange::LastHour => assert(r@[0] == x),
                    TimeRange::Last2Hours => assert(r@[1] == x),
                    TimeRange::Last4Hours => assert(r@[2] == x),
                    TimeRange::LastDay => assert(r@[3] == x),
                    TimeRange::LastWeek => assert(r@[4] == x),
                    TimeRange::Last30Days => assert(r@[5] == x),
                }
            }
        }
        r
    }
}

// ── Table metadata ────────────────────────────────────────────────────────

/// A column as the workspace declares it; `kind` is its KQL type.
#[derive(Debug, PartialEq)]
pub struct ColumnMeta {
    pub name: String,
    pub kind: String,
}

#[verifier::ext_equal]
pub ghost struct ColumnMetaV {
    pub name: Text,
    pub kind: Text,
}

impl View for ColumnMeta {
    type V = ColumnMetaV;

    open spec fn view(&self) -> ColumnMetaV {
        ColumnMetaV { name: self.name@, kind: self.kind@ }
    }
}

impl ColumnMeta {
    /// Dynamic columns hold nested JSON: the only place a row is not flat.
    pub fn is_dynamic(&self) -> (r: bool)
        ensures
            r == (self.kind@ == "dynamic"@),
    {
        same(self.kind.as_str(), "dynamic")
    }
}

#[derive(Debug, PartialEq)]
pub struct TableMeta {
    pub name: String,
    pub columns: Vec<ColumnMeta>,
}

#[verifier::ext_equal]
pub ghost struct TableMetaV {
    pub name: Text,
    pub columns: Seq<ColumnMetaV>,
}

impl View for TableMeta {
    type V = TableMetaV;

    open spec fn view(&self) -> TableMetaV {
        TableMetaV { name: self.name@, columns: views(self.columns@) }
    }
}

// ── Requests ──────────────────────────────────────────────────────────────

/// Where queries against a workspace are posted.
pub fn query_url(workspace_id: &str) -> (r: String)
    ensures
        r@ == "https://api.loganalytics.azure.com/v1/workspaces/"@ + workspace_id@ + "/query"@,
{
    cat3("https://api.loganalytics.azure.com/v1/workspaces/", workspace_id, "/query")
}

/// Where a workspace's metadata is read.
pub fn metadata_url(workspace_id: &str) -> (r: String)
    ensures
        r@ == "https://api.loganalytics.azure.com/v1/workspaces/"@ + workspace_id@ + "/metadata"@,
{
    cat3("https://api.loganalytics.azure.com/v1/workspaces/", workspace_id, "/metadata")
}

// ── Response shaping ──────────────────────────────────────────────────────

/// The first table called `PrimaryResult`.
pub open spec fn named_result(tables: Seq<JsonV>) -> Option<JsonV>
    decreases tables.len(),
{
    if tables.len() == 0 {
        None
    } else if tables[0].text_at("name"@) == Some("PrimaryResult"@) {
        Some(tables[0])
    } else {
        named_result(tables.drop_first())
    }
}

/// The result table: by name, or else by position.
pub open spec fn primary_table(tables: Seq<JsonV>) -> Option<JsonV> {
    match named_result(tables) {
        Some(t) => Some(t),
        None => if tables.len() > 0 {
            Some(tables[0])
        } else {
            None
        },
    }
}

/// A column's name; empty when it has none.
pub open spec fn column_name(column: JsonV) -> Text {
    match column.text_at("name"@) {
        Some(t) => t,
        None => Seq::empty(),
    }
}

pub open spec fn column_names(table: JsonV) -> Seq<Text> {
    match table.array_at("columns"@) {
        Some(cols) => cols.map_values(|c: JsonV| column_name(c)),
        None => Seq::empty(),
    }
}

/// Whether text could be a JSON object or array.
pub open spec fn opens_json(t: Text) -> bool {
    let s = trim_start_of(t);
    s.len() > 0 && (s[0] == '{' || s[0] == '[')
}

/// A cell, given what parsing its text gives.
pub open spec fn dynamic_with(cell: JsonV, outcome: Result<JsonV, Text>) -> JsonV {
    match cell {
        JsonV::Text(t) => if opens_json(t) {
            match outcome {
                Ok(v) => v,
                Err(_) => cell,
            }
        } else {
            cell
        },
        _ => cell,
    }
}

/// A cell as the rest of the library sees it: JSON that arrived as text is
/// the JSON it holds.
pub open spec fn dynamic_value(cell: JsonV) -> JsonV {
    match cell {
        JsonV::Text(t) => dynamic_with(cell, parsed(t)),
        _ => cell,
    }
}

/// The members of a row after its first `n` columns. A column without a name
/// and a null cell leave nothing.
pub open spec fn row_members(names: Seq<Text>, cells: Seq<JsonV>, n: int) -> Seq<(Text, JsonV)>
    decreases n,
{
    if n <= 0 {
        Seq::empty()
    } else {
        let before = row_members(names, cells, n - 1);
        if names[n - 1].len() == 0 || cells[n - 1] is Null {
            before
        } else {
            with_member(before, names[n - 1], dynamic_value(cells[n - 1]))
        }
    }
}

pub open spec fn smaller(a: nat, b: nat) -> nat {
    if a <= b {
        a
    } else {
        b
    }
}

/// A row of cells as an object.
pub open spec fn row_object(names: Seq<Text>, row: JsonV) -> JsonV {
    let cells = match row.as_array() {
        Some(a) => a,
        None => Seq::empty(),
    };
    JsonV::Object(row_members(names, cells, smaller(names.len(), cells.len()) as int))
}

/// The rows of a response, as objects.
pub open spec fn response_rows(body: JsonV) -> Seq<JsonV> {
    match body.array_at("tables"@) {
        Some(tables) => match primary_table(tables) {
            Some(t) => match t.array_at("rows"@) {
                Some(rows) => rows.map_values(|row: JsonV| row_object(column_names(t), row)),
                None => Seq::empty(),
            },
            None => Seq::empty(),
        },
        None => Seq::empty(),
    }
}

fn find_primary(tables: &Vec<Json>) -> (r: Option<&Json>)
    ensures
        match r {
            Some(t) => primary_table(views(tables@)) == Some(t@),
            None => primary_table(views(tables@)) is None,
        },
{
    let ghost all = views(tables@);
    let mut i: usize = 0;
    assert(all.skip(0) =~= all);
    while i < tables.len()
        invariant
            i <= tables@.len(),
            all == views(tables@),
            named_result(all) == named_result(all.skip(i as int)),
        decreases tables@.len() - i,
    {
        let ghost rest = all.skip(i as int);
        assert(rest[0] == tables@[i as int]@);
        assert(rest.drop_first() =~= all.skip(i + 1));
        if let Some(name) = tables[i].text_at("name") {
            if same(name.as_str(), "PrimaryResult") {
                return Some(&tables[i]);
            }
        }
        i = i + 1;
    }
    if tables.len() > 0 {
        Some(&tables[0])
    } else {
        None
    }
}

fn names_of(table: &Json) -> (r: Vec<String>)
    ensures
        views(r@) == column_names(table@),
{
    let mut r: Vec<String> = Vec::new();
    match table.array_at("columns") {
        Some(cols) => {
            let mut i: usize = 0;
            while i < cols.len()
                invariant
                    i <= cols@.len(),
                    r@.len() == i,
                    forall|k: int| 0 <= k < i ==> (#[trigger] r@[k])@ == column_name(cols@[k]@),
                decreases cols@.len() - i,
            {
                match cols[i].text_at("name") {
                    Some(t) => r.push(t.clone()),
                    None => {
                        let empty: String = String::new();
                        assert(empty@ =~= Seq::empty());
                        r.push(empty);
                    },
                }
                i = i + 1;
            }
            assert(views(r@) =~= column_names(table@));
        },
        None => {
            assert(views(r@) =~= column_names(table@));
        },
    }
    r
}

/// A cell, given what parsing its text gave.
pub fn dynamic_from(cell: &Json, outcome: Result<Json, String>) -> (r: Json)
    ensures
        r@ == dynamic_with(
            cell@,
            match outcome {
                Ok(v) => Ok(v@),
                Err(e) => Err(e@),
            },
        ),
{
    if let Json::Text(text) = cell {
        let chars = chars_of(trim_start(text.as_str()).as_str());
        if chars.len() > 0 && (chars[0] == '{' || chars[0] == '[') {
            if let Ok(v) = outcome {
                return v;
            }
        }
    }
    cell.copy()
}

/// A dynamic column sometimes arrives as a string holding JSON. Read here,
/// `Properties.foo` is a path everywhere.
pub fn unwrap_dynamic(cell: &Json) -> (r: Json)
    ensures
        r@ == dynamic_value(cell@),
{
    match cell {
        Json::Text(text) => dynamic_from(cell, parse(text.as_str())),
        _ => cell.copy(),
    }
}

fn object_of(names: &Vec<String>, row: &Json) -> (r: Json)
    ensures
        r@ == row_object(views(names@), row@),
{
    let mut object: Vec<(String, Json)> = Vec::new();
    assert(members(object@) =~= row_members(views(names@), Seq::empty(), 0));
    if let Some(cells) = row.as_array() {
        let mut i: usize = 0;
        assert(members(object@) =~= row_members(views(names@), views(cells@), 0));
        while i < names.len() && i < cells.len()
            invariant
                i <= names@.len(),
                i <= cells@.len(),
                members(object@) == row_members(views(names@), views(cells@), i as int),
            decreases names@.len() - i,
        {
            let null: bool = match &cells[i] {
                Json::Null => true,
                _ => false,
            };
            assert(views(names@)[i as int] == names@[i as int]@);
            assert(views(cells@)[i as int] == cells@[i as int]@);
            if !names[i].as_str().is_empty() && !null {
                set_member(&mut object, names[i].clone(), unwrap_dynamic(&cells[i]));
            }
            i = i + 1;
        }
    }
    proof {
        object_model(object);
    }
    Json::Object(object)
}

/// Zips the result table's columns against its rows.
pub fn rows_of(body: &Json) -> (r: Vec<Json>)
    ensures
        views(r@) == response_rows(body@),
{
    let mut out: Vec<Json> = Vec::new();
    assert(views(out@) =~= Seq::<JsonV>::empty());
    if let Some(tables) = body.array_at("tables") {
        if let Some(table) = find_primary(tables) {
            if let Some(rows) = table.array_at("rows") {
                let names = names_of(table);
                let mut i: usize = 0;
                while i < rows.len()
                    invariant
                        i <= rows@.len(),
                        out@.len() == i,
                        forall|k: int|
                            0 <= k < i ==> (#[trigger] out@[k])@ == row_object(
                                views(names@),
                                rows@[k]@,
                            ),
                    decreases rows@.len() - i,
                {
                    out.push(object_of(&names, &rows[i]));
                    i = i + 1;
                }
                assert(views(out@) =~= response_rows(body@));
            }
        }
    }
    out
}

pub open spec fn column_meta(c: JsonV) -> Option<ColumnMetaV> {
    match c.text_at("name"@) {
        Some(name) => Some(
            ColumnMetaV {
                name,
                kind: match c.text_at("type"@) {
                    Some(k) => k,
                    None => Seq::empty(),
                },
            },
        ),
        None => None,
    }
}

/// The columns that have a name, in order.
pub open spec fn columns_meta(cols: Seq<JsonV>) -> Seq<ColumnMetaV>
    decreases cols.len(),
{
    if cols.len() == 0 {
        Seq::empty()
    } else {
        let before = columns_meta(cols.drop_last());
        match column_meta(cols.last()) {
            Some(m) => before.push(m),
            None => before,
        }
    }
}

pub open spec fn table_meta(t: JsonV) -> Option<TableMetaV> {
    match t.text_at("name"@) {
        Some(name) => Some(
            TableMetaV {
                name,
                columns: match t.array_at("columns"@) {
                    Some(cols) => columns_meta(cols),
                    None => Seq::empty(),
                },
            },
        ),
        None => None,
    }
}

/// The tables that have a name, in order.
pub open spec fn tables_meta(tables: Seq<JsonV>) -> Seq<TableMetaV>
    decreases tables.len(),
{
    if tables.len() == 0 {
        Seq::empty()
    } else {
        let before = tables_meta(tables.drop_last());
        match table_meta(tables.last()) {
            Some(m) => before.push(m),
            None => before,
        }
    }
}

/// The tables of a metadata response.
pub open spec fn metadata_tables(body: JsonV) -> Seq<TableMetaV> {
    match body.array_at("tables"@) {
        Some(tables) => tables_meta(tables),
        None => Seq::empty(),
    }
}

fn columns_of(cols: &Vec<Json>) -> (r: Vec<ColumnMeta>)
    ensures
        views(r@) == columns_meta(views(cols@)),
{
    let mut out: Vec<ColumnMeta> = Vec::new();
    let ghost all = views(cols@);
    let mut i: usize = 0;
    assert(views(out@) =~= columns_meta(all.take(0)));
    while i < cols.len()
        invariant
            i <= cols@.len(),
            all == views(cols@),
            views(out@) == columns_meta(all.take(i as int)),
        decreases cols@.len() - i,
    {
        assert(all.take(i + 1).drop_last() =~= all.take(i as int));
        let ghost before = views(out@);
        if let Some(name) = cols[i].text_at("name") {
            let kind = match cols[i].text_at("type") {
                Some(k) => k.clone(),
                None => {
                    let empty: String = String::new();
                    assert(empty@ =~= Seq::empty());
                    empty
                },
            };
            let column = ColumnMeta { name: name.clone(), kind };
            let ghost m = column@;
            out.push(column);
            assert(views(out@) =~= before.push(m));
        }
        i = i + 1;
    }
    assert(all.take(i as int) =~= all);
    out
}

/// Reads the tables out of a metadata response.
pub fn tables_of(body: &Json) -> (r: Vec<TableMeta>)
    ensures
        views(r@) == metadata_tables(body@),
{
    let mut out: Vec<TableMeta> = Vec::new();
    assert(views(out@) =~= Seq::<TableMetaV>::empty());
    if let Some(tables) = body.array_at("tables") {
        let ghost all = views(tables@);
        let mut i: usize = 0;
        assert(views(out@) =~= tables_meta(all.take(0)));
        while i < tables.len()
            invariant
                i <= tables@.len(),
                all == views(tables@),
                views(out@) == tables_meta(all.take(i as int)),
            decreases tables@.len() - i,
        {
            assert(all.take(i + 1).drop_last() =~= all.take(i as int));
            let ghost before = views(out@);
            if let Some(name) = tables[i].text_at("name") {
                let columns = match tables[i].array_at("columns") {
                    Some(cols) => columns_of(cols),
                    None => {
                        let none: Vec<ColumnMeta> = Vec::new();
                        assert(views(none@) =~= Seq::<ColumnMetaV>::empty());
                        none
                    },
                };
                let table = TableMeta { name: name.clone(), columns };
                let ghost m = table@;
                out.push(table);
                assert(views(out@) =~= before.push(m));
            }
            i = i + 1;
        }
        assert(all.take(i as int) =~= all);
    }
    out
}

// ── Errors ────────────────────────────────────────────────────────────────

/// The error nested in an error.
pub open spec fn inner_error(e: JsonV) -> Option<JsonV> {
    match e.get("innererror"@) {
        Some(i) => Some(i),
        None => e.get("innerError"@),
    }
}

/// An error's own message, or `best` when it has none.
pub open spec fn message_or(e: JsonV, best: Text) -> Text {
    match e.text_at("message"@) {
        Some(m) => if m.len() > 0 {
            m
        } else {
            best
        },
        None => best,
    }
}

/// The innermost message that says anything.
pub open spec fn innermost(e: JsonV, best: Text) -> Text
    decreases e,
{
    match inner_error(e) {
        Some(i) => {
            proof {
                get_smaller(e, "innererror"@);
                get_smaller(e, "innerError"@);
            }
            innermost(i, message_or(e, best))
        },
        None => message_or(e, best),
    }
}

pub open spec fn error_message(e: JsonV) -> Text {
    let m = innermost(e, Seq::empty());
    if m.len() == 0 {
        "unknown error"@
    } else {
        m
    }
}

fn innermost_message(e: &Json, best: String) -> (r: String)
    ensures
        r@ == innermost(e@, best@),
    decreases e@,
{
    let best = match e.text_at("message") {
        Some(m) => if m.as_str().is_empty() {
            best
        } else {
            m.clone()
        },
        None => best,
    };
    proof {
        get_smaller(e@, "innererror"@);
        get_smaller(e@, "innerError"@);
    }
    match e.get("innererror") {
        Some(i) => innermost_message(i, best),
        None => match e.get("innerError") {
            Some(i) => innermost_message(i, best),
            None => best,
        },
    }
}

/// Flattens the nested `{code, message, innererror: {…}}` into one line: the
/// innermost message is the useful one.
pub fn api_error_message(error: &Json) -> (r: String)
    ensures
        r@ == error_message(error@),
{
    let start: String = String::new();
    assert(start@ =~= Seq::empty());
    let m = innermost_message(error, start);
    if m.as_str().is_empty() {
        "unknown error".to_owned()
    } else {
        m
    }
}

pub open spec fn clipped(s: Text, max: int) -> Text {
    if s.len() <= max {
        s
    } else {
        s.take(max)
    }
}

/// What a failed response says of itself, given what parsing its body gives:
/// its error message, or the start of its body.
pub open spec fn failure_detail(body: Text, outcome: Result<JsonV, Text>) -> Text {
    match outcome {
        Ok(v) => match v.get("error"@) {
            Some(e) => error_message(e),
            None => clipped(trimmed(body), MAX_DETAIL as int),
        },
        Err(_) => clipped(trimmed(body), MAX_DETAIL as int),
    }
}

/// A failed response in words, each with its own remedy.
pub open spec fn failure_text(status: int, detail: Text, retry_after: Option<Text>) -> Text {
    if status == 401 {
        "not authenticated ("@ + detail + ") — try `az login` again"@
    } else if status == 403 {
        "access denied ("@ + detail
            + ") — the signed-in user needs the Log Analytics Reader role on this workspace"@
    } else if status == 400 {
        "the workspace rejected the query: "@ + detail
    } else if status == 404 {
        "workspace not found ("@ + detail + ") — check the workspace id"@
    } else if status == 429 {
        match retry_after {
            Some(secs) => "throttled by Azure — retry in "@ + secs + "s"@,
            None => "throttled by Azure ("@ + detail + ")"@,
        }
    } else if status == 504 {
        "the query timed out — narrow the time range and try again"@
    } else {
        "query failed ("@ + digits(status as nat) + "): "@ + detail
    }
}

fn clip(s: &str, max: usize) -> (r: String)
    ensures
        r@ == clipped(s@, max as int),
{
    let chars = chars_of(s);
    if chars.len() <= max {
        s.to_owned()
    } else {
        let r = piece(&chars, 0, max);
        assert(chars@.subrange(0, max as int) =~= chars@.take(max as int));
        r
    }
}

/// A failed response in words, given what parsing its body gave.
pub fn failure_from(
    status: u16,
    body: &str,
    outcome: &Result<Json, String>,
    retry_after: Option<&str>,
) -> (r: String)
    ensures
        r@ == failure_text(
            status as int,
            failure_detail(
                body@,
                match outcome {
                    Ok(v) => Ok(v@),
                    Err(e) => Err(e@),
                },
            ),
            match retry_after {
                Some(s) => Some(s@),
                None => None,
            },
        ),
{
    let detail: String = match outcome {
        Ok(v) => match v.get("error") {
            Some(e) => api_error_message(e),
            None => clip(trim(body).as_str(), MAX_DETAIL),
        },
        Err(_) => clip(trim(body).as_str(), MAX_DETAIL),
    };
    let detail = detail.as_str();
    if status == 401 {
        cat3("not authenticated (", detail, ") — try `az login` again")
    } else if status == 403 {
        cat3(
            "access denied (",
            detail,
            ") — the signed-in user needs the Log Analytics Reader role on this workspace",
        )
    } else if status == 400 {
        cat2("the workspace rejected the query: ", detail)
    } else if status == 404 {
        cat3("workspace not found (", detail, ") — check the workspace id")
    } else if status == 429 {
        match retry_after {
            Some(secs) => cat3("throttled by Azure — retry in ", secs, "s"),
            None => cat3("throttled by Azure (", detail, ")"),
        }
    } else if status == 504 {
        "the query timed out — narrow the time range and try again".to_owned()
    } else {
        let code = decimal(status as u128);
        cat2(cat3("query failed (", code.as_str(), "): ").as_str(), detail)
    }
}

/// Turns a failed response into something a user can act on.
pub fn describe_failure(status: u16, body: &str, retry_after: Option<&str>) -> (r: String)
    ensures
        r@ == failure_text(
            status as int,
            failure_detail(body@, parsed(body@)),
            match retry_after {
                Some(s) => Some(s@),
                None => None,
            },
        ),
{
    let outcome = parse(body);
    failure_from(status, body, &outcome, retry_after)
}

// ── Answers ───────────────────────────────────────────────────────────────

pub open spec fn is_success(status: int) -> bool {
    200 <= status <= 299
}

/// What a query answers, given what parsing the body gives. A good status can
/// still carry an error beside partial data.
pub open spec fn query_answer(
    status: int,
    body: Text,
    outcome: Result<JsonV, Text>,
    retry_after: Option<Text>,
) -> Result<Seq<JsonV>, Text> {
    if !is_success(status) {
        Err(failure_text(status, failure_detail(body, outcome), retry_after))
    } else {
        match outcome {
            Err(e) => Err("malformed response: "@ + e),
            Ok(v) => match v.get("error"@) {
                Some(e) => Err(error_message(e)),
                None => {
                    let rows = response_rows(v);
                    Ok(
                        if rows.len() <= MAX_ROWS {
                            rows
                        } else {
                            rows.take(MAX_ROWS as int)
                        },
                    )
                },
            },
        }
    }
}

/// What a metadata read answers, given what parsing the body gives.
pub open spec fn metadata_answer(
    status: int,
    body: Text,
    outcome: Result<JsonV, Text>,
) -> Result<Seq<TableMetaV>, Text> {
    if !is_success(status) {
        Err(failure_text(status, failure_detail(body, outcome), None))
    } else {
        match outcome {
            Err(e) => Err("malformed metadata: "@ + e),
            Ok(v) => Ok(metadata_tables(v)),
        }
    }
}

pub open spec fn outcome_view(outcome: Result<Json, String>) -> Result<JsonV, Text> {
    match outcome {
        Ok(v) => Ok(v@),
        Err(e) => Err(e@),
    }
}

pub open spec fn rows_view(r: Result<Vec<Json>, String>) -> Result<Seq<JsonV>, Text> {
    match r {
        Ok(v) => Ok(views(v@)),
        Err(e) => Err(e@),
    }
}

pub open spec fn tables_view(r: Result<Vec<TableMeta>, String>) -> Result<Seq<TableMetaV>, Text> {
    match r {
        Ok(v) => Ok(views(v@)),
        Err(e) => Err(e@),
    }
}

pub open spec fn opt_view(o: Option<&str>) -> Option<Text> {
    match o {
        Some(s) => Some(s@),
        None => None,
    }
}

/// What a query answers, given what parsing the body gave.
pub fn answer_from(
    status: u16,
    body: &str,
    outcome: Result<Json, String>,
    retry_after: Option<&str>,
) -> (r: Result<Vec<Json>, String>)
    ensures
        rows_view(r) == query_answer(
            status as int,
            body@,
            outcome_view(outcome),
            opt_view(retry_after),
        ),
{
    if !(200 <= status && status <= 299) {
        return Err(failure_from(status, body, &outcome, retry_after));
    }
    match outcome {
        Err(e) => Err(cat2("malformed response: ", e.as_str())),
        Ok(v) => match v.get("error") {
            Some(e) => Err(api_error_message(e)),
            None => {
                let mut rows = rows_of(&v);
                let ghost all = views(rows@);
                rows.truncate(MAX_ROWS);
                assert(views(rows@) =~= if all.len() <= MAX_ROWS {
                    all
                } else {
                    all.take(MAX_ROWS as int)
                });
                Ok(rows)
            },
        },
    }
}

/// The rows a query response carries, or why there are none.
pub fn read_answer(status: u16, body: &str, retry_after: Option<&str>) -> (r: Result<Vec<Json>, String>)
    ensures
        rows_view(r) == query_answer(status as int, body@, parsed(body@), opt_view(retry_after)),
        r matches Ok(rows) ==> rows@.len() <= MAX_ROWS,
{
    let r = answer_from(status, body, parse(body), retry_after);
    proof {
        assert(r is Ok ==> views(r->Ok_0@).len() == r->Ok_0@.len());
    }
    r
}

/// What a metadata read answers, given what parsing the body gave.
pub fn metadata_from(status: u16, body: &str, outcome: Result<Json, String>) -> (r: Result<
    Vec<TableMeta>,
    String,
>)
    ensures
        tables_view(r) == metadata_answer(status as int, body@, outcome_view(outcome)),
{
    if !(200 <= status && status <= 299) {
        return Err(failure_from(status, body, &outcome, None));
    }
    match outcome {
        Err(e) => Err(cat2("malformed metadata: ", e.as_str())),
        Ok(v) => Ok(tables_of(&v)),
    }
}

/// The tables a metadata response carries, or why there are none.
pub fn read_metadata(status: u16, body: &str) -> (r: Result<Vec<TableMeta>, String>)
    ensures
        tables_view(r) == metadata_answer(status as int, body@, parsed(body@)),
{
    metadata_from(status, body, parse(body))
}

// ── KQL construction ──────────────────────────────────────────────────────

/// A control character.
pub open spec fn is_control(c: char) -> bool {
    (c as int) < 0x20 || 0x7f <= (c as int) <= 0x9f
}

/// A character as it is written inside a string literal. A control character
/// that has no escape is dropped.
pub open spec fn escaped(c: char) -> Text {
    if c == '\\' {
        seq!['\\', '\\']
    } else if c == '"' {
        seq!['\\', '"']
    } else if c == '\n' {
        seq!['\\', 'n']
    } else if c == '\r' {
        seq!['\\', 'r']
    } else if c == '\t' {
        seq!['\\', 't']
    } else if is_control(c) {
        Seq::empty()
    } else {
        seq![c]
    }
}

pub open spec fn escaped_all(s: Text) -> Text
    decreases s.len(),
{
    if s.len() == 0 {
        Seq::empty()
    } else {
        escaped(s[0]) + escaped_all(s.drop_first())
    }
}

/// A value as a quoted string literal.
pub open spec fn literal(s: Text) -> Text {
    seq!['"'] + escaped_all(s) + seq!['"']
}

/// A value without the control characters a literal cannot carry.
pub open spec fn carried(s: Text) -> Text
    decreases s.len(),
{
    if s.len() == 0 {
        Seq::empty()
    } else if escaped(s[0]).len() == 0 {
        carried(s.drop_first())
    } else {
        seq![s[0]] + carried(s.drop_first())
    }
}

/// The character that a backslash and `c` stand for.
pub open spec fn unescaped(c: char) -> Option<char> {
    if c == 'n' {
        Some('\n')
    } else if c == 'r' {
        Some('\r')
    } else if c == 't' {
        Some('\t')
    } else if c == '\\' || c == '"' || c == '\'' {
        Some(c)
    } else {
        None
    }
}

/// How a query reader takes a quoted text off the front of `s`, from behind
/// the opening quote: the value, and what follows the closing quote.
pub open spec fn read_quoted(s: Text, quote: char) -> Option<(Text, Text)>
    decreases s.len(),
{
    if s.len() == 0 {
        None
    } else if s[0] == quote {
        Some((Seq::empty(), s.drop_first()))
    } else if s[0] == '\\' {
        if s.len() < 2 {
            None
        } else {
            match (unescaped(s[1]), read_quoted(s.skip(2), quote)) {
                (Some(c), Some((value, rest))) => Some((seq![c] + value, rest)),
                _ => None,
            }
        }
    } else {
        match read_quoted(s.drop_first(), quote) {
            Some((value, rest)) => Some((seq![s[0]] + value, rest)),
            None => None,
        }
    }
}

/// No value can end its own literal: whatever follows the literal in the
/// query, a reader takes exactly the value and is left with exactly what
/// follows.
pub proof fn literal_is_closed(value: Text, rest: Text)
    ensures
        literal(value)[0] == '"',
        read_quoted((literal(value) + rest).drop_first(), '"') == Some((carried(value), rest)),
{
    literal_body_reads(value, rest);
    assert((literal(value) + rest).drop_first() =~= escaped_all(value) + seq!['"'] + rest);
}

proof fn literal_body_reads(value: Text, rest: Text)
    ensures
        read_quoted(escaped_all(value) + seq!['"'] + rest, '"') == Some((carried(value), rest)),
    decreases value.len(),
{
    let text = escaped_all(value) + seq!['"'] + rest;
    if value.len() == 0 {
        assert(text.drop_first() =~= rest);
    } else {
        let tail = value.drop_first();
        let shorter = escaped_all(tail) + seq!['"'] + rest;
        literal_body_reads(tail, rest);
        let e = escaped(value[0]);
        assert(text =~= e + shorter);
        if e.len() == 0 {
            assert(text =~= shorter);
        } else if e.len() == 1 {
            assert(text.drop_first() =~= shorter);
        } else {
            assert(text.skip(2) =~= shorter);
        }
    }
}

/// A value is carried whole when its only control characters are those that
/// have an escape.
pub proof fn carried_whole(s: Text)
    requires
        forall|i: int|
            0 <= i < s.len() ==> !is_control(#[trigger] s[i]) || s[i] == '\n' || s[i] == '\r'
                || s[i] == '\t',
    ensures
        carried(s) == s,
    decreases s.len(),
{
    if s.len() > 0 {
        let t = s.drop_first();
        assert forall|i: int| 0 <= i < t.len() implies !is_control(#[trigger] t[i]) || t[i] == '\n'
            || t[i] == '\r' || t[i] == '\t' by {
            assert(t[i] == s[i + 1]);
        }
        carried_whole(t);
        assert(s =~= seq![s[0]] + t);
    }
}

/// No control character is ever emitted raw, whatever the value holds.
pub proof fn literals_hold_no_control_character(s: Text)
    ensures
        forall|i: int| 0 <= i < literal(s).len() ==> !is_control(#[trigger] literal(s)[i]),
{
    escapes_hold_no_control_character(s);
    assert forall|i: int| 0 <= i < literal(s).len() implies !is_control(#[trigger] literal(s)[i]) by {
        if 0 < i < literal(s).len() - 1 {
            assert(literal(s)[i] == escaped_all(s)[i - 1]);
        }
    }
}

proof fn escapes_hold_no_control_character(s: Text)
    ensures
        forall|i: int| 0 <= i < escaped_all(s).len() ==> !is_control(#[trigger] escaped_all(s)[i]),
    decreases s.len(),
{
    if s.len() > 0 {
        let head = escaped(s[0]);
        let tail = escaped_all(s.drop_first());
        escapes_hold_no_control_character(s.drop_first());
        assert forall|i: int| 0 <= i < escaped_all(s).len() implies !is_control(
            #[trigger] escaped_all(s)[i],
        ) by {
            if i < head.len() {
                assert(escaped_all(s)[i] == head[i]);
            } else {
                assert(escaped_all(s)[i] == tail[i - head.len()]);
            }
        }
    }
}

/// A value as a quoted, escaped string literal.
pub fn kql_string(value: &str) -> (r: String)
    ensures
        r@ == literal(value@),
{
    let chars = chars_of(value);
    let mut out: String = String::new();
    out.push('"');
    let mut i: usize = 0;
    assert(chars@.skip(0) =~= chars@);
    assert(out@ =~= seq!['"']);
    while i < chars.len()
        invariant
            i <= chars@.len(),
            out@ + escaped_all(chars@.skip(i as int)) == seq!['"'] + escaped_all(chars@),
        decreases chars@.len() - i,
    {
        let c: char = chars[i];
        let ghost before = out@;
        let ghost rest = chars@.skip(i as int);
        assert(rest[0] == c);
        assert(rest.drop_first() =~= chars@.skip(i + 1));
        if c == '\\' {
            out.push('\\');
            out.push('\\');
        } else if c == '"' {
            out.push('\\');
            out.push('"');
        } else if c == '\n' {
            out.push('\\');
            out.push('n');
        } else if c == '\r' {
            out.push('\\');
            out.push('r');
        } else if c == '\t' {
            out.push('\\');
            out.push('t');
        } else {
            let n: u32 = code_point(c);
            if n >= 0x20 && !(0x7f <= n && n <= 0x9f) {
                out.push(c);
            }
        }
        assert(out@ =~= before + escaped(c));
        assert(out@ + escaped_all(chars@.skip(i + 1)) =~= before + escaped_all(rest));
        i = i + 1;
    }
    assert(escaped_all(chars@.skip(i as int)) =~= Seq::empty());
    out.push('"');
    assert(out@ =~= literal(value@));
    out
}

/// A `let` statement that binds a value to a name.
pub open spec fn let_statement(name: Text, value: Text) -> Text {
    "let "@ + name + " = "@ + literal(value) + ";"@
}

/// Binds a user-supplied value to a KQL identifier. The value is read as one
/// string literal whatever it holds, and no control character of it stands
/// raw in the query.
pub fn let_literal(name: &str, value: &str) -> (r: String)
    ensures
        r@ == let_statement(name@, value@),
{
    cat5("let ", name, " = ", kql_string(value).as_str(), ";")
}

/// A character as it is written inside a bracket-quoted name.
pub open spec fn name_escaped(c: char) -> Text {
    if c == '\\' || c == '\'' {
        seq!['\\', c]
    } else {
        seq![c]
    }
}

pub open spec fn name_escaped_all(s: Text) -> Text
    decreases s.len(),
{
    if s.len() == 0 {
        Seq::empty()
    } else {
        name_escaped(s[0]) + name_escaped_all(s.drop_first())
    }
}

/// A bracket-quoted name.
pub open spec fn quoted_name(s: Text) -> Text {
    seq!['[', '\''] + name_escaped_all(s) + seq!['\'', ']']
}

/// A bracket-quoted name is read as exactly that name, whatever it holds.
pub proof fn quoted_name_is_closed(name: Text, rest: Text)
    ensures
        (quoted_name(name) + rest).take(2) == seq!['[', '\''],
        read_quoted((quoted_name(name) + rest).skip(2), '\'') == Some((name, seq![']'] + rest)),
{
    name_body_reads(name, seq![']'] + rest);
    assert((quoted_name(name) + rest).take(2) =~= seq!['[', '\'']);
    assert((quoted_name(name) + rest).skip(2) =~= name_escaped_all(name) + seq!['\''] + (seq![']']
        + rest));
}

proof fn name_body_reads(name: Text, rest: Text)
    ensures
        read_quoted(name_escaped_all(name) + seq!['\''] + rest, '\'') == Some((name, rest)),
    decreases name.len(),
{
    let text = name_escaped_all(name) + seq!['\''] + rest;
    if name.len() == 0 {
        assert(text.drop_first() =~= rest);
        assert(name =~= Seq::empty());
    } else {
        let tail = name.drop_first();
        let shorter = name_escaped_all(tail) + seq!['\''] + rest;
        name_body_reads(tail, rest);
        let e = name_escaped(name[0]);
        assert(text =~= e + shorter);
        assert(name =~= seq![name[0]] + tail);
        if e.len() == 1 {
            assert(text.drop_first() =~= shorter);
        } else {
            assert(text.skip(2) =~= shorter);
        }
    }
}

/// A table name safe to paste into a query.
pub fn table_ref(name: &str) -> (r: String)
    ensures
        r@ == quoted_name(name@),
{
    let chars = chars_of(name);
    let mut out: String = String::new();
    out.push('[');
    out.push('\'');
    let mut i: usize = 0;
    assert(chars@.skip(0) =~= chars@);
    assert(out@ =~= seq!['[', '\'']);
    while i < chars.len()
        invariant
            i <= chars@.len(),
            out@ + name_escaped_all(chars@.skip(i as int)) == seq!['[', '\''] + name_escaped_all(
                chars@,
            ),
        decreases chars@.len() - i,
    {
        let c: char = chars[i];
        let ghost before = out@;
        let ghost rest = chars@.skip(i as int);
        assert(rest[0] == c);
        assert(rest.drop_first() =~= chars@.skip(i + 1));
        if c == '\\' || c == '\'' {
            out.push('\\');
        }
        out.push(c);
        assert(out@ =~= before + name_escaped(c));
        assert(out@ + name_escaped_all(chars@.skip(i + 1)) =~= before + name_escaped_all(rest));
        i = i + 1;
    }
    assert(name_escaped_all(chars@.skip(i as int)) =~= Seq::empty());
    out.push('\'');
    out.push(']');
    assert(out@ =~= quoted_name(name@));
    out
}

/// A column reference: each part of a dotted path bracket-quoted.
pub open spec fn column_reference(path: Text) -> Text {
    concatenated(pieces(path, '.').map_values(|p: Text| quoted_name(p)))
}

/// A column reference safe to paste into a query. A dotted path indexes into
/// a dynamic column.
pub fn column_ref(path: &str) -> (r: String)
    ensures
        r@ == column_reference(path@),
{
    let parts = split(path, '.');
    let mut quoted: Vec<String> = Vec::new();
    let mut i: usize = 0;
    while i < parts.len()
        invariant
            i <= parts@.len(),
            quoted@.len() == i,
            forall|k: int| 0 <= k < i ==> (#[trigger] quoted@[k])@ == quoted_name(parts@[k]@),
        decreases parts@.len() - i,
    {
        quoted.push(table_ref(parts[i].as_str()));
        i = i + 1;
    }
    assert(views(quoted@) =~= pieces(path@, '.').map_values(|p: Text| quoted_name(p)));
    concat_all(&quoted)
}

// ── What an answer holds ──────────────────────────────────────────────────

/// What a row reads under a name is the cell of the last column of that name
/// that has a value; a column without a name is never read.
pub proof fn cells_are_read_under_their_column(
    names: Seq<Text>,
    cells: Seq<JsonV>,
    n: int,
    j: int,
    name: Text,
)
    requires
        0 <= n <= names.len(),
        n <= cells.len(),
        -1 <= j < n,
        name.len() > 0,
        j >= 0 ==> names[j] == name && !(cells[j] is Null),
        forall|k: int| j < k < n ==> (#[trigger] names[k]) != name || cells[k] is Null,
    ensures
        j >= 0 ==> member(row_members(names, cells, n), name) == Some(dynamic_value(cells[j])),
        j == -1 ==> member(row_members(names, cells, n), name) is None,
        row_object(names, JsonV::Array(cells)).get(name) == if n == names.len() || n
            == cells.len() {
            member(row_members(names, cells, n), name)
        } else {
            row_object(names, JsonV::Array(cells)).get(name)
        },
    decreases n,
{
    if n > 0 {
        let before = row_members(names, cells, n - 1);
        if !(names[n - 1].len() == 0 || cells[n - 1] is Null) {
            with_member_reads(before, names[n - 1], dynamic_value(cells[n - 1]), name);
        }
        if j < n - 1 {
            assert(names[n - 1] != name || cells[n - 1] is Null);
            cells_are_read_under_their_column(names, cells, n - 1, j, name);
        }
    }
}

/// A text that opens as an object or a list does is read as one where it
/// can be; every other cell stays as it is.
pub proof fn only_documents_are_unwrapped(cell: JsonV, t: Text, v: JsonV, e: Text)
    ensures
        !(cell is Text) ==> dynamic_value(cell) == cell,
        cell == JsonV::Text(t) && parsed(t) == Err::<JsonV, Text>(e) ==> dynamic_value(cell)
            == cell,
        cell == JsonV::Text(t) && parsed(t) == Ok::<JsonV, Text>(v) && t.len() > 0 && (t[0] == '{'
            || t[0] == '[') ==> dynamic_value(cell) == v,
        cell == JsonV::Text(t) && trim_start_of(t).len() > 0 && trim_start_of(t)[0] != '{'
            && trim_start_of(t)[0] != '[' ==> dynamic_value(cell) == cell,
        cell == JsonV::Text(t) && trim_start_of(t).len() == 0 ==> dynamic_value(cell) == cell,
{
    if t.len() > 0 && (t[0] == '{' || t[0] == '[') {
        assert(trim_start_of(t) == t);
    }
}

/// The rows are those of the first table named as the primary result, or
/// else of the first table, one for one; each is read under that table's own
/// columns.
pub proof fn rows_are_of_the_primary_table(
    body: JsonV,
    tables: Seq<JsonV>,
    p: int,
    cols: Seq<JsonV>,
    rows: Seq<JsonV>,
    i: int,
)
    requires
        body.get("tables"@) == Some(JsonV::Array(tables)),
        0 <= p < tables.len(),
        tables[p].get("name"@) == Some(JsonV::Text("PrimaryResult"@)) || p == 0 && forall|j: int|
            0 <= j < tables.len() ==> (#[trigger] tables[j]).get("name"@) != Some(
                JsonV::Text("PrimaryResult"@),
            ),
        forall|j: int|
            0 <= j < p ==> (#[trigger] tables[j]).get("name"@) != Some(
                JsonV::Text("PrimaryResult"@),
            ),
        tables[p].get("columns"@) == Some(JsonV::Array(cols)),
        tables[p].get("rows"@) == Some(JsonV::Array(rows)),
    ensures
        response_rows(body).len() == rows.len(),
        0 <= i < rows.len() ==> response_rows(body)[i] == row_object(
            Seq::new(
                cols.len(),
                |c: int|
                    match cols[c].get("name"@) {
                        Some(JsonV::Text(t)) => t,
                        _ => Seq::empty(),
                    },
            ),
            rows[i],
        ),
{
    let named = tables[p].get("name"@) == Some(JsonV::Text("PrimaryResult"@));
    first_result(
        tables,
        if named {
            p
        } else {
            tables.len() as int
        },
    );
    assert(column_names(tables[p]) =~= Seq::new(
        cols.len(),
        |c: int|
            match cols[c].get("name"@) {
                        Some(JsonV::Text(t)) => t,
                        _ => Seq::empty(),
                    },
    ));
}

proof fn first_result(tables: Seq<JsonV>, p: int)
    requires
        0 <= p <= tables.len(),
        p < tables.len() ==> tables[p].get("name"@) == Some(JsonV::Text("PrimaryResult"@)),
        forall|j: int|
            0 <= j < p ==> (#[trigger] tables[j]).get("name"@) != Some(
                JsonV::Text("PrimaryResult"@),
            ),
    ensures
        p < tables.len() ==> named_result(tables) == Some(tables[p]),
        p == tables.len() ==> named_result(tables) is None,
    decreases p,
{
    if p > 0 {
        let rest = tables.drop_first();
        assert(tables[0].get("name"@) != Some(JsonV::Text("PrimaryResult"@)));
        assert forall|j: int| 0 <= j < p - 1 implies (#[trigger] rest[j]).get("name"@) != Some(
            JsonV::Text("PrimaryResult"@),
        ) by {
            assert(rest[j] == tables[j + 1]);
        }
        first_result(rest, p - 1);
    }
}

proof fn columns_filter(cols: Seq<JsonV>)
    ensures
        columns_meta(cols) == cols.filter(
            |c: JsonV| c.get("name"@) matches Some(JsonV::Text(_)),
        ).map_values(|c: JsonV| column_meta(c)->0),
    decreases cols.len(),
{
    reveal(Seq::filter);
    let p = |c: JsonV| c.get("name"@) matches Some(JsonV::Text(_));
    let f = |c: JsonV| column_meta(c)->0;
    if cols.len() > 0 {
        columns_filter(cols.drop_last());
        let part = cols.drop_last().filter(p);
        if p(cols.last()) {
            assert(part.push(cols.last()).map_values(f) =~= part.map_values(f).push(
                f(cols.last()),
            ));
        }
    } else {
        assert(cols.filter(p).map_values(f) =~= Seq::empty());
    }
}

proof fn tables_filter(tables: Seq<JsonV>)
    ensures
        tables_meta(tables) == tables.filter(
            |t: JsonV| t.get("name"@) matches Some(JsonV::Text(_)),
        ).map_values(|t: JsonV| table_meta(t)->0),
    decreases tables.len(),
{
    reveal(Seq::filter);
    let p = |t: JsonV| t.get("name"@) matches Some(JsonV::Text(_));
    let f = |t: JsonV| table_meta(t)->0;
    if tables.len() > 0 {
        tables_filter(tables.drop_last());
        let part = tables.drop_last().filter(p);
        if p(tables.last()) {
            assert(part.push(tables.last()).map_values(f) =~= part.map_values(f).push(
                f(tables.last()),
            ));
        }
    } else {
        assert(tables.filter(p).map_values(f) =~= Seq::empty());
    }
}

/// Every table and every column that has a name is declared, in order, each
/// column with the type under `type`.
pub proof fn declarations_are_of_what_has_a_name(
    body: JsonV,
    tables: Seq<JsonV>,
    t: JsonV,
    cols: Seq<JsonV>,
    c: JsonV,
    name: Text,
    kind: Text,
)
    requires
        body.get("tables"@) == Some(JsonV::Array(tables)),
    ensures
        metadata_tables(body) == tables.filter(
            |t: JsonV| t.get("name"@) matches Some(JsonV::Text(_)),
        ).map_values(|t: JsonV| table_meta(t)->0),
        t.get("name"@) == Some(JsonV::Text(name)) ==> (table_meta(t)->0).name == name,
        t.get("name"@) == Some(JsonV::Text(name)) && t.get("columns"@) == Some(JsonV::Array(cols))
            ==> (table_meta(t)->0).columns == cols.filter(
            |c: JsonV| c.get("name"@) matches Some(JsonV::Text(_)),
        ).map_values(|c: JsonV| column_meta(c)->0),
        c.get("name"@) == Some(JsonV::Text(name)) ==> (column_meta(c)->0).name == name,
        c.get("name"@) == Some(JsonV::Text(name)) && c.get("type"@) == Some(JsonV::Text(kind))
            ==> (column_meta(c)->0).kind == kind,
        c.get("name"@) == Some(JsonV::Text(name)) && c.get("type"@) is None ==> (column_meta(
            c,
        )->0).kind.len() == 0,
{
    tables_filter(tables);
    columns_filter(cols);
}

// ── What a failure says ───────────────────────────────────────────────────

/// An error says what the error inside it says, as soon as that one says
/// anything; its own message is kept only where the inner one has none.
pub proof fn the_innermost_message_is_told(e: JsonV, i: JsonV, best: Text, m: Text)
    requires
        e.get("innererror"@) == Some(i) || (e.get("innererror"@) is None && e.get("innerError"@)
            == Some(i)),
    ensures
        i.get("message"@) == Some(JsonV::Text(m)) && m.len() > 0 ==> innermost(e, best)
            == innermost(i, Seq::empty()),
        i.get("innererror"@) is None && i.get("innerError"@) is None && i.get("message"@) == Some(
            JsonV::Text(m),
        ) && m.len() > 0 ==> error_message(e) == m,
        i.get("innererror"@) is None && i.get("innerError"@) is None && i.get("message"@) is None
            && e.get("message"@) == Some(JsonV::Text(m)) && m.len() > 0 ==> error_message(e) == m,
{
    reveal_with_fuel(innermost, 3);
}

/// An error with nothing inside says its own message, and one without a
/// message is unknown.
pub proof fn plain_errors_say_their_message(e: JsonV, m: Text)
    requires
        e.get("innererror"@) is None,
        e.get("innerError"@) is None,
    ensures
        e.get("message"@) == Some(JsonV::Text(m)) && m.len() > 0 ==> error_message(e) == m,
        e.get("message"@) is None ==> error_message(e) == "unknown error"@,
{
}

/// What is told of a failure is the error of its body; of a body that holds
/// none, its first three hundred characters.
pub proof fn failures_tell_the_error(body: Text, v: JsonV, e: JsonV, x: Text)
    ensures
        v.get("error"@) == Some(e) ==> failure_detail(body, Ok(v)) == error_message(e),
        v.get("error"@) is None && trimmed(body).len() <= 300 ==> failure_detail(body, Ok(v))
            == trimmed(body),
        trimmed(body).len() <= 300 ==> failure_detail(body, Err(x)) == trimmed(body),
        trimmed(body).len() > 300 ==> failure_detail(body, Err(x)).len() == 300 && failure_detail(
            body,
            Err(x),
        ) == trimmed(body).subrange(0, 300),
{
    if trimmed(body).len() > 300 {
        assert(trimmed(body).take(300) =~= trimmed(body).subrange(0, 300));
    }
}

/// An answer is one exactly when its status says so, it can be read, and it
/// holds no error. It then holds the rows, of which five thousand are kept.
pub proof fn answers_hold_the_rows(
    status: int,
    body: Text,
    outcome: Result<JsonV, Text>,
    retry_after: Option<Text>,
)
    ensures
        query_answer(status, body, outcome, retry_after) is Ok <==> status >= 200 && status < 300
            && outcome is Ok && (outcome->Ok_0).get("error"@) is None,
        query_answer(status, body, outcome, retry_after) matches Ok(rows) ==> {
            let all = response_rows(outcome->Ok_0);
            &&& all.len() <= 5_000 ==> rows == all
            &&& all.len() > 5_000 ==> rows.len() == 5_000
            &&& forall|i: int| 0 <= i < rows.len() ==> (#[trigger] rows[i]) == all[i]
        },
        metadata_answer(status, body, outcome) is Ok <==> status >= 200 && status < 300
            && outcome is Ok,
        metadata_answer(status, body, outcome) matches Ok(tables) ==> tables == metadata_tables(
            outcome->Ok_0,
        ),
        status >= 200 && status < 300 && outcome is Ok && (outcome->Ok_0).get("error"@) is Some
            ==> query_answer(status, body, outcome, retry_after) == Err::<Seq<JsonV>, Text>(
            error_message((outcome->Ok_0).get("error"@)->0),
        ),
{
}

/// A path is quoted part by part, every part in order.
pub proof fn paths_are_quoted_part_by_part(path: Text)
    ensures
        column_reference(path) == pieces(path, '.').fold_left(
            Seq::<char>::empty(),
            |before: Text, part: Text| before + quoted_name(part),
        ),
        !path.contains('.') ==> column_reference(path) == quoted_name(path),
{
    let parts = pieces(path, '.');
    quoted_in_order(parts);
    if !path.contains('.') {
        one_piece(path);
        let quoted = parts.map_values(|p: Text| quoted_name(p));
        assert(quoted.drop_last() =~= Seq::empty());
        assert(concatenated(quoted.drop_last()).len() == 0);
        assert(quoted.last() == quoted_name(path));
        assert(column_reference(path) =~= quoted_name(path));
    }
}

proof fn quoted_in_order(parts: Seq<Text>)
    ensures
        concatenated(parts.map_values(|p: Text| quoted_name(p))) == parts.fold_left(
            Seq::<char>::empty(),
            |before: Text, part: Text| before + quoted_name(part),
        ),
    decreases parts.len(),
{
    let quoted = parts.map_values(|p: Text| quoted_name(p));
    if parts.len() > 0 {
        quoted_in_order(parts.drop_last());
        assert(quoted.drop_last() =~= parts.drop_last().map_values(|p: Text| quoted_name(p)));
        assert(quoted.last() == quoted_name(parts.last()));
    }
}

proof fn one_piece(path: Text)
    requires
        !path.contains('.'),
    ensures
        pieces(path, '.') == seq![path],
    decreases path.len(),
{
    if path.len() > 0 {
        let short = path.drop_last();
        assert forall|i: int| 0 <= i < short.len() implies short[i] != '.' by {
            assert(path.contains(path[i]));
        }
        one_piece(short);
        assert(path.contains(path[path.len() - 1]));
        assert(short.push(path.last()) =~= path);
        assert(pieces(path, '.') =~= seq![path]);
    } else {
        assert(path =~= Seq::empty());
    }
}

/// Each range asks for the duration that its label tells.
pub proof fn ranges_ask_for_what_they_tell(range: TimeRange)
    ensures
        range is LastHour ==> range.iso_text() == "PT1H"@ && range.label_text() == "Last hour"@,
        range is Last2Hours ==> range.iso_text() == "PT2H"@ && range.label_text()
            == "Last 2 hours"@,
        range is Last4Hours ==> range.iso_text() == "PT4H"@ && range.label_text()
            == "Last 4 hours"@,
        range is LastDay ==> range.iso_text() == "P1D"@ && range.label_text() == "Last 24 hours"@,
        range is LastWeek ==> range.iso_text() == "P7D"@ && range.label_text() == "Last 7 days"@,
        range is Last30Days ==> range.iso_text() == "P30D"@ && range.label_text()
            == "Last 30 days"@,
{
}

} // verus!
