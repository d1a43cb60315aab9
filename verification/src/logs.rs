//! The log stream, filtered, and every line traceable.
//!
//! No column is named here: the table, the timestamp, the message and the
//! severity arrive as discovered roles.

use crate::clock::{parse_time, time_of};
use crate::discover::{Insights, InsightsV};
use crate::json::{Json, JsonV, NumberV};
use crate::keys::{KeyCandidate, KeyV};
use crate::loganalytics::{
    column_ref, column_reference, kql_string, literal, quoted_name, table_ref,
};
use crate::schema::{copy_texts, FieldInfo, FieldV, TableSchema, TableV};
use crate::signals::{
    all_bound, busiest, busiest_is_listed, busiest_of, cell_text, column_in, field_for,
    first_present, key_field_for, label_for, label_in, meeting, meeting_means_both, meeting_tables,
    present_label, rows_in, rows_named, text, time_column_for, time_or_ingestion,
};
use crate::text::{
    ascii_lowered, cat3, cat5, same, same_ignoring_case, same_letters, trim, trimmed, views, Text,
};
use vstd::prelude::*;

verus! {

#[derive(Debug, PartialEq)]
pub struct Spec {
    pub table: String,
    pub time_field: String,
    pub message_field: String,
    /// Empty when nothing reads as a severity.
    pub severity_field: String,
    pub key_field: String,
}

#[verifier::ext_equal]
pub ghost struct SpecV {
    pub table: Text,
    pub time_field: Text,
    pub message_field: Text,
    pub severity_field: Text,
    pub key_field: Text,
}

impl View for Spec {
    type V = SpecV;

    open spec fn view(&self) -> SpecV {
        SpecV {
            table: self.table@,
            time_field: self.time_field@,
            message_field: self.message_field@,
            severity_field: self.severity_field@,
            key_field: self.key_field@,
        }
    }
}

pub open spec fn no_spec() -> SpecV {
    SpecV {
        table: Seq::empty(),
        time_field: Seq::empty(),
        message_field: Seq::empty(),
        severity_field: Seq::empty(),
        key_field: Seq::empty(),
    }
}

impl Default for Spec {
    fn default() -> (r: Spec)
        ensures
            r@ == no_spec(),
    {
        let r = Spec {
            table: String::new(),
            time_field: String::new(),
            message_field: String::new(),
            severity_field: String::new(),
            key_field: String::new(),
        };
        assert(r@ =~= no_spec());
        r
    }
}

pub open spec fn usable(s: SpecV) -> bool {
    s.table.len() > 0 && s.message_field.len() > 0
}

impl Spec {
    pub fn is_usable(&self) -> (r: bool)
        ensures
            r == usable(self@),
    {
        !self.table.as_str().is_empty() && !self.message_field.as_str().is_empty()
    }
}

/// What was narrowed to. Both parts are optional, and compose.
#[derive(Debug, PartialEq)]
pub struct Filter {
    pub text: String,
    pub severity: String,
}

#[verifier::ext_equal]
pub ghost struct FilterV {
    pub text: Text,
    pub severity: Text,
}

impl View for Filter {
    type V = FilterV;

    open spec fn view(&self) -> FilterV {
        FilterV { text: self.text@, severity: self.severity@ }
    }
}

impl Default for Filter {
    fn default() -> (r: Filter)
        ensures
            r@ == (FilterV { text: Seq::empty(), severity: Seq::empty() }),
    {
        let r = Filter { text: String::new(), severity: String::new() };
        assert(r@ =~= (FilterV { text: Seq::empty(), severity: Seq::empty() }));
        r
    }
}

/// A log line.
#[derive(Debug, PartialEq)]
pub struct Entry {
    /// Epoch milliseconds, when the timestamp could be read.
    pub at: Option<i64>,
    pub at_text: String,
    pub severity: String,
    pub message: String,
    /// The value to follow. Empty when the line carries none.
    pub key_value: String,
}

#[verifier::ext_equal]
pub ghost struct EntryV {
    pub at: Option<i64>,
    pub at_text: Text,
    pub severity: Text,
    pub message: Text,
    pub key_value: Text,
}

impl View for Entry {
    type V = EntryV;

    open spec fn view(&self) -> EntryV {
        EntryV {
            at: self.at,
            at_text: self.at_text@,
            severity: self.severity@,
            message: self.message@,
            key_value: self.key_value@,
        }
    }
}

// ── Choosing a table ──────────────────────────────────────────────────────

/// What the log view reads: the table where the key and free text meet, with
/// the most rows behind it.
pub open spec fn proposal(
    schemas: Seq<TableV>,
    insights: InsightsV,
    key: KeyV,
    time_id: Text,
) -> SpecV {
    match busiest(schemas, meeting(key, insights.messages)) {
        None => no_spec(),
        Some(table) => SpecV {
            table,
            time_field: time_or_ingestion(schemas, table, time_id),
            message_field: label_in(insights.messages, table),
            severity_field: first_present(schemas, table, insights.severities),
            key_field: field_for(key, table),
        },
    }
}

/// Picks the table and columns that the log view reads.
pub fn propose(
    schemas: &Vec<TableSchema>,
    insights: &Insights,
    key: &KeyCandidate,
    time_id: &str,
) -> (r: Spec)
    ensures
        r@ == proposal(views(schemas@), insights@, key@, time_id@),
{
    let pool = meeting_tables(key, &insights.messages);
    match busiest_of(schemas, &pool) {
        None => Spec::default(),
        Some(table) => {
            let t = table.as_str();
            Spec {
                time_field: time_column_for(schemas, t, time_id),
                message_field: label_for(&insights.messages, t),
                severity_field: present_label(schemas, t, &insights.severities),
                key_field: key_field_for(key, t),
                table,
            }
        },
    }
}

/// The rows in range of the first table of that name.
pub fn rows_of(schemas: &Vec<TableSchema>, name: &str) -> (r: usize)
    ensures
        r == rows_named(views(schemas@), name@),
{
    rows_in(schemas, name)
}

/// Whether a table has a named column.
pub fn has_column(schemas: &Vec<TableSchema>, table: &str, name: &str) -> (r: bool)
    ensures
        r == crate::signals::named_column_in(views(schemas@), table@, name@),
{
    crate::signals::has_column(schemas, table, name)
}

/// The values of the first field of that name.
pub open spec fn values_among(fields: Seq<FieldV>, name: Text) -> Option<Seq<Text>>
    decreases fields.len(),
{
    if fields.len() == 0 {
        None
    } else if same_letters(fields[0].name, name) {
        Some(fields[0].values)
    } else {
        values_among(fields.drop_first(), name)
    }
}

/// The sampled values of a table's column.
pub open spec fn column_values(schemas: Seq<TableV>, table: Text, name: Text) -> Seq<Text>
    decreases schemas.len(),
{
    if schemas.len() == 0 {
        Seq::empty()
    } else if schemas[0].table == table && values_among(schemas[0].fields, name) is Some {
        values_among(schemas[0].fields, name)->0
    } else {
        column_values(schemas.drop_first(), table, name)
    }
}

fn find_values(fields: &Vec<FieldInfo>, name: &str) -> (r: Option<Vec<String>>)
    ensures
        match r {
            Some(v) => values_among(views(fields@), name@) == Some(views(v@)),
            None => values_among(views(fields@), name@) is None,
        },
{
    let ghost fv = views(fields@);
    let mut i: usize = 0;
    assert(fv.skip(0) =~= fv);
    while i < fields.len()
        invariant
            i <= fields@.len(),
            fv == views(fields@),
            values_among(fv, name@) == values_among(fv.skip(i as int), name@),
        decreases fields@.len() - i,
    {
        assert(fv.skip(i as int)[0] == fields@[i as int]@);
        assert(fv.skip(i as int).drop_first() =~= fv.skip(i + 1));
        if same_ignoring_case(fields[i].name.as_str(), name) {
            return Some(copy_texts(fields[i].values.items()));
        }
        i = i + 1;
    }
    assert(fv.skip(i as int) =~= Seq::empty());
    None
}

/// The severity values seen, for the filter to offer. They are read off the
/// scan: a round-trip to fill a list is one the user waits for.
pub fn severities(schemas: &Vec<TableSchema>, spec_: &Spec) -> (r: Vec<String>)
    ensures
        views(r@) == if spec_@.severity_field.len() == 0 {
            Seq::empty()
        } else {
            column_values(views(schemas@), spec_@.table, spec_@.severity_field)
        },
{
    let none: Vec<String> = Vec::new();
    assert(views(none@) =~= Seq::<Text>::empty());
    if spec_.severity_field.as_str().is_empty() {
        return none;
    }
    let ghost sv = views(schemas@);
    let table = spec_.table.as_str();
    let name = spec_.severity_field.as_str();
    let mut i: usize = 0;
    assert(sv.skip(0) =~= sv);
    while i < schemas.len()
        invariant
            i <= schemas@.len(),
            sv == views(schemas@),
            table@ == spec_@.table,
            name@ == spec_@.severity_field,
            spec_@.severity_field.len() > 0,
            column_values(sv, table@, name@) == column_values(sv.skip(i as int), table@, name@),
        decreases schemas@.len() - i,
    {
        assert(sv.skip(i as int)[0] == schemas@[i as int]@);
        assert(sv.skip(i as int).drop_first() =~= sv.skip(i + 1));
        if same(schemas[i].table.as_str(), table) {
            if let Some(v) = find_values(&schemas[i].fields, name) {
                return v;
            }
        }
        i = i + 1;
    }
    assert(sv.skip(i as int) =~= Seq::empty());
    none
}

// ── Query ─────────────────────────────────────────────────────────────────

/// What the text filter adds. It matches substrings: part of a token means
/// the part.
pub open spec fn text_clause(s: SpecV, f: FilterV) -> Text {
    if trimmed(f.text).len() == 0 {
        Seq::empty()
    } else {
        "| where tostring("@ + column_reference(s.message_field) + ") contains "@ + literal(
            trimmed(f.text),
        ) + "\n"@
    }
}

/// What the severity filter adds: nothing where there is no severity.
pub open spec fn severity_clause(s: SpecV, f: FilterV) -> Text {
    if f.severity.len() == 0 || s.severity_field.len() == 0 {
        Seq::empty()
    } else {
        "| where tostring("@ + column_reference(s.severity_field) + ") =~ "@ + literal(f.severity)
            + "\n"@
    }
}

pub open spec fn severity_column(s: SpecV) -> Text {
    if s.severity_field.len() == 0 {
        "    Severity = \"\",\n"@
    } else {
        "    Severity = tostring("@ + column_reference(s.severity_field) + "),\n"@
    }
}

pub open spec fn key_column(s: SpecV) -> Text {
    if s.key_field.len() == 0 {
        "    Key = \"\""@
    } else {
        "    Key = tostring("@ + column_reference(s.key_field) + ")"@
    }
}

pub open spec fn query_text(s: SpecV, f: FilterV) -> Text {
    quoted_name(s.table) + "\n"@ + (text_clause(s, f) + severity_clause(s, f))
        + "| project\n    At = "@ + column_reference(s.time_field) + ",\n"@ + severity_column(s)
        + "    Message = tostring("@ + column_reference(s.message_field) + "),\n"@ + key_column(s)
        + "\n| order by At desc\n| take 300"@
}

/// The lines that pass a filter, newest first, each with its value to
/// follow.
pub fn query(spec_: &Spec, filter: &Filter) -> (r: String)
    ensures
        r@ == query_text(spec_@, filter@),
{
    let needle = trim(filter.text.as_str());
    let mut clauses: String = String::new();
    assert(clauses@ =~= Seq::empty());
    if !needle.as_str().is_empty() {
        clauses = cat5(
            "| where tostring(",
            column_ref(spec_.message_field.as_str()).as_str(),
            ") contains ",
            kql_string(needle.as_str()).as_str(),
            "\n",
        );
    }
    assert(clauses@ == text_clause(spec_@, filter@));
    if !filter.severity.as_str().is_empty() && !spec_.severity_field.as_str().is_empty() {
        let more = cat5(
            "| where tostring(",
            column_ref(spec_.severity_field.as_str()).as_str(),
            ") =~ ",
            kql_string(filter.severity.as_str()).as_str(),
            "\n",
        );
        clauses.append(more.as_str());
    } else {
        assert(clauses@ =~= text_clause(spec_@, filter@) + severity_clause(spec_@, filter@));
    }
    let severity: String = if spec_.severity_field.as_str().is_empty() {
        "    Severity = \"\",\n".to_owned()
    } else {
        cat3(
            "    Severity = tostring(",
            column_ref(spec_.severity_field.as_str()).as_str(),
            "),\n",
        )
    };
    let key: String = if spec_.key_field.as_str().is_empty() {
        "    Key = \"\"".to_owned()
    } else {
        cat3("    Key = tostring(", column_ref(spec_.key_field.as_str()).as_str(), ")")
    };
    let mut r = cat5(
        table_ref(spec_.table.as_str()).as_str(),
        "\n",
        clauses.as_str(),
        "| project\n    At = ",
        column_ref(spec_.time_field.as_str()).as_str(),
    );
    r.append(",\n");
    r.append(severity.as_str());
    r.append("    Message = tostring(");
    r.append(column_ref(spec_.message_field.as_str()).as_str());
    r.append("),\n");
    r.append(key.as_str());
    r.append("\n| order by At desc\n| take 300");
    r
}

// ── Rows ──────────────────────────────────────────────────────────────────

pub fn text_of(row: &Json, field: &str) -> (r: String)
    ensures
        r@ == cell_text(row@.get(field@)),
{
    text(row, field)
}

pub open spec fn entry_of(row: JsonV) -> EntryV {
    EntryV {
        at: match row.get("At"@) {
            Some(v) => time_of(v),
            None => None,
        },
        at_text: cell_text(row.get("At"@)),
        severity: cell_text(row.get("Severity"@)),
        message: cell_text(row.get("Message"@)),
        key_value: cell_text(row.get("Key"@)),
    }
}

pub fn build(row: &Json) -> (r: Entry)
    ensures
        r@ == entry_of(row@),
        r.at == match row@.get("At"@) {
            Some(v) => time_of(v),
            None => None,
        },
        r.at_text@ == cell_text(row@.get("At"@)),
        r.severity@ == cell_text(row@.get("Severity"@)),
        r.message@ == cell_text(row@.get("Message"@)),
        r.key_value@ == cell_text(row@.get("Key"@)),
{
    let at: Option<i64> = match row.get("At") {
        Some(v) => parse_time(v),
        None => None,
    };
    Entry {
        at,
        at_text: text_of(row, "At"),
        severity: text_of(row, "Severity"),
        message: text_of(row, "Message"),
        key_value: text_of(row, "Key"),
    }
}

/// The query of the view; none when the spec is not usable.
pub fn load_query(spec_: &Spec, filter: &Filter) -> (r: Option<String>)
    ensures
        match r {
            Some(q) => usable(spec_@) && q@ == query_text(spec_@, filter@),
            None => !usable(spec_@),
        },
{
    if spec_.is_usable() {
        Some(query(spec_, filter))
    } else {
        None
    }
}

/// The lines that the answer to the query holds.
pub fn entries(rows: &Vec<Json>) -> (r: Vec<Entry>)
    ensures
        views(r@) == views(rows@).map_values(|v: JsonV| entry_of(v)),
{
    let ghost rv = views(rows@);
    let mut out: Vec<Entry> = Vec::new();
    let mut i: usize = 0;
    while i < rows.len()
        invariant
            i <= rows@.len(),
            rv == views(rows@),
            out@.len() == i,
            forall|k: int| 0 <= k < i ==> (#[trigger] out@[k])@ == entry_of(rv[k]),
        decreases rows@.len() - i,
    {
        out.push(build(&rows[i]));
        i = i + 1;
    }
    assert(views(out@) =~= rv.map_values(|v: JsonV| entry_of(v)));
    out
}

/// With nothing to narrow to, the filter adds nothing; and a severity filter
/// never reaches a table that has no severity.
pub proof fn filters_are_optional(s: SpecV, f: FilterV)
    ensures
        trimmed(f.text).len() == 0 && f.severity.len() == 0 ==> text_clause(s, f).len() == 0
            && severity_clause(s, f).len() == 0,
        s.severity_field.len() == 0 ==> severity_clause(s, f).len() == 0,
{
}

/// The log view reads a table where the key and free text meet, and reads
/// something as soon as they do.
pub proof fn logs_are_where_messages_meet(
    schemas: Seq<TableV>,
    insights: InsightsV,
    key: KeyV,
    time_id: Text,
    d: int,
    t: Text,
)
    requires
        0 <= d < insights.messages.len(),
        insights.messages[d].tables.contains(t),
        all_bound(key).contains(t),
    ensures
        meeting(key, insights.messages).contains(
            proposal(schemas, insights, key, time_id).table,
        ),
{
    meeting_means_both(key, insights.messages, t);
    busiest_is_listed(schemas, meeting(key, insights.messages));
}

// ── What a line holds ─────────────────────────────────────────────────────

/// A line's message is the text of the row's cell `Message`, and each other
/// part of it that of the cell of its own name. A cell that is missing or
/// null says nothing.
pub proof fn lines_hold_their_own_cells(row: JsonV, t: Text, n: NumberV)
    ensures
        row.get("Message"@) == Some(JsonV::Text(t)) ==> entry_of(row).message == t,
        row.get("Severity"@) == Some(JsonV::Text(t)) ==> entry_of(row).severity == t,
        row.get("Key"@) == Some(JsonV::Text(t)) ==> entry_of(row).key_value == t,
        row.get("At"@) == Some(JsonV::Text(t)) ==> entry_of(row).at_text == t,
        row.get("Message"@) == Some(JsonV::Number(n)) ==> entry_of(row).message == n.text,
        row.get("Severity"@) == Some(JsonV::Number(n)) ==> entry_of(row).severity == n.text,
        row.get("Key"@) == Some(JsonV::Number(n)) ==> entry_of(row).key_value == n.text,
        row.get("At"@) == Some(JsonV::Number(n)) ==> entry_of(row).at_text == n.text,
        row.get("Message"@) is None || row.get("Message"@) == Some(JsonV::Null) ==> entry_of(
            row,
        ).message.len() == 0,
        row.get("Severity"@) is None || row.get("Severity"@) == Some(JsonV::Null) ==> entry_of(
            row,
        ).severity.len() == 0,
        row.get("Key"@) is None || row.get("Key"@) == Some(JsonV::Null) ==> entry_of(
            row,
        ).key_value.len() == 0,
        row.get("At"@) is None ==> entry_of(row).at is None && entry_of(row).at_text.len() == 0,
        row.get("At"@) matches Some(v) ==> entry_of(row).at == time_of(v),
{
}

/// What is read of the table where the key and free text meet: the time
/// column asked for, or else ingestion time; the message and the severity as
/// the table has them; and the key.
pub proof fn logs_read_the_tables_own_columns(
    schemas: Seq<TableV>,
    insights: InsightsV,
    key: KeyV,
    time_id: Text,
)
    ensures
        ({
            let p = proposal(schemas, insights, key, time_id);
            let t = p.table;
            &&& meeting(key, insights.messages).len() > 0 ==> {
                &&& p.time_field == if time_id.len() > 0 && column_in(schemas, t, time_id) {
                    time_id
                } else {
                    "TimeGenerated"@
                }
                &&& p.message_field == label_in(insights.messages, t)
                &&& p.severity_field == first_present(schemas, t, insights.severities)
                &&& p.key_field == field_for(key, t)
                &&& forall|i: int|
                    #![trigger meeting(key, insights.messages)[i]]
                    0 <= i < meeting(key, insights.messages).len() ==> rows_named(
                        schemas,
                        meeting(key, insights.messages)[i],
                    ) <= rows_named(schemas, t)
            }
            &&& meeting(key, insights.messages).len() == 0 ==> p.table.len() == 0
                && p.message_field.len() == 0
        }),
{
    busiest_is_listed(schemas, meeting(key, insights.messages));
}

proof fn values_are_first(fields: Seq<FieldV>, name: Text, j: int)
    requires
        0 <= j <= fields.len(),
        forall|k: int|
            0 <= k < j ==> ascii_lowered((#[trigger] fields[k]).name) != ascii_lowered(name),
    ensures
        j < fields.len() && ascii_lowered(fields[j].name) == ascii_lowered(name) ==> values_among(
            fields,
            name,
        ) == Some(fields[j].values),
        j == fields.len() ==> values_among(fields, name) is None,
    decreases j,
{
    if j > 0 {
        let rest = fields.drop_first();
        assert(ascii_lowered(fields[0].name) != ascii_lowered(name));
        assert forall|k: int| 0 <= k < j - 1 implies ascii_lowered((#[trigger] rest[k]).name)
            != ascii_lowered(name) by {
            assert(rest[k] == fields[k + 1]);
        }
        values_are_first(rest, name, j - 1);
    }
}

/// The values offered of a column are those sampled of it: of the first
/// field of the name in the table.
pub proof fn values_are_of_the_tables_column(
    schemas: Seq<TableV>,
    table: Text,
    name: Text,
    i: int,
    j: int,
)
    requires
        0 <= i < schemas.len(),
        forall|a: int| 0 <= a < i ==> (#[trigger] schemas[a]).table != table,
        schemas[i].table == table,
        0 <= j < schemas[i].fields.len(),
        ascii_lowered(schemas[i].fields[j].name) == ascii_lowered(name),
        forall|k: int|
            0 <= k < j ==> ascii_lowered((#[trigger] schemas[i].fields[k]).name) != ascii_lowered(
                name,
            ),
    ensures
        column_values(schemas, table, name) == schemas[i].fields[j].values,
    decreases i,
{
    if i == 0 {
        values_are_first(schemas[0].fields, name, j);
    } else {
        let rest = schemas.drop_first();
        assert(schemas[0].table != table);
        assert(rest[i - 1] == schemas[i]);
        assert forall|a: int| 0 <= a < i - 1 implies (#[trigger] rest[a]).table != table by {
            assert(rest[a] == schemas[a + 1]);
        }
        values_are_of_the_tables_column(rest, table, name, i - 1, j);
    }
}

/// Each filter asks of its own column: text of the message, anywhere in it,
/// and a severity of the severity, but for the case of letters.
pub proof fn filters_ask_their_own_column(s: SpecV, f: FilterV)
    ensures
        trimmed(f.text).len() > 0 ==> text_clause(s, f) == "| where tostring("@ + column_reference(
            s.message_field,
        ) + ") contains "@ + literal(trimmed(f.text)) + "\n"@,
        f.severity.len() > 0 && s.severity_field.len() > 0 ==> severity_clause(s, f)
            == "| where tostring("@ + column_reference(s.severity_field) + ") =~ "@ + literal(
            f.severity,
        ) + "\n"@,
{
}

/// The query names each column after what is read off it, newest line first,
/// and hands back the text before the columns: the table and the filters.
pub proof fn queries_name_what_is_read(s: SpecV, f: FilterV) -> (before: Text)
    ensures
        before == quoted_name(s.table) + "\n"@ + (text_clause(s, f) + severity_clause(s, f)),
        s.severity_field.len() > 0 && s.key_field.len() > 0 ==> query_text(s, f) == before
            + "| project\n    At = "@ + column_reference(s.time_field) + ",\n"@
            + ("    Severity = tostring("@ + column_reference(s.severity_field) + "),\n"@)
            + "    Message = tostring("@ + column_reference(s.message_field) + "),\n"@
            + ("    Key = tostring("@ + column_reference(s.key_field) + ")"@)
            + "\n| order by At desc\n| take 300"@,
        s.severity_field.len() == 0 && s.key_field.len() == 0 ==> query_text(s, f) == before
            + "| project\n    At = "@ + column_reference(s.time_field) + ",\n"@
            + "    Severity = \"\",\n"@ + "    Message = tostring("@ + column_reference(
            s.message_field,
        ) + "),\n"@ + "    Key = \"\""@ + "\n| order by At desc\n| take 300"@,
{
    quoted_name(s.table) + "\n"@ + (text_clause(s, f) + severity_clause(s, f))
}

/// A column that the table lacks is projected empty, whatever else it lacks.
pub proof fn lacking_columns_are_empty(s: SpecV)
    ensures
        s.severity_field.len() == 0 ==> severity_column(s) == "    Severity = \"\",\n"@,
        s.severity_field.len() > 0 ==> severity_column(s) == "    Severity = tostring("@
            + column_reference(s.severity_field) + "),\n"@,
        s.key_field.len() == 0 ==> key_column(s) == "    Key = \"\""@,
        s.key_field.len() > 0 ==> key_column(s) == "    Key = tostring("@ + column_reference(
            s.key_field,
        ) + ")"@,
{
}

} // verus!
