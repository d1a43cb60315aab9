//! Domain-agnostic discovery of what makes a set of tables traceable.
//!
//! Given the sampled rows, it works out what a trace needs: a correlation
//! key, a time column and a step label. The key is decided from the data:
//! columns in different tables that carry the same values are the same
//! identifier, however they are spelled. Names are a weak tie-breaker only.

use crate::keys::{key_candidates, paths_of, ranked_keys, KeyCandidate, KeyV};
use crate::order::{
    arrange, arranged, arranged_keeps, arranged_views, filter_holds, group_by_text, holders,
    holders_have, holders_hold, ints, order, order_has_all, order_is_stable, precedes, sorted_set,
    sorted_set_holds, strictly_sorted, Rank, RankV,
};
use crate::schema::{FieldInfo, FieldV, TableSchema, TableV, SHARE_ONE};
use crate::text::{
    alnum, ascii_lowered, byte_len, bytes_in, cat2, cat3, chars_of, contains, decimal, digit,
    digits, ends_with, has_suffix, hex, holds, i64_of, is_alnum, is_digit, is_hex, leaf, listed,
    lowercase, lowered, parse_i64, piece, pieces, same, same_ignoring_case, same_letters, tally,
    tally_is_filter, text_less, text_less_irreflexive, views, Text,
};
use vstd::prelude::*;

verus! {

/// The column every table is ingested with. Always a correct answer for the
/// time role, so it is the default, but not an automatic winner.
pub const INGESTION_TIME: &'static str = "TimeGenerated";

/// How many values two columns must share before they are taken to be the
/// same identifier.
pub const LINK_MIN_SHARED: usize = 2;

/// Values shorter than this many bytes are too collision-prone to link on.
pub const LINK_MIN_LEN: usize = 8;

/// A value in more columns than this is boilerplate, not an identifier.
pub const LINK_MAX_FANOUT: usize = 32;

// ── Shape tests ───────────────────────────────────────────────────────────

/// The columns that are injected into every table: filled throughout and
/// useless as keys.
pub open spec fn system_column(name: Text) -> bool {
    same_letters("TenantId"@, name) || same_letters("SourceSystem"@, name) || same_letters(
        "MG"@,
        name,
    ) || same_letters("ManagementGroupName"@, name) || same_letters("Type"@, name) || same_letters(
        "_ResourceId"@,
        name,
    ) || same_letters("_SubscriptionId"@, name) || same_letters("_ItemId"@, name) || same_letters(
        "_BilledSize"@,
        name,
    ) || same_letters("_IsBillable"@, name) || same_letters("_TimeReceived"@, name) || same_letters(
        "_Internal_WorkspaceResourceId"@,
        name,
    )
}

pub fn is_system(name: &str) -> (r: bool)
    ensures
        r == system_column(name@),
{
    same_ignoring_case("TenantId", name) || same_ignoring_case("SourceSystem", name)
        || same_ignoring_case("MG", name) || same_ignoring_case("ManagementGroupName", name)
        || same_ignoring_case("Type", name) || same_ignoring_case("_ResourceId", name)
        || same_ignoring_case("_SubscriptionId", name) || same_ignoring_case("_ItemId", name)
        || same_ignoring_case("_BilledSize", name) || same_ignoring_case("_IsBillable", name)
        || same_ignoring_case("_TimeReceived", name) || same_ignoring_case(
        "_Internal_WorkspaceResourceId",
        name,
    )
}

/// A column name without the type suffix that diagnostic tables add.
pub open spec fn stem(name: Text) -> Text {
    if has_suffix(name, "_g"@) || has_suffix(name, "_s"@) {
        name.take(name.len() - 2)
    } else {
        name
    }
}

/// The correlation columns put in tables by convention.
pub open spec fn conventional(name: Text) -> bool {
    name == "operationid"@ || name == "operation_id"@ || name == "parentid"@ || name
        == "operation_parentid"@ || name == "correlationid"@ || name == "traceid"@
}

/// Whether a lowercased path ends in a conventional correlation column.
pub open spec fn well_known_key(lower: Text) -> bool {
    conventional(stem(pieces(lower, '.').last()))
}

pub fn is_well_known(lower: &str) -> (r: bool)
    ensures
        r == well_known_key(lower@),
{
    let last = leaf(lower);
    let name: String = if ends_with(last.as_str(), "_g") || ends_with(last.as_str(), "_s") {
        let chars = chars_of(last.as_str());
        proof {
            reveal_strlit("_g");
            reveal_strlit("_s");
        }
        let r = piece(&chars, 0, chars.len() - 2);
        assert(chars@.subrange(0, chars@.len() - 2) =~= chars@.take(chars@.len() - 2));
        r
    } else {
        last
    };
    let s = name.as_str();
    same(s, "operationid") || same(s, "operation_id") || same(s, "parentid") || same(
        s,
        "operation_parentid",
    ) || same(s, "correlationid") || same(s, "traceid")
}

pub open spec fn some_digit(v: Text) -> bool {
    exists|i: int| 0 <= i < v.len() && is_digit(#[trigger] v[i])
}

pub open spec fn hex_or_dash(v: Text) -> bool {
    forall|i: int| 0 <= i < v.len() ==> is_hex(#[trigger] v[i]) || v[i] == '-'
}

pub open spec fn letters_or_digits(v: Text) -> bool {
    forall|i: int| 0 <= i < v.len() ==> is_alnum(#[trigger] v[i])
}

/// Whether a value looks like a machine-generated identifier.
pub open spec fn identifier_like(v: Text) -> bool {
    &&& byte_len(v) >= 8
    &&& (hex_or_dash(v) && some_digit(v) && byte_len(v) >= 16) || (letters_or_digits(v)
        && some_digit(v) && byte_len(v) >= 12)
}

pub fn id_shaped(v: &str) -> (r: bool)
    ensures
        r == identifier_like(v@),
{
    let n: u128 = bytes_in(v);
    if n < 8 {
        return false;
    }
    let chars = chars_of(v);
    let mut has_digit: bool = false;
    let mut hex_dashes: bool = true;
    let mut all_alnum: bool = true;
    let mut i: usize = 0;
    while i < chars.len()
        invariant
            i <= chars@.len(),
            chars@ == v@,
            has_digit == exists|k: int| 0 <= k < i && is_digit(#[trigger] v@[k]),
            hex_dashes == forall|k: int| 0 <= k < i ==> is_hex(#[trigger] v@[k]) || v@[k] == '-',
            all_alnum == forall|k: int| 0 <= k < i ==> is_alnum(#[trigger] v@[k]),
        decreases chars@.len() - i,
    {
        let c: char = chars[i];
        assert(c == v@[i as int]);
        if digit(c) {
            has_digit = true;
        }
        if !hex(c) && c != '-' {
            hex_dashes = false;
        }
        if !alnum(c) {
            all_alnum = false;
        }
        i = i + 1;
    }
    (hex_dashes && has_digit && n >= 16) || (all_alnum && has_digit && n >= 12)
}

/// Seconds or milliseconds of the epoch, from about 2001 to about 2096.
pub open spec fn epoch_like(n: int) -> bool {
    1_000_000_000 <= n <= 4_000_000_000 || 1_000_000_000_000 <= n <= 4_000_000_000_000
}

pub open spec fn starts_like_date(v: Text) -> bool {
    &&& byte_len(v) >= 10
    &&& v.len() >= 8
    &&& is_digit(v[0]) && is_digit(v[1]) && is_digit(v[2]) && is_digit(v[3])
    &&& v[4] == '-'
    &&& is_digit(v[5]) && is_digit(v[6])
    &&& v[7] == '-'
}

/// Whether a value looks like a date or an epoch time.
pub open spec fn time_like(v: Text) -> bool {
    starts_like_date(v) || match i64_of(v) {
        Some(n) => epoch_like(n as int),
        None => false,
    }
}

pub fn time_shaped(v: &str) -> (r: bool)
    ensures
        r == time_like(v@),
{
    let c = chars_of(v);
    if bytes_in(v) >= 10 && c.len() >= 8 && digit(c[0]) && digit(c[1]) && digit(c[2]) && digit(
        c[3],
    ) && c[4] == '-' && c[7] == '-' && digit(c[5]) && digit(c[6]) {
        return true;
    }
    match parse_i64(v) {
        Some(n) => (1_000_000_000 <= n && n <= 4_000_000_000) || (1_000_000_000_000 <= n && n
            <= 4_000_000_000_000),
        None => false,
    }
}

/// A weak, convention-based hint, never decisive on its own.
pub open spec fn identifier_hint(lower: Text) -> bool {
    holds(lower, "correlation"@) || holds(lower, "trace"@) || holds(lower, "requestid"@) || holds(
        lower,
        "conversation"@,
    ) || holds(lower, "session"@) || holds(lower, "flowid"@) || holds(lower, "operation"@)
}

pub fn name_suggests_identifier(lower: &str) -> (r: bool)
    ensures
        r == identifier_hint(lower@),
{
    contains(lower, "correlation") || contains(lower, "trace") || contains(lower, "requestid")
        || contains(lower, "conversation") || contains(lower, "session") || contains(
        lower,
        "flowid",
    ) || contains(lower, "operation")
}

/// The unit a duration column counts in, as far as its name says.
pub open spec fn unit_text(field: Text) -> Text {
    if has_suffix(lowered(field), "ms"@) {
        "ms"@
    } else {
        ""@
    }
}

pub fn unit_of(field: &str) -> (r: &'static str)
    ensures
        r@ == unit_text(field@),
{
    if ends_with(lowercase(field).as_str(), "ms") {
        "ms"
    } else {
        ""
    }
}

pub(crate) fn count_ids(values: &Vec<String>) -> (r: usize)
    ensures
        r == tally(views(values@), |v: Text| identifier_like(v)),
        r <= values@.len(),
{
    let ghost all = views(values@);
    let ghost p = |v: Text| identifier_like(v);
    let mut r: usize = 0;
    let mut i: usize = 0;
    assert(all.take(0) =~= Seq::empty());
    while i < values.len()
        invariant
            i <= values@.len(),
            r <= i,
            all == views(values@),
            p == |v: Text| identifier_like(v),
            r == tally(all.take(i as int), p),
        decreases values@.len() - i,
    {
        assert(all.take(i + 1).drop_last() =~= all.take(i as int));
        assert(p(all[i as int]) == identifier_like(values@[i as int]@));
        if id_shaped(values[i].as_str()) {
            r = r + 1;
        }
        i = i + 1;
    }
    assert(all.take(i as int) =~= all);
    r
}

fn count_times(values: &Vec<String>) -> (r: usize)
    ensures
        r == tally(views(values@), |v: Text| time_like(v)),
        r <= values@.len(),
{
    let ghost all = views(values@);
    let ghost p = |v: Text| time_like(v);
    let mut r: usize = 0;
    let mut i: usize = 0;
    assert(all.take(0) =~= Seq::empty());
    while i < values.len()
        invariant
            i <= values@.len(),
            r <= i,
            all == views(values@),
            p == |v: Text| time_like(v),
            r == tally(all.take(i as int), p),
        decreases values@.len() - i,
    {
        assert(all.take(i + 1).drop_last() =~= all.take(i as int));
        assert(p(all[i as int]) == time_like(values@[i as int]@));
        if time_shaped(values[i].as_str()) {
            r = r + 1;
        }
        i = i + 1;
    }
    assert(all.take(i as int) =~= all);
    r
}

// ── Roles ─────────────────────────────────────────────────────────────────

/// A column's part in what is drawn.
#[derive(Clone, Copy, PartialEq, Eq, Structural)]
pub enum Role {
    /// Anything with a value to compare against.
    Scalar,
    Time,
    Label,
    Duration,
    Target,
    Message,
    Severity,
}

/// A candidate for a role that needs no value-linking.
#[derive(Debug, PartialEq)]
pub struct RoleCandidate {
    /// Lowercased column path; matched case-insensitively per table.
    pub id: String,
    pub label: String,
    pub tables: Vec<String>,
    pub note: String,
    /// In units of one part in [`SHARE_ONE`].
    pub score: i128,
}

#[verifier::ext_equal]
pub ghost struct RoleV {
    pub id: Text,
    pub label: Text,
    pub tables: Seq<Text>,
    pub note: Text,
    pub score: int,
}

impl View for RoleCandidate {
    type V = RoleV;

    open spec fn view(&self) -> RoleV {
        RoleV {
            id: self.id@,
            label: self.label@,
            tables: views(self.tables@),
            note: self.note@,
            score: self.score as int,
        }
    }
}

/// Half of the sampled rows or more carry the field.
pub open spec fn half_filled(f: FieldV, sampled: int) -> bool {
    sampled > 0 && 2 * f.seen_in >= sampled
}

/// More than four values in five are different.
pub open spec fn mostly_distinct(f: FieldV) -> bool {
    f.seen_in > 0 && 5 * f.distinct > 4 * f.seen_in
}

/// A step label is a small vocabulary that says what happened: not unique to
/// every row, not free text, not an identifier. Repetition is expected only
/// of a sample large enough to show it.
pub open spec fn label_like(f: FieldV, sampled: int) -> bool {
    &&& !system_column(f.name)
    &&& !f.is_declared_time()
    &&& f.types.contains("string"@)
    &&& half_filled(f, sampled)
    &&& 2 <= f.distinct <= 25
    &&& !(f.seen_in >= 8 && mostly_distinct(f))
    &&& forall|i: int| 0 <= i < f.values.len() ==> byte_len(#[trigger] f.values[i]) <= 60
    &&& tally(f.values, |v: Text| identifier_like(v)) * 2 <= f.values.len()
}

/// A declared datetime, or a field that nothing declares and three values in
/// five of which look like times.
pub open spec fn time_column(f: FieldV) -> bool {
    f.is_declared_time() || (f.kind.len() == 0 && f.values.len() > 0 && tally(
        f.values,
        |v: Text| time_like(v),
    ) * 5 >= f.values.len() * 3)
}

/// Whether a field can play a role.
pub open spec fn plays(role: Role, f: FieldV, sampled: int) -> bool {
    let lower = lowered(f.name);
    match role {
        Role::Scalar => !system_column(f.name) && f.is_scalar(),
        Role::Time => time_column(f),
        Role::Label => label_like(f, sampled),
        Role::Duration => !system_column(f.name) && f.types.contains("number"@) && (holds(
            lower,
            "duration"@,
        ) || holds(lower, "elapsed"@)),
        Role::Target => !system_column(f.name) && f.types.contains("string"@) && holds(
            lower,
            "target"@,
        ),
        Role::Message => !system_column(f.name) && f.types.contains("string"@) && (holds(
            lower,
            "message"@,
        ) || holds(lower, "body"@)),
        Role::Severity => !system_column(f.name) && f.types.contains("string"@) && (holds(
            lower,
            "severity"@,
        ) || holds(lower, "criticality"@) || holds(lower, "level"@)),
    }
}

fn any_longer(values: &Vec<String>, max: u128) -> (r: bool)
    ensures
        r == exists|i: int| 0 <= i < values@.len() && byte_len(#[trigger] views(values@)[i]) > max,
{
    let mut i: usize = 0;
    while i < values.len()
        invariant
            i <= values@.len(),
            forall|k: int| 0 <= k < i ==> byte_len(#[trigger] views(values@)[k]) <= max,
        decreases values@.len() - i,
    {
        if bytes_in(values[i].as_str()) > max {
            assert(byte_len(views(values@)[i as int]) > max);
            return true;
        }
        i = i + 1;
    }
    false
}

fn is_label_like(f: &FieldInfo, sampled: usize) -> (r: bool)
    ensures
        r == label_like(f@, sampled as int),
{
    if is_system(f.name.as_str()) || f.is_declared_time() || !listed(&f.types, "string") {
        return false;
    }
    if sampled == 0 || 2 * (f.seen_in as u128) < sampled as u128 {
        return false;
    }
    if f.distinct < 2 || f.distinct > 25 {
        return false;
    }
    if f.seen_in >= 8 && 5 * (f.distinct as u128) > 4 * (f.seen_in as u128) {
        return false;
    }
    let values = f.values.items();
    if any_longer(values, 60) {
        return false;
    }
    let ids: usize = count_ids(values);
    (ids as u128) * 2 <= values.len() as u128
}

fn is_time_column(f: &FieldInfo) -> (r: bool)
    ensures
        r == time_column(f@),
{
    if f.is_declared_time() {
        return true;
    }
    if !f.kind.as_str().is_empty() {
        return false;
    }
    let values = f.values.items();
    if values.len() == 0 {
        return false;
    }
    let hits: usize = count_times(values);
    (hits as u128) * 5 >= (values.len() as u128) * 3
}

fn can_play(role: Role, f: &FieldInfo, sampled: usize) -> (r: bool)
    ensures
        r == plays(role, f@, sampled as int),
{
    match role {
        Role::Scalar => !is_system(f.name.as_str()) && f.is_scalar(),
        Role::Time => is_time_column(f),
        Role::Label => is_label_like(f, sampled),
        Role::Duration => {
            let lower = lowercase(f.name.as_str());
            !is_system(f.name.as_str()) && f.is_number() && (contains(lower.as_str(), "duration")
                || contains(lower.as_str(), "elapsed"))
        },
        Role::Target => {
            let lower = lowercase(f.name.as_str());
            !is_system(f.name.as_str()) && listed(&f.types, "string") && contains(
                lower.as_str(),
                "target",
            )
        },
        Role::Message => {
            let lower = lowercase(f.name.as_str());
            !is_system(f.name.as_str()) && listed(&f.types, "string") && (contains(
                lower.as_str(),
                "message",
            ) || contains(lower.as_str(), "body"))
        },
        Role::Severity => {
            let lower = lowercase(f.name.as_str());
            !is_system(f.name.as_str()) && listed(&f.types, "string") && (contains(
                lower.as_str(),
                "severity",
            ) || contains(lower.as_str(), "criticality") || contains(lower.as_str(), "level"))
        },
    }
}

/// One table's column that plays a role.
struct Column {
    key: String,
    label: String,
    table: String,
    declared: bool,
    distinct: usize,
}

#[verifier::ext_equal]
pub ghost struct ColumnV {
    pub key: Text,
    pub label: Text,
    pub table: Text,
    pub declared: bool,
    pub distinct: int,
}

impl View for Column {
    type V = ColumnV;

    closed spec fn view(&self) -> ColumnV {
        ColumnV {
            key: self.key@,
            label: self.label@,
            table: self.table@,
            declared: self.declared,
            distinct: self.distinct as int,
        }
    }
}

pub open spec fn column_of(table: Text, f: FieldV) -> ColumnV {
    ColumnV {
        key: lowered(f.name),
        label: f.name,
        table,
        declared: f.is_declared_time(),
        distinct: f.distinct,
    }
}

/// A table's columns that play a role, in order.
pub open spec fn table_columns(role: Role, t: TableV, fields: Seq<FieldV>) -> Seq<ColumnV>
    decreases fields.len(),
{
    if fields.len() == 0 {
        Seq::empty()
    } else {
        let before = table_columns(role, t, fields.drop_last());
        if plays(role, fields.last(), t.sampled_rows) {
            before.push(column_of(t.table, fields.last()))
        } else {
            before
        }
    }
}

/// All columns that play a role, in order.
pub open spec fn role_columns(role: Role, schemas: Seq<TableV>) -> Seq<ColumnV>
    decreases schemas.len(),
{
    if schemas.len() == 0 {
        Seq::empty()
    } else {
        role_columns(role, schemas.drop_last()) + table_columns(
            role,
            schemas.last(),
            schemas.last().fields,
        )
    }
}

pub open spec fn column_keys(columns: Seq<ColumnV>) -> Seq<Text> {
    columns.map_values(|c: ColumnV| c.key)
}

/// Whether any of the columns is a declared datetime.
pub open spec fn any_declared(columns: Seq<ColumnV>, h: Seq<int>) -> bool {
    exists|i: int| 0 <= i < h.len() && columns[#[trigger] h[i]].declared
}

/// The largest count of distinct values among the columns.
pub open spec fn most_distinct(columns: Seq<ColumnV>, h: Seq<int>) -> int
    decreases h.len(),
{
    if h.len() == 0 {
        0
    } else {
        let before = most_distinct(columns, h.drop_last());
        let d = columns[h.last()].distinct;
        if d > before {
            d
        } else {
            before
        }
    }
}

pub open spec fn is_ingestion(id: Text) -> bool {
    id == lowered(INGESTION_TIME@)
}

pub open spec fn role_note(role: Role, id: Text, columns: Seq<ColumnV>, h: Seq<int>) -> Text {
    match role {
        Role::Time => if is_ingestion(id) {
            "ingestion time — always present, but not your domain timestamp"@
        } else if any_declared(columns, h) {
            "declared datetime, in "@ + digits(h.len()) + " table(s)"@
        } else {
            "timestamp-shaped, in "@ + digits(h.len()) + " table(s)"@
        },
        Role::Label => digits(most_distinct(columns, h) as nat) + " distinct values, in "@
            + digits(h.len()) + " table(s)"@,
        _ => "in "@ + digits(h.len()) + " table(s)"@,
    }
}

/// Reach decides; ingestion time is in every table and is held back.
pub open spec fn role_score(role: Role, id: Text, reach: int) -> int {
    if role == Role::Time && is_ingestion(id) {
        (SHARE_ONE / 2) as int
    } else {
        reach * SHARE_ONE
    }
}

/// The candidate that the columns under one key make.
pub open spec fn role_candidate(role: Role, columns: Seq<ColumnV>, id: Text) -> RoleV {
    let h = holders(column_keys(columns), id);
    RoleV {
        id,
        label: columns[h[0]].label,
        tables: h.map_values(|i: int| columns[i].table),
        note: role_note(role, id, columns, h),
        score: role_score(role, id, h.len() as int),
    }
}

/// One candidate per key, ascending by key.
pub open spec fn unranked(role: Role, schemas: Seq<TableV>) -> Seq<RoleV> {
    let columns = role_columns(role, schemas);
    sorted_set(column_keys(columns)).map_values(|id: Text| role_candidate(role, columns, id))
}

/// Candidates stand by score, best first, then by label.
pub open spec fn role_rank(c: RoleV) -> RankV {
    RankV { first: -c.score, second: 0, text: c.label }
}

/// The ranked candidates for a role.
pub open spec fn ranked(role: Role, schemas: Seq<TableV>) -> Seq<RoleV> {
    let all = unranked(role, schemas);
    arranged(all, all.map_values(|c: RoleV| role_rank(c)))
}

fn collect_columns(role: Role, schemas: &Vec<TableSchema>) -> (r: Vec<Column>)
    ensures
        views(r@) == role_columns(role, views(schemas@)),
{
    let ghost all = views(schemas@);
    let mut out: Vec<Column> = Vec::new();
    let mut s: usize = 0;
    assert(all.take(0) =~= Seq::empty());
    assert(views(out@) =~= role_columns(role, all.take(0)));
    while s < schemas.len()
        invariant
            s <= schemas@.len(),
            all == views(schemas@),
            views(out@) == role_columns(role, all.take(s as int)),
        decreases schemas@.len() - s,
    {
        let schema = &schemas[s];
        let ghost t = schema@;
        let ghost before = views(out@);
        assert(all.take(s + 1).drop_last() =~= all.take(s as int));
        assert(all.take(s + 1).last() == t);
        let mut f: usize = 0;
        assert(t.fields.take(0) =~= Seq::empty());
        assert(before + table_columns(role, t, t.fields.take(0)) =~= before);
        while f < schema.fields.len()
            invariant
                f <= schema.fields@.len(),
                t == schema@,
                views(out@) == before + table_columns(role, t, t.fields.take(f as int)),
            decreases schema.fields@.len() - f,
        {
            let field = &schema.fields[f];
            assert(t.fields.take(f + 1).drop_last() =~= t.fields.take(f as int));
            assert(t.fields.take(f + 1).last() == field@);
            if can_play(role, field, schema.sampled_rows) {
                let ghost so_far = views(out@);
                let column = Column {
                    key: lowercase(field.name.as_str()),
                    label: field.name.clone(),
                    table: schema.path(),
                    declared: field.is_declared_time(),
                    distinct: field.distinct,
                };
                let ghost cv = column@;
                assert(cv == column_of(t.table, field@));
                out.push(column);
                assert(views(out@) =~= so_far.push(cv));
                assert(views(out@) =~= before + table_columns(role, t, t.fields.take(f + 1)));
            }
            f = f + 1;
        }
        assert(t.fields.take(f as int) =~= t.fields);
        s = s + 1;
    }
    assert(all.take(s as int) =~= all);
    out
}

fn note_of(role: Role, id: &str, columns: &Vec<Column>, h: &Vec<usize>) -> (r: String)
    requires
        forall|i: int| 0 <= i < h@.len() ==> 0 <= #[trigger] h@[i] < columns@.len(),
    ensures
        r@ == role_note(role, id@, views(columns@), ints(h@)),
{
    let ghost cs = views(columns@);
    let ghost hi = ints(h@);
    let reach = decimal(h.len() as u128);
    let mut declared: bool = false;
    let mut most: usize = 0;
    let mut i: usize = 0;
    assert(hi.take(0) =~= Seq::empty());
    while i < h.len()
        invariant
            i <= h@.len(),
            cs == views(columns@),
            hi == ints(h@),
            forall|k: int| 0 <= k < h@.len() ==> 0 <= #[trigger] h@[k] < columns@.len(),
            declared == exists|k: int| 0 <= k < i && cs[#[trigger] hi[k]].declared,
            most == most_distinct(cs, hi.take(i as int)),
        decreases h@.len() - i,
    {
        assert(hi.take(i + 1).drop_last() =~= hi.take(i as int));
        assert(hi[i as int] == h@[i as int]);
        let c = &columns[h[i]];
        assert(c@ == cs[hi[i as int]]);
        if c.declared {
            declared = true;
        }
        if c.distinct > most {
            most = c.distinct;
        }
        i = i + 1;
    }
    assert(hi.take(i as int) =~= hi);
    match role {
        Role::Time => if same(id, lowercase(INGESTION_TIME).as_str()) {
            "ingestion time — always present, but not your domain timestamp".to_owned()
        } else if declared {
            cat3("declared datetime, in ", reach.as_str(), " table(s)")
        } else {
            cat3("timestamp-shaped, in ", reach.as_str(), " table(s)")
        },
        Role::Label => {
            let head = cat3(decimal(most as u128).as_str(), " distinct values, in ", reach.as_str());
            cat2(head.as_str(), " table(s)")
        },
        _ => cat3("in ", reach.as_str(), " table(s)"),
    }
}

/// One candidate per key, ascending by key.
fn role_groups(role: Role, schemas: &Vec<TableSchema>) -> (r: Vec<RoleCandidate>)
    ensures
        views(r@) == unranked(role, views(schemas@)),
{
    let columns = collect_columns(role, schemas);
    let ghost cs = views(columns@);
    let mut keys: Vec<String> = Vec::new();
    let mut i: usize = 0;
    while i < columns.len()
        invariant
            i <= columns@.len(),
            cs == views(columns@),
            keys@.len() == i,
            forall|k: int| 0 <= k < i ==> (#[trigger] keys@[k])@ == cs[k].key,
        decreases columns@.len() - i,
    {
        keys.push(columns[i].key.clone());
        i = i + 1;
    }
    assert(views(keys@) =~= column_keys(cs));
    let (set, groups) = group_by_text(&keys);
    proof {
        sorted_set_holds(column_keys(cs));
    }
    let ids = set.items();
    let mut out: Vec<RoleCandidate> = Vec::new();
    let mut g: usize = 0;
    while g < groups.len()
        invariant
            g <= groups@.len(),
            cs == views(columns@),
            views(ids@) == set@,
            set@ == sorted_set(column_keys(cs)),
            groups@.len() == set@.len(),
            forall|x: Text| #[trigger] set@.contains(x) <==> column_keys(cs).contains(x),
            forall|k: int|
                0 <= k < groups@.len() ==> ints((#[trigger] groups@[k])@) == holders(
                    column_keys(cs),
                    set@[k],
                ),
            out@.len() == g,
            forall|k: int|
                0 <= k < g ==> (#[trigger] out@[k])@ == role_candidate(role, cs, set@[k]),
        decreases groups@.len() - g,
    {
        let h = &groups[g];
        let ghost id = set@[g as int];
        let ghost hi = holders(column_keys(cs), id);
        proof {
            assert(views(ids@)[g as int] == id);
            assert(set@.contains(id));
            holders_hold(column_keys(cs), id);
            assert(ints(h@) == hi);
            assert forall|k: int| 0 <= k < h@.len() implies 0 <= #[trigger] h@[k]
                < columns@.len() by {
                assert(hi[k] == h@[k]);
            }
            assert(hi.len() == h@.len());
        }
        let mut tables: Vec<String> = Vec::new();
        let mut j: usize = 0;
        while j < h.len()
            invariant
                j <= h@.len(),
                cs == views(columns@),
                hi == ints(h@),
                forall|k: int| 0 <= k < h@.len() ==> 0 <= #[trigger] h@[k] < columns@.len(),
                tables@.len() == j,
                forall|k: int| 0 <= k < j ==> (#[trigger] tables@[k])@ == cs[hi[k]].table,
            decreases h@.len() - j,
        {
            assert(hi[j as int] == h@[j as int]);
            tables.push(columns[h[j]].table.clone());
            j = j + 1;
        }
        assert(views(tables@) =~= hi.map_values(|i: int| cs[i].table));
        let label = columns[h[0]].label.clone();
        assert(hi[0] == h@[0]);
        let note = note_of(role, ids[g].as_str(), &columns, h);
        let held_back: bool = match role {
            Role::Time => same(ids[g].as_str(), lowercase(INGESTION_TIME).as_str()),
            _ => false,
        };
        let score: i128 = if held_back {
            (SHARE_ONE / 2) as i128
        } else {
            (h.len() as i128) * (SHARE_ONE as i128)
        };
        out.push(RoleCandidate { id: ids[g].clone(), label, tables, note, score });
        assert(out@[g as int]@ =~= role_candidate(role, cs, id));
        g = g + 1;
    }
    assert(views(out@) =~= unranked(role, views(schemas@)));
    out
}

fn rank_roles(found: Vec<RoleCandidate>) -> (r: Vec<RoleCandidate>)
    requires
        forall|k: int| 0 <= k < found@.len() ==> (#[trigger] found@[k]).score > i128::MIN,
    ensures
        views(r@) == arranged(views(found@), views(found@).map_values(|c: RoleV| role_rank(c))),
{
    let ghost all = views(found@);
    let mut ranks: Vec<Rank> = Vec::new();
    let mut i: usize = 0;
    while i < found.len()
        invariant
            i <= found@.len(),
            all == views(found@),
            forall|k: int| 0 <= k < found@.len() ==> (#[trigger] found@[k]).score > i128::MIN,
            ranks@.len() == i,
            forall|k: int| 0 <= k < i ==> (#[trigger] ranks@[k])@ == role_rank(all[k]),
        decreases found@.len() - i,
    {
        let score: i128 = found[i].score;
        ranks.push(Rank { first: -score, second: 0, text: found[i].label.clone() });
        i = i + 1;
    }
    assert(views(ranks@) =~= all.map_values(|c: RoleV| role_rank(c)));
    proof {
        arranged_views(found@, views(ranks@));
    }
    arrange(found, &ranks)
}

/// The ranked candidates for a role.
pub fn candidates_for(role: Role, schemas: &Vec<TableSchema>) -> (r: Vec<RoleCandidate>)
    ensures
        views(r@) == ranked(role, views(schemas@)),
{
    let found = role_groups(role, schemas);
    proof {
        assert(views(found@).len() == found@.len());
        assert forall|k: int| 0 <= k < found@.len() implies (#[trigger] found@[k]).score
            > i128::MIN by {
            assert(views(found@)[k] == found@[k]@);
            let columns = role_columns(role, views(schemas@));
            let id = sorted_set(column_keys(columns))[k];
            assert(unranked(role, views(schemas@))[k] == role_candidate(role, columns, id));
            assert(found@[k]@ == role_candidate(role, columns, id));
            assert(role_score(role, id, holders(column_keys(columns), id).len() as int) >= 0);
        }
    }
    rank_roles(found)
}

/// Every scalar column, for pickers that need the full list rather than a
/// ranked subset.
pub fn scalar_fields(schemas: &Vec<TableSchema>) -> (r: Vec<RoleCandidate>)
    ensures
        views(r@) == unranked(Role::Scalar, views(schemas@)),
{
    role_groups(Role::Scalar, schemas)
}

/// The values that the fields of one lowercased path were sampled with.
pub open spec fn table_values(fields: Seq<FieldV>, lower_path: Text) -> Seq<Text>
    decreases fields.len(),
{
    if fields.len() == 0 {
        Seq::empty()
    } else {
        let before = table_values(fields.drop_last(), lower_path);
        if lowered(fields.last().name) == lower_path {
            before + fields.last().values
        } else {
            before
        }
    }
}

pub open spec fn path_values(schemas: Seq<TableV>, lower_path: Text) -> Seq<Text>
    decreases schemas.len(),
{
    if schemas.len() == 0 {
        Seq::empty()
    } else {
        path_values(schemas.drop_last(), lower_path) + table_values(
            schemas.last().fields,
            lower_path,
        )
    }
}

/// Every distinct value sampled for a column, across all tables. When a
/// column drives the lanes, these are the stages known to exist.
pub fn field_values(schemas: &Vec<TableSchema>, lower_path: &str) -> (r: Vec<String>)
    ensures
        views(r@) == if lower_path@.len() == 0 {
            Seq::empty()
        } else {
            sorted_set(path_values(views(schemas@), lower_path@))
        },
        strictly_sorted(views(r@)),
{
    let mut found: Vec<String> = Vec::new();
    assert(views(found@) =~= Seq::<Text>::empty());
    if lower_path.is_empty() {
        return found;
    }
    let ghost all = views(schemas@);
    let mut s: usize = 0;
    assert(all.take(0) =~= Seq::empty());
    while s < schemas.len()
        invariant
            s <= schemas@.len(),
            all == views(schemas@),
            views(found@) == path_values(all.take(s as int), lower_path@),
        decreases schemas@.len() - s,
    {
        let schema = &schemas[s];
        let ghost fs = schema@.fields;
        let ghost before = views(found@);
        assert(all.take(s + 1).drop_last() =~= all.take(s as int));
        assert(all.take(s + 1).last() == schema@);
        let mut f: usize = 0;
        assert(fs.take(0) =~= Seq::empty());
        assert(before + table_values(fs.take(0), lower_path@) =~= before);
        while f < schema.fields.len()
            invariant
                f <= schema.fields@.len(),
                fs == schema@.fields,
                views(found@) == before + table_values(fs.take(f as int), lower_path@),
            decreases schema.fields@.len() - f,
        {
            assert(fs.take(f + 1).drop_last() =~= fs.take(f as int));
            assert(fs.take(f + 1).last() == schema.fields@[f as int]@);
            if same(lowercase(schema.fields[f].name.as_str()).as_str(), lower_path) {
                let ghost so_far = views(found@);
                let values = schema.fields[f].values.items();
                let ghost vv = views(values@);
                let mut v: usize = 0;
                assert(so_far + vv.take(0) =~= so_far);
                while v < values.len()
                    invariant
                        v <= values@.len(),
                        vv == views(values@),
                        views(found@) == so_far + vv.take(v as int),
                    decreases values@.len() - v,
                {
                    let ghost partial = views(found@);
                    found.push(values[v].clone());
                    assert(views(found@) =~= partial.push(vv[v as int]));
                    assert(vv.take(v + 1) =~= vv.take(v as int).push(vv[v as int]));
                    v = v + 1;
                    assert(views(found@) =~= so_far + vv.take(v as int));
                }
                assert(vv.take(v as int) =~= vv);
                assert(views(found@) =~= before + table_values(fs.take(f + 1), lower_path@));
            }
            f = f + 1;
        }
        assert(fs.take(f as int) =~= fs);
        s = s + 1;
    }
    assert(all.take(s as int) =~= all);
    crate::order::sort_set(&found)
}

// ── Everything at once ────────────────────────────────────────────────────

/// What discovery found in a workspace.
#[derive(Debug, PartialEq)]
pub struct Insights {
    pub tables: Vec<String>,
    pub keys: Vec<KeyCandidate>,
    pub times: Vec<RoleCandidate>,
    pub labels: Vec<RoleCandidate>,
    pub durations: Vec<RoleCandidate>,
    pub targets: Vec<RoleCandidate>,
    pub messages: Vec<RoleCandidate>,
    pub severities: Vec<RoleCandidate>,
}

#[verifier::ext_equal]
pub ghost struct InsightsV {
    pub tables: Seq<Text>,
    pub keys: Seq<KeyV>,
    pub times: Seq<RoleV>,
    pub labels: Seq<RoleV>,
    pub durations: Seq<RoleV>,
    pub targets: Seq<RoleV>,
    pub messages: Seq<RoleV>,
    pub severities: Seq<RoleV>,
}

impl View for Insights {
    type V = InsightsV;

    open spec fn view(&self) -> InsightsV {
        InsightsV {
            tables: views(self.tables@),
            keys: views(self.keys@),
            times: views(self.times@),
            labels: views(self.labels@),
            durations: views(self.durations@),
            targets: views(self.targets@),
            messages: views(self.messages@),
            severities: views(self.severities@),
        }
    }
}

pub open spec fn no_insights() -> InsightsV {
    InsightsV {
        tables: Seq::empty(),
        keys: Seq::empty(),
        times: Seq::empty(),
        labels: Seq::empty(),
        durations: Seq::empty(),
        targets: Seq::empty(),
        messages: Seq::empty(),
        severities: Seq::empty(),
    }
}

impl Default for Insights {
    fn default() -> (r: Insights)
        ensures
            r@ == no_insights(),
    {
        let r = Insights {
            tables: Vec::new(),
            keys: Vec::new(),
            times: Vec::new(),
            labels: Vec::new(),
            durations: Vec::new(),
            targets: Vec::new(),
            messages: Vec::new(),
            severities: Vec::new(),
        };
        assert(r@ =~= no_insights());
        r
    }
}

/// What discovery finds in a workspace.
pub open spec fn insights_of(schemas: Seq<TableV>) -> InsightsV {
    InsightsV {
        tables: paths_of(schemas),
        keys: ranked_keys(schemas),
        times: ranked(Role::Time, schemas),
        labels: ranked(Role::Label, schemas),
        durations: ranked(Role::Duration, schemas),
        targets: ranked(Role::Target, schemas),
        messages: ranked(Role::Message, schemas),
        severities: ranked(Role::Severity, schemas),
    }
}

pub fn analyze(schemas: &Vec<TableSchema>) -> (r: Insights)
    ensures
        r@ == insights_of(views(schemas@)),
{
    let ghost sv = views(schemas@);
    let mut tables: Vec<String> = Vec::new();
    let mut i: usize = 0;
    while i < schemas.len()
        invariant
            i <= schemas@.len(),
            sv == views(schemas@),
            tables@.len() == i,
            forall|k: int| 0 <= k < i ==> (#[trigger] tables@[k])@ == sv[k].table,
        decreases schemas@.len() - i,
    {
        tables.push(schemas[i].path());
        i = i + 1;
    }
    assert(views(tables@) =~= paths_of(sv));
    Insights {
        tables,
        keys: key_candidates(schemas),
        times: candidates_for(Role::Time, schemas),
        labels: candidates_for(Role::Label, schemas),
        durations: candidates_for(Role::Duration, schemas),
        targets: candidates_for(Role::Target, schemas),
        messages: candidates_for(Role::Message, schemas),
        severities: candidates_for(Role::Severity, schemas),
    }
}

// ── What holds of every role ──────────────────────────────────────────────

proof fn ranked_is_candidate(role: Role, schemas: Seq<TableV>, c: RoleV)
    requires
        ranked(role, schemas).contains(c),
    ensures
        c == role_candidate(role, role_columns(role, schemas), c.id),
        column_keys(role_columns(role, schemas)).contains(c.id),
{
    let columns = role_columns(role, schemas);
    let ids = sorted_set(column_keys(columns));
    let all = unranked(role, schemas);
    arranged_keeps(all, all.map_values(|c: RoleV| role_rank(c)));
    assert(all.contains(c));
    let i = choose|i: int| 0 <= i < all.len() && all[i] == c;
    assert(all[i] == role_candidate(role, columns, ids[i]));
    sorted_set_holds(column_keys(columns));
    assert(ids.contains(ids[i]));
}

/// Ingestion time is offered but never first: any other time column stands
/// before it.
pub proof fn ingestion_time_is_never_first(schemas: Seq<TableV>, other: RoleV)
    requires
        ranked(Role::Time, schemas).contains(other),
        !is_ingestion(other.id),
    ensures
        !is_ingestion(ranked(Role::Time, schemas)[0].id),
{
    let all = unranked(Role::Time, schemas);
    let ranks = all.map_values(|c: RoleV| role_rank(c));
    let r = ranked(Role::Time, schemas);
    let columns = role_columns(Role::Time, schemas);
    let o = crate::order::order(ranks);
    crate::order::order_is_stable(ranks);
    let k = choose|k: int| 0 <= k < r.len() && r[k] == other;
    assert(r.contains(r[0]));
    ranked_is_candidate(Role::Time, schemas, r[0]);
    ranked_is_candidate(Role::Time, schemas, other);
    holders_hold(column_keys(columns), other.id);
    assert(other.score >= SHARE_ONE);
    if is_ingestion(r[0].id) {
        assert(r[0].score == (SHARE_ONE / 2) as int);
        assert(k > 0);
        assert(crate::order::precedes(ranks, o[0], o[k]));
        assert(0 <= o[0] < all.len() && 0 <= o[k] < all.len());
        assert(ranks[o[0]].first == -r[0].score);
        assert(ranks[o[k]].first == -other.score);
    }
}

proof fn table_columns_has(role: Role, t: TableV, fields: Seq<FieldV>, f: FieldV)
    requires
        fields.contains(f),
        plays(role, f, t.sampled_rows),
    ensures
        table_columns(role, t, fields).contains(column_of(t.table, f)),
    decreases fields.len(),
{
    let i = choose|i: int| 0 <= i < fields.len() && fields[i] == f;
    let before = table_columns(role, t, fields.drop_last());
    let r = table_columns(role, t, fields);
    if i < fields.len() - 1 {
        assert(fields.drop_last()[i] == f);
        table_columns_has(role, t, fields.drop_last(), f);
        let k = choose|k: int| 0 <= k < before.len() && before[k] == column_of(t.table, f);
        assert(r[k] == column_of(t.table, f));
    } else {
        assert(r[r.len() - 1] == column_of(t.table, f));
    }
}

proof fn role_columns_has(role: Role, schemas: Seq<TableV>, t: TableV, f: FieldV)
    requires
        schemas.contains(t),
        t.fields.contains(f),
        plays(role, f, t.sampled_rows),
    ensures
        role_columns(role, schemas).contains(column_of(t.table, f)),
    decreases schemas.len(),
{
    let i = choose|i: int| 0 <= i < schemas.len() && schemas[i] == t;
    let before = role_columns(role, schemas.drop_last());
    let c = column_of(t.table, f);
    if i < schemas.len() - 1 {
        assert(schemas.drop_last()[i] == t);
        role_columns_has(role, schemas.drop_last(), t, f);
        let k = choose|k: int| 0 <= k < before.len() && before[k] == c;
        assert(role_columns(role, schemas)[k] == c);
    } else {
        table_columns_has(role, t, t.fields, f);
        let mine = table_columns(role, t, t.fields);
        let k = choose|k: int| 0 <= k < mine.len() && mine[k] == c;
        assert(role_columns(role, schemas)[before.len() + k] == c);
    }
}

/// Whatever can play a role is offered for it: a declared datetime, for one,
/// needs no sample to be offered as a time.
pub proof fn what_qualifies_is_offered(role: Role, schemas: Seq<TableV>, t: TableV, f: FieldV)
    requires
        schemas.contains(t),
        t.fields.contains(f),
        plays(role, f, t.sampled_rows),
    ensures
        exists|c: RoleV| #[trigger] ranked(role, schemas).contains(c) && c.id == lowered(f.name),
{
    let columns = role_columns(role, schemas);
    let keys = column_keys(columns);
    let ids = sorted_set(keys);
    role_columns_has(role, schemas, t, f);
    let k = choose|k: int| 0 <= k < columns.len() && columns[k] == column_of(t.table, f);
    assert(keys[k] == lowered(f.name));
    assert(keys.contains(lowered(f.name)));
    sorted_set_holds(keys);
    assert(ids.contains(lowered(f.name)));
    let i = choose|i: int| 0 <= i < ids.len() && ids[i] == lowered(f.name);
    let all = unranked(role, schemas);
    let c = role_candidate(role, columns, ids[i]);
    assert(all[i] == c);
    assert(all.contains(c));
    arranged_keeps(all, all.map_values(|c: RoleV| role_rank(c)));
    assert(ranked(role, schemas).contains(c));
}

proof fn table_columns_play(role: Role, t: TableV, fields: Seq<FieldV>, k: int)
    requires
        0 <= k < table_columns(role, t, fields).len(),
    ensures
        exists|f: FieldV| #[trigger]
            fields.contains(f) && plays(role, f, t.sampled_rows) && table_columns(
                role,
                t,
                fields,
            )[k] == column_of(t.table, f),
    decreases fields.len(),
{
    let short = fields.drop_last();
    let before = table_columns(role, t, short);
    if k < before.len() {
        table_columns_play(role, t, short, k);
        let f = choose|f: FieldV| #[trigger]
            short.contains(f) && plays(role, f, t.sampled_rows) && before[k] == column_of(
                t.table,
                f,
            );
        let i = choose|i: int| 0 <= i < short.len() && short[i] == f;
        assert(fields[i] == f);
        assert(fields.contains(f));
    } else {
        assert(fields[fields.len() - 1] == fields.last());
        assert(fields.contains(fields.last()));
    }
}

proof fn role_columns_play(role: Role, schemas: Seq<TableV>, k: int)
    requires
        0 <= k < role_columns(role, schemas).len(),
    ensures
        exists|t: TableV, f: FieldV| #[trigger]
            schemas.contains(t) && #[trigger] t.fields.contains(f) && plays(role, f, t.sampled_rows)
                && role_columns(role, schemas)[k] == column_of(t.table, f),
    decreases schemas.len(),
{
    let short = schemas.drop_last();
    let before = role_columns(role, short);
    let last = schemas.last();
    if k < before.len() {
        role_columns_play(role, short, k);
        let (t, f) = choose|t: TableV, f: FieldV| #[trigger]
            short.contains(t) && #[trigger] t.fields.contains(f) && plays(role, f, t.sampled_rows)
                && before[k] == column_of(t.table, f);
        let i = choose|i: int| 0 <= i < short.len() && short[i] == t;
        assert(schemas[i] == t);
        assert(schemas.contains(t) && t.fields.contains(f));
    } else {
        table_columns_play(role, last, last.fields, k - before.len());
        let f = choose|f: FieldV| #[trigger]
            last.fields.contains(f) && plays(role, f, last.sampled_rows) && table_columns(
                role,
                last,
                last.fields,
            )[k - before.len()] == column_of(last.table, f);
        assert(schemas[schemas.len() - 1] == last);
        assert(schemas.contains(last) && last.fields.contains(f));
    }
}

/// Nothing is offered for a role that does not qualify: behind every
/// candidate stands a column that can play it, spelled as its label.
pub proof fn what_is_offered_qualifies(role: Role, schemas: Seq<TableV>, c: RoleV)
    requires
        ranked(role, schemas).contains(c),
    ensures
        exists|t: TableV, f: FieldV| #[trigger]
            schemas.contains(t) && #[trigger] t.fields.contains(f) && plays(role, f, t.sampled_rows)
                && f.name == c.label && lowered(f.name) == c.id,
{
    let columns = role_columns(role, schemas);
    ranked_is_candidate(role, schemas, c);
    let h = holders(column_keys(columns), c.id);
    holders_hold(column_keys(columns), c.id);
    assert(0 <= h[0] < columns.len());
    role_columns_play(role, schemas, h[0]);
    assert(column_keys(columns)[h[0]] == columns[h[0]].key);
}

// ── What holds of the roles ───────────────────────────────────────────────

/// A label is asked of a column whose texts fill half of the sampled rows or
/// more, with two to twenty-five values, none over sixty bytes and no more
/// than half of them identifiers. Once eight rows carry it, no more than four
/// values in five may differ.
pub proof fn labels_are_small_vocabularies(f: FieldV, sampled: int)
    ensures
        plays(Role::Label, f, sampled) <==> {
            &&& !system_column(f.name) && f.kind != "datetime"@ && f.types.contains("string"@)
            &&& sampled > 0 && f.seen_in + f.seen_in >= sampled
            &&& f.distinct >= 2 && f.distinct <= 25
            &&& f.seen_in >= 8 ==> f.distinct * 5 <= f.seen_in * 4
            &&& f.values.filter(|v: Text| byte_len(v) > 60).len() == 0
            &&& 2 * f.values.filter(|v: Text| identifier_like(v)).len() <= f.values.len()
        },
{
    tally_is_filter(f.values, |v: Text| identifier_like(v));
    let p = |v: Text| byte_len(v) > 60;
    filter_holds(f.values, p);
    let long = f.values.filter(p);
    if long.len() > 0 {
        assert(long.contains(long[0]));
        let i = choose|i: int| 0 <= i < f.values.len() && f.values[i] == long[0];
        assert(byte_len(f.values[i]) > 60);
    } else {
        assert forall|i: int| 0 <= i < f.values.len() implies byte_len(#[trigger] f.values[i])
            <= 60 by {
            if p(f.values[i]) {
                assert(f.values.contains(f.values[i]));
                assert(long.contains(f.values[i]));
            }
        }
    }
}

/// A time is a declared datetime, or a column that nothing declares and
/// three in five of whose values, or more, look like times.
pub proof fn times_are_declared_or_look_it(f: FieldV, sampled: int)
    ensures
        plays(Role::Time, f, sampled) <==> f.kind == "datetime"@ || (f.kind.len() == 0
            && f.values.len() > 0 && 5 * f.values.filter(|v: Text| time_like(v)).len() >= 3
            * f.values.len()),
{
    tally_is_filter(f.values, |v: Text| time_like(v));
}

/// The other roles are told by the kind of the values and by the name; no
/// injected column plays any.
pub proof fn roles_are_told_by_name(f: FieldV, sampled: int)
    ensures
        system_column(f.name) ==> !plays(Role::Scalar, f, sampled) && !plays(
            Role::Duration,
            f,
            sampled,
        ) && !plays(Role::Target, f, sampled) && !plays(Role::Message, f, sampled) && !plays(
            Role::Severity,
            f,
            sampled,
        ),
        !system_column(f.name) ==> {
            let text = f.types.contains("string"@);
            let number = f.types.contains("number"@);
            let lower = lowered(f.name);
            &&& plays(Role::Scalar, f, sampled) <==> text || number
            &&& plays(Role::Duration, f, sampled) <==> number && (holds(lower, "elapsed"@) || holds(
                lower,
                "duration"@,
            ))
            &&& plays(Role::Target, f, sampled) <==> text && holds(lower, "target"@)
            &&& plays(Role::Message, f, sampled) <==> text && (holds(lower, "body"@) || holds(
                lower,
                "message"@,
            ))
            &&& plays(Role::Severity, f, sampled) <==> text && (holds(lower, "level"@) || holds(
                lower,
                "criticality"@,
            ) || holds(lower, "severity"@))
        },
{
}

/// Injected columns are told in whatever letters they are spelled, and are
/// these only.
pub proof fn injected_columns_are_these(name: Text)
    ensures
        system_column(name) <==> seq![
            ascii_lowered("TenantId"@),
            ascii_lowered("SourceSystem"@),
            ascii_lowered("MG"@),
            ascii_lowered("ManagementGroupName"@),
            ascii_lowered("Type"@),
            ascii_lowered("_ResourceId"@),
            ascii_lowered("_SubscriptionId"@),
            ascii_lowered("_ItemId"@),
            ascii_lowered("_BilledSize"@),
            ascii_lowered("_IsBillable"@),
            ascii_lowered("_TimeReceived"@),
            ascii_lowered("_Internal_WorkspaceResourceId"@),
        ].contains(ascii_lowered(name)),
{
    let all = seq![
        ascii_lowered("TenantId"@),
        ascii_lowered("SourceSystem"@),
        ascii_lowered("MG"@),
        ascii_lowered("ManagementGroupName"@),
        ascii_lowered("Type"@),
        ascii_lowered("_ResourceId"@),
        ascii_lowered("_SubscriptionId"@),
        ascii_lowered("_ItemId"@),
        ascii_lowered("_BilledSize"@),
        ascii_lowered("_IsBillable"@),
        ascii_lowered("_TimeReceived"@),
        ascii_lowered("_Internal_WorkspaceResourceId"@),
    ];
    let n = ascii_lowered(name);
    assert(all[0] == n || all[1] == n || all[2] == n || all[3] == n || all[4] == n || all[5] == n
        || all[6] == n || all[7] == n || all[8] == n || all[9] == n || all[10] == n || all[11] == n
        <==> all.contains(n));
}

/// An identifier has a digit. It is sixteen bytes or more of hexadecimal
/// digits and dashes, or twelve or more of letters and digits.
pub proof fn identifiers_are_long_and_plain(v: Text)
    ensures
        identifier_like(v) ==> (exists|i: int| 0 <= i < v.len() && is_digit(#[trigger] v[i]))
            && byte_len(v) >= 12,
        identifier_like(v) && byte_len(v) < 16 ==> forall|i: int|
            0 <= i < v.len() ==> is_alnum(#[trigger] v[i]),
        identifier_like(v) && (exists|i: int| 0 <= i < v.len() && !is_alnum(#[trigger] v[i]))
            ==> forall|i: int| 0 <= i < v.len() ==> is_hex(#[trigger] v[i]) || v[i] == '-',
        (exists|i: int| 0 <= i < v.len() && is_digit(#[trigger] v[i])) && byte_len(v) >= 12 && (
        forall|i: int| 0 <= i < v.len() ==> is_alnum(#[trigger] v[i])) ==> identifier_like(v),
        (exists|i: int| 0 <= i < v.len() && is_digit(#[trigger] v[i])) && byte_len(v) >= 16 && (
        forall|i: int| 0 <= i < v.len() ==> is_hex(#[trigger] v[i]) || v[i] == '-')
            ==> identifier_like(v),
{
}

/// A text looks like a time when it begins as a date does, or is a number
/// of the epoch in seconds or milliseconds, from 2001 to 2096.
pub proof fn times_look_like_dates_or_epochs(v: Text, n: i64)
    ensures
        v.len() >= 10 && byte_len(v) >= 10 && v[4] == '-' && v[7] == '-' && (forall|i: int|
            0 <= i < 7 && i != 4 ==> is_digit(#[trigger] v[i])) ==> time_like(v),
        time_like(v) && i64_of(v) is None ==> byte_len(v) >= 10 && v[4] == '-' && v[7] == '-' && (
        forall|i: int| 0 <= i < 7 && i != 4 ==> is_digit(#[trigger] v[i])),
        i64_of(v) == Some(n) && 1_000_000_000 <= n <= 4_000_000_000 ==> time_like(v),
        i64_of(v) == Some(n) && 1_000_000_000_000 <= n <= 4_000_000_000_000 ==> time_like(v),
        i64_of(v) == Some(n) && !starts_like_date(v) && time_like(v) ==> 1_000_000_000 <= n
            <= 4_000_000_000 || 1_000_000_000 <= n / 1000 && n <= 4_000_000_000_000,
{
}

proof fn table_columns_filter(role: Role, t: TableV, fields: Seq<FieldV>)
    ensures
        table_columns(role, t, fields) == fields.filter(
            |f: FieldV| plays(role, f, t.sampled_rows),
        ).map_values(|f: FieldV| column_of(t.table, f)),
    decreases fields.len(),
{
    reveal(Seq::filter);
    let p = |f: FieldV| plays(role, f, t.sampled_rows);
    let g = |f: FieldV| column_of(t.table, f);
    if fields.len() > 0 {
        table_columns_filter(role, t, fields.drop_last());
        let part = fields.drop_last().filter(p);
        if p(fields.last()) {
            assert(part.push(fields.last()).map_values(g) =~= part.map_values(g).push(
                g(fields.last()),
            ));
        }
    } else {
        assert(fields.filter(p).map_values(g) =~= Seq::empty());
    }
}

/// The columns that play a role are those of each table in turn, each under
/// its lowercased name and with its own spelling, table and counts.
pub proof fn role_columns_are_of_every_table(role: Role, schemas: Seq<TableV>)
    ensures
        role_columns(role, schemas) == schemas.fold_left(
            Seq::<ColumnV>::empty(),
            |acc: Seq<ColumnV>, t: TableV|
                acc + t.fields.filter(|f: FieldV| plays(role, f, t.sampled_rows)).map_values(
                    |f: FieldV|
                        (ColumnV {
                            key: lowered(f.name),
                            label: f.name,
                            table: t.table,
                            declared: f.kind == "datetime"@,
                            distinct: f.distinct,
                        }),
                ),
        ),
    decreases schemas.len(),
{
    if schemas.len() > 0 {
        let t = schemas.last();
        role_columns_are_of_every_table(role, schemas.drop_last());
        table_columns_filter(role, t, t.fields);
        let kept = t.fields.filter(|f: FieldV| plays(role, f, t.sampled_rows));
        assert(kept.map_values(|f: FieldV| column_of(t.table, f)) =~= kept.map_values(
            |f: FieldV|
                (ColumnV {
                    key: lowered(f.name),
                    label: f.name,
                    table: t.table,
                    declared: f.kind == "datetime"@,
                    distinct: f.distinct,
                }),
        ));
    }
}

proof fn holders_filter(columns: Seq<ColumnV>, id: Text)
    ensures
        holders(column_keys(columns), id).map_values(|i: int| columns[i].table) == columns.filter(
            |c: ColumnV| c.key == id,
        ).map_values(|c: ColumnV| c.table),
    decreases columns.len(),
{
    reveal(Seq::filter);
    let p = |c: ColumnV| c.key == id;
    let g = |c: ColumnV| c.table;
    let keys = column_keys(columns);
    let f = |i: int| columns[i].table;
    let h = holders(keys, id);
    if columns.len() > 0 {
        let short = columns.drop_last();
        holders_filter(short, id);
        assert(column_keys(short) =~= keys.drop_last());
        let before = holders(keys.drop_last(), id);
        holders_hold(keys.drop_last(), id);
        let fs = |i: int| short[i].table;
        assert(before.map_values(f) =~= before.map_values(fs)) by {
            assert forall|k: int| 0 <= k < before.len() implies f(#[trigger] before[k]) == fs(
                before[k],
            ) by {
                assert(0 <= before[k] < short.len());
            }
        }
        let part = short.filter(p);
        if p(columns.last()) {
            assert(h.map_values(f) =~= before.map_values(f).push(columns.last().table));
            assert(part.push(columns.last()).map_values(g) =~= part.map_values(g).push(
                columns.last().table,
            ));
        }
    } else {
        assert(h.map_values(f) =~= Seq::empty());
        assert(columns.filter(p).map_values(g) =~= Seq::empty());
    }
}

/// A candidate's tables are those of the columns of its name, in order, and
/// it is shown as the first of them spells it.
pub proof fn candidates_gather_their_columns(role: Role, schemas: Seq<TableV>, c: RoleV, k: int)
    requires
        ranked(role, schemas).contains(c),
        0 <= k < role_columns(role, schemas).len(),
        role_columns(role, schemas)[k].key == c.id,
        forall|j: int| 0 <= j < k ==> (#[trigger] role_columns(role, schemas)[j]).key != c.id,
    ensures
        c.tables == role_columns(role, schemas).filter(|x: ColumnV| x.key == c.id).map_values(
            |x: ColumnV| x.table,
        ),
        c.label == role_columns(role, schemas)[k].label,
        c.tables.len() > 0,
{
    let columns = role_columns(role, schemas);
    let keys = column_keys(columns);
    ranked_is_candidate(role, schemas, c);
    holders_filter(columns, c.id);
    holders_hold(keys, c.id);
    holders_have(keys, c.id, k);
    let h = holders(keys, c.id);
    let x = choose|x: int| 0 <= x < h.len() && h[x] == k;
    if x > 0 {
        assert(h[0] < h[x]);
        assert(keys[h[0]] == c.id);
    }
    assert(h[0] == k);
}

/// Candidates stand by how many tables they reach, most first, and then by
/// label. Ingestion time, which every table has, stands behind all of them.
pub proof fn reach_decides_between_candidates(role: Role, schemas: Seq<TableV>, i: int, j: int)
    requires
        0 <= i < j < ranked(role, schemas).len(),
    ensures
        ({
            let a = ranked(role, schemas)[i];
            let b = ranked(role, schemas)[j];
            let held_back = |c: RoleV| role is Time && c.id == lowered("TimeGenerated"@);
            &&& !held_back(a) || held_back(b)
            &&& !held_back(a) && !held_back(b) ==> a.tables.len() >= b.tables.len()
            &&& !held_back(a) && !held_back(b) && a.tables.len() == b.tables.len() ==> !text_less(
                b.label,
                a.label,
            )
        }),
{
    let all = unranked(role, schemas);
    let ranks = all.map_values(|c: RoleV| role_rank(c));
    let got = ranked(role, schemas);
    order_is_stable(ranks);
    let o = order(ranks);
    let a = got[i];
    let b = got[j];
    assert(precedes(ranks, o[i], o[j]));
    assert(0 <= o[i] < all.len() && 0 <= o[j] < all.len());
    assert(a == all[o[i]] && b == all[o[j]]);
    assert(got.contains(a) && got.contains(b));
    ranked_is_candidate(role, schemas, a);
    ranked_is_candidate(role, schemas, b);
    let keys = column_keys(role_columns(role, schemas));
    holders_hold(keys, a.id);
    holders_hold(keys, b.id);
    text_less_irreflexive(a.label);
    let n = a.tables.len();
    let m = b.tables.len();
    assert(n >= 1 && m >= 1);
    let one: int = 232_792_560;
    if n < m {
        assert(n * one < m * one) by (nonlinear_arith)
            requires
                n < m,
                one == 232_792_560,
        ;
    }
    assert(m * one >= one) by (nonlinear_arith)
        requires
            m >= 1,
            one == 232_792_560,
    ;
}

proof fn most_distinct_is_most(columns: Seq<ColumnV>, h: Seq<int>)
    requires
        h.len() > 0,
        forall|i: int| 0 <= i < h.len() ==> columns[#[trigger] h[i]].distinct >= 0,
    ensures
        forall|i: int|
            0 <= i < h.len() ==> columns[#[trigger] h[i]].distinct <= most_distinct(columns, h),
        most_distinct(columns, h) == 0 || exists|i: int|
            0 <= i < h.len() && columns[#[trigger] h[i]].distinct == most_distinct(columns, h),
    decreases h.len(),
{
    let short = h.drop_last();
    let last = h.len() - 1;
    assert(h[last] == h.last());
    if short.len() > 0 {
        assert forall|i: int| 0 <= i < short.len() implies columns[#[trigger] short[i]].distinct
            >= 0 by {
            assert(short[i] == h[i]);
        }
        most_distinct_is_most(columns, short);
        assert forall|i: int| 0 <= i < h.len() implies columns[#[trigger] h[i]].distinct
            <= most_distinct(columns, h) by {
            if i < last {
                assert(short[i] == h[i]);
            }
        }
        if most_distinct(columns, h) != columns[h.last()].distinct && most_distinct(columns, h)
            != 0 {
            let i = choose|i: int|
                0 <= i < short.len() && columns[#[trigger] short[i]].distinct == most_distinct(
                    columns,
                    short,
                );
            assert(h[i] == short[i]);
        }
    }
}

/// A candidate's note counts its tables; that of a label also tells how many
/// values the richest of its columns has, and that of a time whether any is
/// declared. Ingestion time is told apart.
pub proof fn notes_count_the_tables(role: Role, schemas: Seq<TableV>, c: RoleV, most: int)
    requires
        ranked(role, schemas).contains(c),
        forall|x: ColumnV|
            role_columns(role, schemas).contains(x) && x.key == c.id ==> 0 <= (
            #[trigger] x.distinct) <= most,
        exists|x: ColumnV|
            role_columns(role, schemas).contains(x) && x.key == c.id && (#[trigger] x.distinct)
                == most,
    ensures
        ({
            let n = digits(c.tables.len());
            let ingested = c.id == lowered("TimeGenerated"@);
            let columns = role_columns(role, schemas);
            &&& role is Time && ingested ==> c.note
                == "ingestion time — always present, but not your domain timestamp"@
            &&& role is Time && !ingested && (exists|x: ColumnV|
                columns.contains(x) && x.key == c.id && #[trigger] x.declared) ==> c.note
                == "declared datetime, in "@ + n + " table(s)"@
            &&& role is Time && !ingested && !(exists|x: ColumnV|
                columns.contains(x) && x.key == c.id && #[trigger] x.declared) ==> c.note
                == "timestamp-shaped, in "@ + n + " table(s)"@
            &&& role is Label ==> c.note == digits(most as nat) + " distinct values, in "@ + n
                + " table(s)"@
            &&& !(role is Time) && !(role is Label) ==> c.note == "in "@ + n + " table(s)"@
        }),
{
    let columns = role_columns(role, schemas);
    let keys = column_keys(columns);
    ranked_is_candidate(role, schemas, c);
    holders_hold(keys, c.id);
    let h = holders(keys, c.id);
    assert forall|i: int| 0 <= i < h.len() implies columns.contains(columns[#[trigger] h[i]])
        && columns[h[i]].key == c.id by {
        assert(0 <= h[i] < keys.len() && keys[h[i]] == c.id);
    }
    assert forall|i: int| 0 <= i < h.len() implies 0 <= columns[#[trigger] h[i]].distinct
        <= most by {
        assert(columns.contains(columns[h[i]]));
    }
    most_distinct_is_most(columns, h);
    let x = choose|x: ColumnV|
        columns.contains(x) && x.key == c.id && (#[trigger] x.distinct) == most;
    let k = choose|k: int| 0 <= k < columns.len() && columns[k] == x;
    assert(keys[k] == c.id);
    holders_have(keys, c.id, k);
    let a = choose|a: int| 0 <= a < h.len() && h[a] == k;
    assert(columns[h[a]].distinct == most);
    assert(most_distinct(columns, h) == most);
    if any_declared(columns, h) {
        let i = choose|i: int| 0 <= i < h.len() && columns[#[trigger] h[i]].declared;
        assert(columns[h[i]].declared);
        assert(columns.contains(columns[h[i]]));
    }
    if exists|y: ColumnV| columns.contains(y) && y.key == c.id && #[trigger] y.declared {
        let y = choose|y: ColumnV| columns.contains(y) && y.key == c.id && #[trigger] y.declared;
        let m = choose|m: int| 0 <= m < columns.len() && columns[m] == y;
        assert(keys[m] == c.id);
        holders_have(keys, c.id, m);
        let b = choose|b: int| 0 <= b < h.len() && h[b] == m;
        assert(columns[h[b]].declared);
    }
}

proof fn table_values_hold(fields: Seq<FieldV>, lower_path: Text, x: Text)
    ensures
        table_values(fields, lower_path).contains(x) <==> exists|j: int|
            0 <= j < fields.len() && lowered((#[trigger] fields[j]).name) == lower_path
                && fields[j].values.contains(x),
    decreases fields.len(),
{
    if fields.len() > 0 {
        let short = fields.drop_last();
        table_values_hold(short, lower_path, x);
        let before = table_values(short, lower_path);
        let last = fields.last();
        assert(fields[fields.len() - 1] == last);
        let here = lowered(last.name) == lower_path && last.values.contains(x);
        assert((exists|j: int|
            0 <= j < fields.len() && lowered((#[trigger] fields[j]).name) == lower_path
                && fields[j].values.contains(x)) <==> here || exists|j: int|
            0 <= j < short.len() && lowered((#[trigger] short[j]).name) == lower_path
                && short[j].values.contains(x)) by {
            if exists|j: int|
                0 <= j < fields.len() && lowered((#[trigger] fields[j]).name) == lower_path
                    && fields[j].values.contains(x) {
                let j = choose|j: int|
                    0 <= j < fields.len() && lowered((#[trigger] fields[j]).name) == lower_path
                        && fields[j].values.contains(x);
                assert(j < short.len() ==> short[j] == fields[j]);
            }
            if exists|j: int|
                0 <= j < short.len() && lowered((#[trigger] short[j]).name) == lower_path
                    && short[j].values.contains(x) {
                let j = choose|j: int|
                    0 <= j < short.len() && lowered((#[trigger] short[j]).name) == lower_path
                        && short[j].values.contains(x);
                assert(short[j] == fields[j]);
            }
        }
        both_hold(before, last.values, x);
    }
}

proof fn both_hold(a: Seq<Text>, b: Seq<Text>, x: Text)
    ensures
        (a + b).contains(x) <==> a.contains(x) || b.contains(x),
{
    if a.contains(x) {
        let k = choose|k: int| 0 <= k < a.len() && a[k] == x;
        assert((a + b)[k] == x);
    }
    if b.contains(x) {
        let k = choose|k: int| 0 <= k < b.len() && b[k] == x;
        assert((a + b)[a.len() + k] == x);
    }
    if (a + b).contains(x) {
        let k = choose|k: int| 0 <= k < (a + b).len() && (a + b)[k] == x;
        assert(k < a.len() ==> a[k] == x);
        assert(k >= a.len() ==> b[k - a.len()] == x);
    }
}

/// The values known of a path are those sampled of it in any table, and no
/// other.
pub proof fn values_come_from_every_table(schemas: Seq<TableV>, lower_path: Text, x: Text)
    ensures
        sorted_set(path_values(schemas, lower_path)).contains(x) <==> exists|i: int, j: int|
            0 <= i < schemas.len() && 0 <= j < schemas[i].fields.len() && lowered(
                (#[trigger] schemas[i].fields[j]).name,
            ) == lower_path && schemas[i].fields[j].values.contains(x),
{
    sorted_set_holds(path_values(schemas, lower_path));
    path_values_hold(schemas, lower_path, x);
}

proof fn path_values_hold(schemas: Seq<TableV>, lower_path: Text, x: Text)
    ensures
        path_values(schemas, lower_path).contains(x) <==> exists|i: int, j: int|
            0 <= i < schemas.len() && 0 <= j < schemas[i].fields.len() && lowered(
                (#[trigger] schemas[i].fields[j]).name,
            ) == lower_path && schemas[i].fields[j].values.contains(x),
    decreases schemas.len(),
{
    if schemas.len() > 0 {
        let short = schemas.drop_last();
        let last = schemas.last();
        let n = schemas.len() - 1;
        path_values_hold(short, lower_path, x);
        table_values_hold(last.fields, lower_path, x);
        both_hold(path_values(short, lower_path), table_values(last.fields, lower_path), x);
        if exists|i: int, j: int|
            0 <= i < schemas.len() && 0 <= j < schemas[i].fields.len() && lowered(
                (#[trigger] schemas[i].fields[j]).name,
            ) == lower_path && schemas[i].fields[j].values.contains(x) {
            let (i, j) = choose|i: int, j: int|
                0 <= i < schemas.len() && 0 <= j < schemas[i].fields.len() && lowered(
                    (#[trigger] schemas[i].fields[j]).name,
                ) == lower_path && schemas[i].fields[j].values.contains(x);
            if i < n {
                assert(short[i].fields[j] == schemas[i].fields[j]);
            } else {
                assert(last.fields[j] == schemas[i].fields[j]);
            }
        }
        if path_values(short, lower_path).contains(x) {
            let (i, j) = choose|i: int, j: int|
                0 <= i < short.len() && 0 <= j < short[i].fields.len() && lowered(
                    (#[trigger] short[i].fields[j]).name,
                ) == lower_path && short[i].fields[j].values.contains(x);
            assert(schemas[i].fields[j] == short[i].fields[j]);
        }
        if table_values(last.fields, lower_path).contains(x) {
            let j = choose|j: int|
                0 <= j < last.fields.len() && lowered((#[trigger] last.fields[j]).name)
                    == lower_path && last.fields[j].values.contains(x);
            assert(schemas[n].fields[j] == last.fields[j]);
        }
    }
}

/// Each list of what was found holds candidates of its own role, and of
/// every one: a column is among the times exactly when it is one, and so on.
pub proof fn insights_keep_roles_apart(schemas: Seq<TableV>, t: TableV, f: FieldV)
    requires
        schemas.contains(t),
        t.fields.contains(f),
    ensures
        ({
            let found = insights_of(schemas);
            let named = |c: RoleV| c.id == lowered(f.name);
            let offered = |list: Seq<RoleV>| list.filter(named).len() > 0;
            &&& plays(Role::Time, f, t.sampled_rows) ==> offered(found.times)
            &&& plays(Role::Label, f, t.sampled_rows) ==> offered(found.labels)
            &&& plays(Role::Duration, f, t.sampled_rows) ==> offered(found.durations)
            &&& plays(Role::Target, f, t.sampled_rows) ==> offered(found.targets)
            &&& plays(Role::Message, f, t.sampled_rows) ==> offered(found.messages)
            &&& plays(Role::Severity, f, t.sampled_rows) ==> offered(found.severities)
            &&& found.tables.contains(t.table)
            &&& found.tables.len() == schemas.len()
        }),
{
    let found = insights_of(schemas);
    offered_once(Role::Time, schemas, t, f);
    offered_once(Role::Label, schemas, t, f);
    offered_once(Role::Duration, schemas, t, f);
    offered_once(Role::Target, schemas, t, f);
    offered_once(Role::Message, schemas, t, f);
    offered_once(Role::Severity, schemas, t, f);
    let k = choose|k: int| 0 <= k < schemas.len() && schemas[k] == t;
    assert(found.tables[k] == t.table);
}

proof fn offered_once(role: Role, schemas: Seq<TableV>, t: TableV, f: FieldV)
    requires
        schemas.contains(t),
        t.fields.contains(f),
    ensures
        plays(role, f, t.sampled_rows) ==> ranked(role, schemas).filter(
            |c: RoleV| c.id == lowered(f.name),
        ).len() > 0,
{
    if plays(role, f, t.sampled_rows) {
        what_qualifies_is_offered(role, schemas, t, f);
        let all = ranked(role, schemas);
        let p = |c: RoleV| c.id == lowered(f.name);
        let c = choose|c: RoleV| #[trigger] all.contains(c) && c.id == lowered(f.name);
        filter_holds(all, p);
        assert(p(c));
        assert(all.filter(p).contains(c));
    }
}

/// A name hints at an identifier exactly when one of the usual words stands
/// in it.
pub proof fn usual_words_hint_at_an_identifier(lower: Text)
    ensures
        identifier_hint(lower) <==> seq![
            "correlation"@,
            "trace"@,
            "requestid"@,
            "conversation"@,
            "session"@,
            "flowid"@,
            "operation"@,
        ].filter(|w: Text| holds(lower, w)).len() > 0,
{
    let words = seq![
        "correlation"@,
        "trace"@,
        "requestid"@,
        "conversation"@,
        "session"@,
        "flowid"@,
        "operation"@,
    ];
    let p = |w: Text| holds(lower, w);
    filter_holds(words, p);
    let found = words.filter(p);
    assert(words.contains(words[0]) && words.contains(words[1]) && words.contains(words[2])
        && words.contains(words[3]) && words.contains(words[4]) && words.contains(words[5])
        && words.contains(words[6]));
    if identifier_hint(lower) {
        assert(found.contains(words[0]) || found.contains(words[1]) || found.contains(words[2])
            || found.contains(words[3]) || found.contains(words[4]) || found.contains(words[5])
            || found.contains(words[6]));
    }
    if found.len() > 0 {
        assert(found.contains(found[0]));
        let k = choose|k: int| 0 <= k < words.len() && words[k] == found[0];
        assert(k == 0 || k == 1 || k == 2 || k == 3 || k == 4 || k == 5 || k == 6);
        assert(p(found[0]));
    }
}

/// The last part of a path decides whether it is a standard column, with or
/// without the suffix of a type.
pub proof fn standard_columns_go_by_their_last_part(lower: Text, last: Text, name: Text)
    requires
        pieces(lower, '.').last() == last,
        seq![
            "operationid"@,
            "operation_id"@,
            "parentid"@,
            "operation_parentid"@,
            "correlationid"@,
            "traceid"@,
        ].contains(name),
    ensures
        last == name + seq!['_', 'g'] ==> well_known_key(lower),
        last == name + seq!['_', 's'] ==> well_known_key(lower),
        last == name && !(name.len() >= 2 && name[name.len() - 2] == '_') ==> well_known_key(lower),
{
    reveal_strlit("_g");
    reveal_strlit("_s");
    let all = seq![
        "operationid"@,
        "operation_id"@,
        "parentid"@,
        "operation_parentid"@,
        "correlationid"@,
        "traceid"@,
    ];
    let k = choose|k: int| 0 <= k < all.len() && all[k] == name;
    assert(k == 0 || k == 1 || k == 2 || k == 3 || k == 4 || k == 5);
    assert(conventional(name));
    let g = name + seq!['_', 'g'];
    let s = name + seq!['_', 's'];
    let n = name.len() as int;
    assert(g.subrange(n, n + 2) =~= "_g"@);
    assert(s.subrange(n, n + 2) =~= "_s"@);
    assert(g.take(n) =~= name && s.take(n) =~= name);
    if last == name && !(n >= 2 && name[n - 2] == '_') {
        if n >= 2 {
            let tail = name.subrange(n - 2, n);
            assert(tail[0] == name[n - 2]);
            assert("_g"@[0] == '_' && "_s"@[0] == '_');
        }
        assert(stem(name) == name);
    }
}

/// Nothing else is a standard column.
pub proof fn standard_columns_are_these(lower: Text)
    requires
        well_known_key(lower),
    ensures
        seq![
            "operationid"@,
            "operation_id"@,
            "parentid"@,
            "operation_parentid"@,
            "correlationid"@,
            "traceid"@,
        ].contains(stem(pieces(lower, '.').last())),
{
    let all = seq![
        "operationid"@,
        "operation_id"@,
        "parentid"@,
        "operation_parentid"@,
        "correlationid"@,
        "traceid"@,
    ];
    let n = stem(pieces(lower, '.').last());
    assert(all[0] == n || all[1] == n || all[2] == n || all[3] == n || all[4] == n || all[5] == n);
}

/// Every scalar column is listed once under its lowercased name, ascending,
/// whatever its reach.
pub proof fn scalar_columns_are_listed_by_name(schemas: Seq<TableV>, i: int, j: int)
    requires
        0 <= i < j < unranked(Role::Scalar, schemas).len(),
    ensures
        text_less(
            unranked(Role::Scalar, schemas)[i].id,
            unranked(Role::Scalar, schemas)[j].id,
        ),
        ranked(Role::Scalar, schemas).contains(unranked(Role::Scalar, schemas)[i]),
        ranked(Role::Scalar, schemas).len() == unranked(Role::Scalar, schemas).len(),
{
    let all = unranked(Role::Scalar, schemas);
    let ids = sorted_set(column_keys(role_columns(Role::Scalar, schemas)));
    sorted_set_holds(column_keys(role_columns(Role::Scalar, schemas)));
    assert(text_less(ids[i], ids[j]));
    arranged_keeps(all, all.map_values(|c: RoleV| role_rank(c)));
    assert(all.contains(all[i]));
}

/// No two candidates for a role have one name.
pub proof fn candidates_have_names_of_their_own(role: Role, schemas: Seq<TableV>, i: int, j: int)
    requires
        0 <= i < j < ranked(role, schemas).len(),
    ensures
        ranked(role, schemas)[i].id != ranked(role, schemas)[j].id,
{
    let all = unranked(role, schemas);
    let ranks = all.map_values(|c: RoleV| role_rank(c));
    let ids = sorted_set(column_keys(role_columns(role, schemas)));
    sorted_set_holds(column_keys(role_columns(role, schemas)));
    order_is_stable(ranks);
    let o = order(ranks);
    order_has_all(o, ranks);
    assert(0 <= o[i] < all.len() && 0 <= o[j] < all.len());
    assert(o[i] != o[j]);
    text_less_irreflexive(ids[o[i]]);
    if o[i] < o[j] {
        assert(text_less(ids[o[i]], ids[o[j]]));
    } else {
        assert(text_less(ids[o[j]], ids[o[i]]));
    }
    assert(all[o[i]].id == ids[o[i]] && all[o[j]].id == ids[o[j]]);
}

} // verus!
