//! The workspace window: what it has scanned, what is chosen, and what each
//! of its lists shows.

use crate::cache::CachedScan;
use crate::discover::{field_values, path_values, Insights, InsightsV, RoleCandidate, RoleV};
use crate::exceptions::{Group, GroupV};
use crate::exceptions_view::{both_ends, keep_ends};
use crate::history::{capped, Entry, EntryV};
use crate::keys::{binding_in, KeyCandidate, KeyV};
use crate::lanes::{counted, Lane, LaneState, LaneV, Trace, TraceV};
use crate::loganalytics::TimeRange;
use crate::order::{filter_holds, ints, sort_set, sorted_set, sorted_set_holds};
use crate::schema::{FieldInfo, TableSchema, TableV};
use crate::text::{
    byte_len, bytes_in, cat2, cat3, cat4, cat5, cat6, chars_of, contains, decimal, digits, holds,
    join, joined, listed, lowercase, lowered, opt_text, same, stands_at, trim, trimmed, views, Text,
};
use crate::trace::{ErrorRule, RuleV, SpecV, TraceSpec, MIN_FRAGMENT};
use vstd::prelude::*;

verus! {

// ── The scan ──────────────────────────────────────────────────────────────

#[derive(Debug, PartialEq)]
pub enum LoadState {
    Idle,
    Loading,
    Done,
    Failed(String),
}

#[verifier::ext_equal]
pub ghost enum LoadV {
    Idle,
    Loading,
    Done,
    Failed(Text),
}

impl View for LoadState {
    type V = LoadV;

    open spec fn view(&self) -> LoadV {
        match self {
            LoadState::Idle => LoadV::Idle,
            LoadState::Loading => LoadV::Loading,
            LoadState::Done => LoadV::Done,
            LoadState::Failed(e) => LoadV::Failed(e@),
        }
    }
}

/// What is on screen of a workspace, and what is known of how current it is.
#[derive(Debug, PartialEq)]
pub struct Scan {
    pub state: LoadState,
    pub schemas: Vec<TableSchema>,
    pub refreshing: bool,
    pub refresh_error: Option<String>,
    /// Unix seconds.
    pub scanned_at: Option<i64>,
}

#[verifier::ext_equal]
pub ghost struct ScanV {
    pub state: LoadV,
    pub schemas: Seq<TableV>,
    pub refreshing: bool,
    pub refresh_error: Option<Text>,
    pub scanned_at: Option<i64>,
}

impl View for Scan {
    type V = ScanV;

    open spec fn view(&self) -> ScanV {
        ScanV {
            state: self.state@,
            schemas: views(self.schemas@),
            refreshing: self.refreshing,
            refresh_error: opt_text(self.refresh_error),
            scanned_at: self.scanned_at,
        }
    }
}

/// Before anything was read.
pub open spec fn unscanned() -> ScanV {
    ScanV {
        state: LoadV::Idle,
        schemas: Seq::empty(),
        refreshing: false,
        refresh_error: None,
        scanned_at: None,
    }
}

/// A scan begins. In the background it leaves what is shown alone.
pub open spec fn started(s: ScanV, background: bool) -> ScanV {
    if background {
        ScanV { refreshing: true, refresh_error: None, ..s }
    } else {
        ScanV {
            state: LoadV::Loading,
            schemas: Seq::empty(),
            refreshing: true,
            refresh_error: None,
            ..s
        }
    }
}

/// A scan ends.
pub open spec fn finished(
    s: ScanV,
    background: bool,
    at: i64,
    found: Result<Seq<TableV>, Text>,
) -> ScanV {
    match found {
        Ok(schemas) => ScanV {
            state: LoadV::Done,
            schemas,
            refreshing: false,
            scanned_at: Some(at),
            ..s
        },
        Err(e) => if background {
            ScanV { refreshing: false, refresh_error: Some(e), ..s }
        } else {
            ScanV { state: LoadV::Failed(e), refreshing: false, ..s }
        },
    }
}

pub open spec fn found_view(found: Result<Vec<TableSchema>, String>) -> Result<Seq<TableV>, Text> {
    match found {
        Ok(v) => Ok(views(v@)),
        Err(e) => Err(e@),
    }
}

impl Scan {
    pub fn new() -> (r: Scan)
        ensures
            r@ == unscanned(),
    {
        let schemas: Vec<TableSchema> = Vec::new();
        assert(views(schemas@) =~= Seq::<TableV>::empty());
        Scan {
            state: LoadState::Idle,
            schemas,
            refreshing: false,
            refresh_error: None,
            scanned_at: None,
        }
    }

    /// Opens on a scan that was kept, if there is one, and says whether it
    /// did.
    pub fn open_cached(&mut self, cached: Option<CachedScan>) -> (warm: bool)
        ensures
            match cached {
                Some(c) => warm && final(self)@ == (ScanV {
                    state: LoadV::Done,
                    schemas: views(c.schemas@),
                    scanned_at: Some(c.scanned_at),
                    ..old(self)@
                }),
                None => !warm && *final(self) == *old(self),
            },
    {
        match cached {
            Some(c) => {
                self.scanned_at = Some(c.scanned_at);
                self.schemas = c.schemas;
                self.state = LoadState::Done;
                true
            },
            None => false,
        }
    }

    pub fn start(&mut self, background: bool)
        ensures
            final(self)@ == started(old(self)@, background),
    {
        if !background {
            let none: Vec<TableSchema> = Vec::new();
            assert(views(none@) =~= Seq::<TableV>::empty());
            self.state = LoadState::Loading;
            self.schemas = none;
        }
        self.refreshing = true;
        self.refresh_error = None;
    }

    pub fn finish(&mut self, background: bool, at: i64, found: Result<Vec<TableSchema>, String>)
        ensures
            final(self)@ == finished(old(self)@, background, at, found_view(found)),
    {
        match found {
            Ok(schemas) => {
                self.scanned_at = Some(at);
                self.schemas = schemas;
                self.state = LoadState::Done;
            },
            Err(e) => {
                if background {
                    self.refresh_error = Some(e);
                } else {
                    self.state = LoadState::Failed(e);
                }
            },
        }
        self.refreshing = false;
    }

    /// Whether the scan failed for want of a role that can be granted.
    pub fn is_forbidden(&self) -> (r: bool)
        ensures
            r == match self@.state {
                LoadV::Failed(e) => holds(e, "access denied"@),
                _ => false,
            },
    {
        match &self.state {
            LoadState::Failed(e) => contains(e.as_str(), "access denied"),
            _ => false,
        }
    }
}

/// A refresh that fails leaves on screen what was there, and says that it
/// failed.
pub proof fn failed_refresh_keeps_the_view(s: ScanV, at: i64, e: Text)
    ensures
        ({
            let after = finished(started(s, true), true, at, Err(e));
            &&& after.schemas == s.schemas
            &&& after.state == s.state
            &&& after.scanned_at == s.scanned_at
            &&& after.refresh_error == Some(e)
            &&& !after.refreshing
        }),
{
}

/// Whatever was there before, a scan that succeeds shows exactly what it
/// found.
pub proof fn finished_scan_is_shown(s: ScanV, background: bool, at: i64, found: Seq<TableV>)
    ensures
        finished(started(s, background), background, at, Ok(found)) == (ScanV {
            state: LoadV::Done,
            schemas: found,
            refreshing: false,
            refresh_error: None,
            scanned_at: Some(at),
        }),
{
}

/// What is said of how current the view is.
#[derive(Debug, PartialEq)]
pub enum Freshness {
    Refreshing,
    /// The refresh failed, and what is shown is from before.
    Stale(String),
    /// Sampled at this time, in Unix seconds.
    Sampled(i64),
    Unknown,
}

impl Scan {
    pub fn freshness(&self) -> (r: Freshness)
        ensures
            match r {
                Freshness::Refreshing => self@.refreshing,
                Freshness::Stale(e) => !self@.refreshing && self@.refresh_error == Some(e@),
                Freshness::Sampled(at) => !self@.refreshing && self@.refresh_error is None
                    && self@.scanned_at == Some(at),
                Freshness::Unknown => !self@.refreshing && self@.refresh_error is None
                    && self@.scanned_at is None,
            },
    {
        if self.refreshing {
            return Freshness::Refreshing;
        }
        match &self.refresh_error {
            Some(e) => Freshness::Stale(e.clone()),
            None => match self.scanned_at {
                Some(at) => Freshness::Sampled(at),
                None => Freshness::Unknown,
            },
        }
    }
}

// ── Time ranges ───────────────────────────────────────────────────────────

/// The range that an ISO duration stands for.
pub fn range_of(iso: &str) -> (r: Option<TimeRange>)
    ensures
        match r {
            Some(range) => range.iso_text() == iso@,
            None => forall|range: TimeRange| #[trigger] range.iso_text() != iso@,
        },
{
    let all = TimeRange::all();
    let mut i: usize = 0;
    while i < 6
        invariant
            i <= 6,
            all@.len() == 6,
            forall|x: TimeRange| all@.contains(x),
            forall|k: int| 0 <= k < i ==> (#[trigger] all@[k]).iso_text() != iso@,
        decreases 6 - i,
    {
        let range: TimeRange = all[i];
        if same(range.iso(), iso) {
            return Some(range);
        }
        i = i + 1;
    }
    assert forall|range: TimeRange| #[trigger] range.iso_text() != iso@ by {
        assert(all@.contains(range));
        let k = choose|k: int| 0 <= k < all@.len() && all@[k] == range;
        assert(all@[k].iso_text() != iso@);
    }
    None
}

/// No two ranges share an ISO duration, so each is found by its own.
pub proof fn ranges_are_told_apart(a: TimeRange, b: TimeRange)
    requires
        a.iso_text() == b.iso_text(),
    ensures
        a == b,
{
    reveal_strlit("PT1H");
    reveal_strlit("PT2H");
    reveal_strlit("PT4H");
    reveal_strlit("P1D");
    reveal_strlit("P7D");
    reveal_strlit("P30D");
    assert("PT1H"@[2] == '1' && "PT2H"@[2] == '2' && "PT4H"@[2] == '4');
    assert("PT1H"@[1] == 'T' && "PT2H"@[1] == 'T' && "PT4H"@[1] == 'T');
    assert("P1D"@[1] == '1' && "P7D"@[1] == '7' && "P30D"@[1] == '3');
}

/// The range picked, when it is another than the current one.
pub fn range_change(iso: &str, current: TimeRange) -> (r: Option<TimeRange>)
    ensures
        match r {
            Some(range) => range.iso_text() == iso@ && range != current,
            None => current.iso_text() == iso@ || forall|range: TimeRange| #[trigger]
                range.iso_text() != iso@,
        },
{
    match range_of(iso) {
        Some(range) => if range == current {
            None
        } else {
            Some(range)
        },
        None => None,
    }
}

// ── What is chosen ────────────────────────────────────────────────────────

/// A choice after a scan: the best option where nothing was chosen, nothing
/// where the choice is no option any more.
pub open spec fn reconciled(current: Text, options: Seq<Text>) -> Text {
    if current.len() == 0 {
        if options.len() > 0 {
            options[0]
        } else {
            current
        }
    } else if options.contains(current) {
        current
    } else {
        Seq::empty()
    }
}

/// Keeps a choice valid across scans.
pub fn reconcile(selection: &mut String, options: &Vec<String>)
    ensures
        final(selection)@ == reconciled(old(selection)@, views(options@)),
{
    let ghost ov = views(options@);
    assert(ov.len() == options@.len());
    if selection.as_str().is_empty() {
        if options.len() > 0 {
            assert(ov[0] == options@[0]@);
            *selection = options[0].clone();
        }
    } else if !listed(options, selection.as_str()) {
        let none: String = String::new();
        assert(none@ =~= Seq::empty());
        *selection = none;
    }
}

/// After a scan nothing is chosen that the scan does not offer, and a choice
/// that it does offer stands.
pub proof fn choices_stay_valid(current: Text, options: Seq<Text>)
    ensures
        reconciled(current, options).len() == 0 || options.contains(
            reconciled(current, options),
        ),
        current.len() > 0 && options.contains(current) ==> reconciled(current, options) == current,
{
    if current.len() == 0 && options.len() > 0 {
        assert(options.contains(options[0]));
    }
}

pub open spec fn key_ids(keys: Seq<KeyV>) -> Seq<Text> {
    keys.map_values(|k: KeyV| k.id)
}

pub open spec fn role_ids(roles: Seq<RoleV>) -> Seq<Text> {
    roles.map_values(|c: RoleV| c.id)
}

fn ids_of_keys(keys: &Vec<KeyCandidate>) -> (r: Vec<String>)
    ensures
        views(r@) == key_ids(views(keys@)),
{
    let mut out: Vec<String> = Vec::new();
    let mut i: usize = 0;
    while i < keys.len()
        invariant
            i <= keys@.len(),
            out@.len() == i,
            forall|k: int| 0 <= k < i ==> (#[trigger] out@[k])@ == keys@[k]@.id,
        decreases keys@.len() - i,
    {
        out.push(keys[i].id.clone());
        i = i + 1;
    }
    assert(views(out@) =~= key_ids(views(keys@)));
    out
}

fn ids_of_roles(roles: &Vec<RoleCandidate>) -> (r: Vec<String>)
    ensures
        views(r@) == role_ids(views(roles@)),
{
    let mut out: Vec<String> = Vec::new();
    let mut i: usize = 0;
    while i < roles.len()
        invariant
            i <= roles@.len(),
            out@.len() == i,
            forall|k: int| 0 <= k < i ==> (#[trigger] out@[k])@ == roles@[k]@.id,
        decreases roles@.len() - i,
    {
        out.push(roles[i].id.clone());
        i = i + 1;
    }
    assert(views(out@) =~= role_ids(views(roles@)));
    out
}

/// The columns chosen: what links the steps, what orders them, what names
/// them, and what the lanes are. Without a lane column they are tables.
#[derive(Debug, PartialEq)]
pub struct Choices {
    pub key_id: String,
    pub time_id: String,
    pub label_id: String,
    pub lane_id: String,
}

#[verifier::ext_equal]
pub ghost struct ChoicesV {
    pub key_id: Text,
    pub time_id: Text,
    pub label_id: Text,
    pub lane_id: Text,
}

impl View for Choices {
    type V = ChoicesV;

    open spec fn view(&self) -> ChoicesV {
        ChoicesV {
            key_id: self.key_id@,
            time_id: self.time_id@,
            label_id: self.label_id@,
            lane_id: self.lane_id@,
        }
    }
}

/// The choices after a scan. Lanes default to tables, so a lane column is
/// only ever dropped.
pub open spec fn reconciled_choices(c: ChoicesV, insights: InsightsV) -> ChoicesV {
    ChoicesV {
        key_id: reconciled(c.key_id, key_ids(insights.keys)),
        time_id: reconciled(c.time_id, role_ids(insights.times)),
        label_id: reconciled(c.label_id, role_ids(insights.labels)),
        lane_id: if role_ids(insights.labels).contains(c.lane_id) {
            c.lane_id
        } else {
            Seq::empty()
        },
    }
}

impl Choices {
    pub fn reconcile(&mut self, insights: &Insights)
        ensures
            final(self)@ == reconciled_choices(old(self)@, insights@),
    {
        let keys = ids_of_keys(&insights.keys);
        let times = ids_of_roles(&insights.times);
        let labels = ids_of_roles(&insights.labels);
        reconcile(&mut self.key_id, &keys);
        reconcile(&mut self.time_id, &times);
        reconcile(&mut self.label_id, &labels);
        if !listed(&labels, self.lane_id.as_str()) {
            let none: String = String::new();
            assert(none@ =~= Seq::empty());
            self.lane_id = none;
        }
    }
}

/// The first key with an id.
pub open spec fn key_with(keys: Seq<KeyV>, id: Text) -> Option<KeyV>
    decreases keys.len(),
{
    if keys.len() == 0 {
        None
    } else if keys[0].id == id {
        Some(keys[0])
    } else {
        key_with(keys.drop_first(), id)
    }
}

pub fn find_key<'a>(keys: &'a Vec<KeyCandidate>, id: &str) -> (r: Option<&'a KeyCandidate>)
    ensures
        match r {
            Some(k) => key_with(views(keys@), id@) == Some(k@),
            None => key_with(views(keys@), id@) is None,
        },
{
    let ghost all = views(keys@);
    let mut i: usize = 0;
    assert(all.skip(0) =~= all);
    while i < keys.len()
        invariant
            i <= keys@.len(),
            all == views(keys@),
            key_with(all, id@) == key_with(all.skip(i as int), id@),
        decreases keys@.len() - i,
    {
        assert(all.skip(i as int)[0] == keys@[i as int]@);
        assert(all.skip(i as int).drop_first() =~= all.skip(i + 1));
        if same(keys[i].id.as_str(), id) {
            return Some(&keys[i]);
        }
        i = i + 1;
    }
    assert(all.skip(i as int).len() == 0);
    None
}

// ── Following a value ─────────────────────────────────────────────────────

/// Columns whose values a card shows.
pub const FACT_COLUMNS: usize = 6;

/// What to trace a value with, by what is chosen; nothing without a key.
pub open spec fn followed(
    insights: InsightsV,
    c: ChoicesV,
    value: Text,
    range: TimeRange,
) -> Option<SpecV> {
    match key_with(insights.keys, c.key_id) {
        Some(key) => Some(
            SpecV {
                key,
                value,
                time_field: c.time_id,
                label_field: c.label_id,
                fact_fields: if insights.labels.len() <= FACT_COLUMNS {
                    role_ids(insights.labels)
                } else {
                    role_ids(insights.labels).take(FACT_COLUMNS as int)
                },
                range,
            },
        ),
        None => None,
    }
}

pub fn follow(insights: &Insights, choices: &Choices, value: &str, range: TimeRange) -> (r: Option<
    TraceSpec,
>)
    ensures
        match r {
            Some(s) => followed(insights@, choices@, value@, range) == Some(s@),
            None => followed(insights@, choices@, value@, range) is None,
        },
{
    let key = match find_key(&insights.keys, choices.key_id.as_str()) {
        Some(k) => k.clone(),
        None => {
            return None;
        },
    };
    let mut facts = ids_of_roles(&insights.labels);
    let ghost ids = views(facts@);
    assert(ids.len() == insights@.labels.len());
    facts.truncate(FACT_COLUMNS);
    assert(views(facts@) =~= if insights@.labels.len() <= FACT_COLUMNS {
        ids
    } else {
        ids.take(FACT_COLUMNS as int)
    });
    Some(
        TraceSpec {
            key,
            value: value.to_owned(),
            time_field: choices.time_id.clone(),
            label_field: choices.label_id.clone(),
            fact_fields: facts,
            range,
        },
    )
}

/// What is remembered of a value that is followed.
pub fn follow_entry(spec_: &TraceSpec) -> (r: Entry)
    ensures
        r@ == (EntryV { value: spec_@.value, key: spec_@.key.label }),
{
    Entry { value: spec_.value.clone(), key: spec_.key.label.clone() }
}

pub open spec fn failed_lane(name: Text, error: Text) -> LaneV {
    LaneV {
        name,
        detail: None,
        blocks: Seq::empty(),
        state: LaneState::Failed(0),
        error: Some(error),
    }
}

/// The trace of a value that could not be looked for at all: every lane
/// says why, rather than nothing being shown.
pub open spec fn failed_trace_of(tables: Seq<Text>, s: SpecV, error: Text) -> TraceV {
    TraceV {
        value: s.value,
        key_label: s.key.label,
        lanes: tables.map_values(|t: Text| failed_lane(t, error)),
        span: None,
        blocks_found: 0,
        partial: false,
        matches: Seq::empty(),
    }
}

pub fn failed_trace(tables: &Vec<String>, spec_: &TraceSpec, error: &str) -> (r: Trace)
    ensures
        r@ == failed_trace_of(views(tables@), spec_@, error@),
{
    let ghost want = views(tables@).map_values(|t: Text| failed_lane(t, error@));
    let mut lanes: Vec<Lane> = Vec::new();
    let mut i: usize = 0;
    while i < tables.len()
        invariant
            i <= tables@.len(),
            want == views(tables@).map_values(|t: Text| failed_lane(t, error@)),
            lanes@.len() == i,
            forall|k: int| 0 <= k < i ==> (#[trigger] lanes@[k])@ == want[k],
        decreases tables@.len() - i,
    {
        let lane = Lane {
            name: tables[i].clone(),
            detail: None,
            blocks: Vec::new(),
            state: LaneState::Failed(0),
            error: Some(error.to_owned()),
        };
        assert(lane@ =~= want[i as int]);
        lanes.push(lane);
        i = i + 1;
    }
    assert(views(lanes@) =~= want);
    let matches: Vec<(String, usize)> = Vec::new();
    assert(counted(matches@) =~= Seq::<(Text, int)>::empty());
    Trace {
        value: spec_.value.clone(),
        key_label: spec_.key.label.clone(),
        lanes,
        span: None,
        blocks_found: 0,
        partial: false,
        matches,
    }
}

/// What is done once, when a scan has settled on a key.
#[derive(Debug, PartialEq)]
pub enum Autoload {
    /// Not yet, or not again.
    Nothing,
    /// There is no value to replay.
    Settled,
    Replay(String),
}

/// Whether to replay the value traced last.
pub fn autoload(state: &LoadState, key_id: &str, done: bool, recent: &Vec<Entry>) -> (r: Autoload)
    ensures
        match r {
            Autoload::Nothing => state@ != LoadV::Done || key_id@.len() == 0 || done,
            Autoload::Settled => state@ == LoadV::Done && key_id@.len() > 0 && !done
                && recent@.len() == 0,
            Autoload::Replay(value) => state@ == LoadV::Done && key_id@.len() > 0 && !done
                && recent@.len() > 0 && value@ == recent@[0]@.value,
        },
{
    let ready = match state {
        LoadState::Done => !key_id.is_empty(),
        _ => false,
    };
    if !ready || done {
        Autoload::Nothing
    } else if recent.len() == 0 {
        Autoload::Settled
    } else {
        Autoload::Replay(recent[0].value.clone())
    }
}

/// The fragment to look up, when what is typed is long enough for one. A
/// lookup scans every table, so short ones are not made.
pub fn fragment_of(typed: &str) -> (r: Option<String>)
    ensures
        match r {
            Some(t) => t@ == trimmed(typed@) && byte_len(t@) >= MIN_FRAGMENT,
            None => byte_len(trimmed(typed@)) < MIN_FRAGMENT,
        },
{
    let text = trim(typed);
    if bytes_in(text.as_str()) < MIN_FRAGMENT as u128 {
        None
    } else {
        Some(text)
    }
}

/// Whether a lookup is still wanted: what is typed, without the space around
/// it, is what it was made for.
pub fn still_wanted(typed: &str, text: &str) -> (r: bool)
    ensures
        r == (trimmed(typed@) == text@),
{
    same(trim(typed).as_str(), text)
}

/// The value that the box begins with: the one traced last.
pub fn initial_value(recent: &Vec<Entry>) -> (r: String)
    ensures
        r@ == if recent@.len() > 0 {
            recent@[0]@.value
        } else {
            Seq::empty()
        },
{
    if recent.len() > 0 {
        recent[0].value.clone()
    } else {
        let none: String = String::new();
        assert(none@ =~= Seq::empty());
        none
    }
}

/// The value to follow, when there is one.
pub fn submitted(value: &str) -> (r: Option<String>)
    ensures
        match r {
            Some(t) => t@ == trimmed(value@) && t@.len() > 0,
            None => trimmed(value@).len() == 0,
        },
{
    let t = trim(value);
    if t.as_str().is_empty() {
        None
    } else {
        Some(t)
    }
}

/// Whether a value can be followed now.
pub fn can_follow(value: &str, busy: bool) -> (r: bool)
    ensures
        r == (trimmed(value@).len() > 0 && !busy),
{
    let t = trim(value);
    !t.as_str().is_empty() && !busy
}

/// Whether to show suggestions: not once the box holds one of them.
pub fn shows_suggestions(suggestions: &Vec<String>, suggesting: bool, value: &str) -> (r: bool)
    ensures
        r == (!views(suggestions@).contains(trimmed(value@)) && (suggesting || suggestions@.len()
            > 0)),
{
    let t = trim(value);
    !listed(suggestions, t.as_str()) && (suggesting || suggestions.len() > 0)
}

/// Values this long are shown whole; of longer ones both ends are kept.
pub const WHOLE_VALUE: usize = 20;

pub const VALUE_HEAD: usize = 10;

pub const VALUE_TAIL: usize = 6;

/// A value, short enough for a chip.
pub fn shorten(value: &str) -> (r: String)
    ensures
        r@ == both_ends(value@, WHOLE_VALUE as int, VALUE_HEAD as int, VALUE_TAIL as int),
{
    keep_ends(value, WHOLE_VALUE, VALUE_HEAD, VALUE_TAIL)
}

// ── Filterable lists of columns ───────────────────────────────────────────

/// One row of a list to pick from.
#[derive(Debug, PartialEq)]
pub struct PickOption {
    pub id: String,
    pub label: String,
    pub note: String,
    /// The lowercased text that a filter is matched against.
    pub haystack: String,
}

#[verifier::ext_equal]
pub ghost struct PickV {
    pub id: Text,
    pub label: Text,
    pub note: Text,
    pub haystack: Text,
}

impl View for PickOption {
    type V = PickV;

    open spec fn view(&self) -> PickV {
        PickV {
            id: self.id@,
            label: self.label@,
            note: self.note@,
            haystack: self.haystack@,
        }
    }
}

pub open spec fn is_shown(o: PickV, needle: Text, selected: Text) -> bool {
    needle.len() == 0 || holds(o.haystack, needle) || o.id == selected
}

/// Whether an option survives a filter. The one that is chosen always does:
/// hidden, it would still be in force with nothing saying so.
pub fn shows(option: &PickOption, needle: &str, selected: &str) -> (r: bool)
    ensures
        r == is_shown(option@, needle@, selected@),
{
    needle.is_empty() || contains(option.haystack.as_str(), needle) || same(
        option.id.as_str(),
        selected,
    )
}

/// No filter hides what is chosen.
pub proof fn the_choice_is_always_shown(o: PickV, needle: Text)
    ensures
        is_shown(o, needle, o.id),
{
}

/// The rows that a filter leaves, in order.
pub open spec fn rows_shown(options: Seq<PickV>, needle: Text, selected: Text) -> Seq<int>
    decreases options.len(),
{
    if options.len() == 0 {
        Seq::empty()
    } else {
        let before = rows_shown(options.drop_last(), needle, selected);
        if is_shown(options.last(), needle, selected) {
            before.push(options.len() - 1)
        } else {
            before
        }
    }
}

/// The rows that what is typed in the filter leaves.
pub fn visible(options: &Vec<PickOption>, filter: &str, selected: &str) -> (r: Vec<usize>)
    ensures
        ints(r@) == rows_shown(views(options@), lowered(trimmed(filter@)), selected@),
{
    let ghost all = views(options@);
    let t = trim(filter);
    let needle = lowercase(t.as_str());
    let mut out: Vec<usize> = Vec::new();
    let mut i: usize = 0;
    assert(all.take(0) =~= Seq::empty());
    assert(ints(out@) =~= Seq::<int>::empty());
    while i < options.len()
        invariant
            i <= options@.len(),
            all == views(options@),
            needle@ == lowered(trimmed(filter@)),
            ints(out@) == rows_shown(all.take(i as int), needle@, selected@),
        decreases options@.len() - i,
    {
        assert(all.take(i + 1).drop_last() =~= all.take(i as int));
        assert(all.take(i + 1).last() == options@[i as int]@);
        if shows(&options[i], needle.as_str(), selected) {
            let ghost before = ints(out@);
            out.push(i);
            assert(ints(out@) =~= before.push(i as int));
        }
        i = i + 1;
    }
    assert(all.take(i as int) =~= all);
    out
}

/// How many rows there are to pick from, and how many the filter leaves.
pub fn count_line(filter: &str, shown: usize, total: usize) -> (r: String)
    ensures
        r@ == if trimmed(filter@).len() == 0 {
            digits(total as nat) + " options"@
        } else {
            digits(shown as nat) + " of "@ + digits(total as nat)
        },
{
    let all = decimal(total as u128);
    let t = trim(filter);
    if t.as_str().is_empty() {
        cat2(all.as_str(), " options")
    } else {
        let left = decimal(shown as u128);
        cat3(left.as_str(), " of ", all.as_str())
    }
}

/// A key by every name it goes by: any of them is worth searching for.
pub open spec fn key_haystack(k: KeyV, n: int) -> Text
    decreases n,
{
    if n <= 0 {
        lowered(k.label)
    } else {
        key_haystack(k, n - 1) + " "@ + lowered(k.bindings[n - 1].field) + " "@ + lowered(
            k.bindings[n - 1].table,
        )
    }
}

pub open spec fn key_option(k: KeyV, total: int) -> PickV {
    PickV {
        id: k.id,
        label: k.label,
        note: digits(k.bindings.len()) + "/"@ + digits(total as nat) + " tables"@ + (if k.shared_values
            > 0 {
            ", values match"@
        } else {
            ""@
        }),
        haystack: key_haystack(k, k.bindings.len() as int),
    }
}

fn haystack_of(key: &KeyCandidate) -> (r: String)
    ensures
        r@ == key_haystack(key@, key@.bindings.len() as int),
{
    let mut out = lowercase(key.label.as_str());
    let mut i: usize = 0;
    while i < key.bindings.len()
        invariant
            i <= key.bindings@.len(),
            out@ == key_haystack(key@, i as int),
        decreases key.bindings@.len() - i,
    {
        let field = lowercase(key.bindings[i].field.as_str());
        let table = lowercase(key.bindings[i].table.as_str());
        assert(key@.bindings[i as int] == key.bindings@[i as int]@);
        out = cat5(out.as_str(), " ", field.as_str(), " ", table.as_str());
        i = i + 1;
    }
    out
}

/// The keys to choose from.
pub fn key_options(insights: &Insights) -> (r: Vec<PickOption>)
    ensures
        views(r@) == insights@.keys.map_values(
            |k: KeyV| key_option(k, insights@.tables.len() as int),
        ),
{
    let total: usize = insights.tables.len();
    let ghost want = insights@.keys.map_values(
        |k: KeyV| key_option(k, insights@.tables.len() as int),
    );
    let mut out: Vec<PickOption> = Vec::new();
    let mut i: usize = 0;
    while i < insights.keys.len()
        invariant
            i <= insights.keys@.len(),
            total == insights.tables@.len(),
            want == insights@.keys.map_values(
                |k: KeyV| key_option(k, insights@.tables.len() as int),
            ),
            out@.len() == i,
            forall|k: int| 0 <= k < i ==> (#[trigger] out@[k])@ == want[k],
        decreases insights.keys@.len() - i,
    {
        let key = &insights.keys[i];
        let bound = decimal(key.bindings.len() as u128);
        let of = decimal(total as u128);
        let linked: &str = if key.shared_values > 0 {
            ", values match"
        } else {
            ""
        };
        let option = PickOption {
            id: key.id.clone(),
            label: key.label.clone(),
            note: cat5(bound.as_str(), "/", of.as_str(), " tables", linked),
            haystack: haystack_of(key),
        };
        assert(key@ == insights@.keys[i as int]);
        assert(option@ =~= want[i as int]);
        out.push(option);
        i = i + 1;
    }
    assert(views(out@) =~= want);
    out
}

pub open spec fn role_option(c: RoleV) -> PickV {
    PickV { id: c.id, label: c.label, note: c.note, haystack: c.id }
}

/// The columns to choose from for a role. Their ids are lowercased paths,
/// which is what someone types to find one.
pub fn role_options(candidates: &Vec<RoleCandidate>) -> (r: Vec<PickOption>)
    ensures
        views(r@) == views(candidates@).map_values(|c: RoleV| role_option(c)),
{
    let ghost want = views(candidates@).map_values(|c: RoleV| role_option(c));
    let mut out: Vec<PickOption> = Vec::new();
    let mut i: usize = 0;
    while i < candidates.len()
        invariant
            i <= candidates@.len(),
            want == views(candidates@).map_values(|c: RoleV| role_option(c)),
            out@.len() == i,
            forall|k: int| 0 <= k < i ==> (#[trigger] out@[k])@ == want[k],
        decreases candidates@.len() - i,
    {
        let option = PickOption {
            id: candidates[i].id.clone(),
            label: candidates[i].label.clone(),
            note: candidates[i].note.clone(),
            haystack: candidates[i].id.clone(),
        };
        assert(option@ =~= want[i as int]);
        out.push(option);
        i = i + 1;
    }
    assert(views(out@) =~= want);
    out
}

/// Where a key was not sampled; nothing when it was everywhere.
pub fn missing_line(key: &KeyCandidate) -> (r: Option<String>)
    ensures
        opt_text(r) == if key@.missing.len() == 0 {
            None
        } else {
            Some("Not sampled in: "@ + joined(key@.missing, ", "@))
        },
{
    assert(key@.missing.len() == key.missing@.len());
    if key.missing.len() == 0 {
        None
    } else {
        let tables = join(&key.missing, ", ");
        Some(cat2("Not sampled in: ", tables.as_str()))
    }
}

// ── Error rules ───────────────────────────────────────────────────────────

fn same_rule(a: &ErrorRule, b: &ErrorRule) -> (r: bool)
    ensures
        r == (a@ == b@),
{
    let r = same(a.field.as_str(), b.field.as_str()) && same(
        a.display.as_str(),
        b.display.as_str(),
    ) && same(a.value.as_str(), b.value.as_str());
    r
}

/// What became of a rule that was to be added.
#[derive(Debug, PartialEq)]
pub enum Committed {
    /// A column or a value is missing; what is typed stays.
    Incomplete,
    /// There is such a rule already.
    Known,
    Added(Vec<ErrorRule>),
}

/// Adds a rule for a column and what is typed as its value, unless there is
/// such a rule already.
pub fn commit(current: &Vec<ErrorRule>, field: &str, value: &str, display: &str) -> (r: Committed)
    ensures
        ({
            let rule = RuleV { field: field@, display: display@, value: trimmed(value@) };
            let complete = field@.len() > 0 && trimmed(value@).len() > 0;
            match r {
                Committed::Incomplete => !complete,
                Committed::Known => complete && views(current@).contains(rule),
                Committed::Added(next) => complete && !views(current@).contains(rule) && views(
                    next@,
                ) == views(current@).push(rule),
            }
        }),
{
    let text = trim(value);
    if field.is_empty() || text.as_str().is_empty() {
        return Committed::Incomplete;
    }
    let rule = ErrorRule { field: field.to_owned(), display: display.to_owned(), value: text };
    let ghost rv = rule@;
    let ghost all = views(current@);
    let mut next: Vec<ErrorRule> = Vec::new();
    let mut i: usize = 0;
    while i < current.len()
        invariant
            i <= current@.len(),
            all == views(current@),
            rv == rule@,
            rv == (RuleV { field: field@, display: display@, value: trimmed(value@) }),
            field@.len() > 0 && trimmed(value@).len() > 0,
            next@.len() == i,
            forall|k: int| 0 <= k < i ==> (#[trigger] next@[k])@ == all[k],
            forall|k: int| 0 <= k < i ==> #[trigger] all[k] != rv,
        decreases current@.len() - i,
    {
        if same_rule(&current[i], &rule) {
            assert(all[i as int] == rv);
            return Committed::Known;
        }
        next.push(current[i].clone());
        i = i + 1;
    }
    assert(!all.contains(rv));
    next.push(rule);
    assert(views(next@) =~= all.push(rv));
    Committed::Added(next)
}

/// Rules without those that equal one.
pub open spec fn without_rule(rules: Seq<RuleV>, rule: RuleV) -> Seq<RuleV>
    decreases rules.len(),
{
    if rules.len() == 0 {
        Seq::empty()
    } else {
        let before = without_rule(rules.drop_last(), rule);
        if rules.last() == rule {
            before
        } else {
            before.push(rules.last())
        }
    }
}

pub fn drop_rule(rules: &Vec<ErrorRule>, rule: &ErrorRule) -> (r: Vec<ErrorRule>)
    ensures
        views(r@) == without_rule(views(rules@), rule@),
{
    let ghost all = views(rules@);
    let mut out: Vec<ErrorRule> = Vec::new();
    let mut i: usize = 0;
    assert(all.take(0) =~= Seq::empty());
    assert(views(out@) =~= Seq::<RuleV>::empty());
    while i < rules.len()
        invariant
            i <= rules@.len(),
            all == views(rules@),
            views(out@) == without_rule(all.take(i as int), rule@),
        decreases rules@.len() - i,
    {
        assert(all.take(i + 1).drop_last() =~= all.take(i as int));
        assert(all.take(i + 1).last() == rules@[i as int]@);
        if !same_rule(&rules[i], rule) {
            let ghost before = views(out@);
            out.push(rules[i].clone());
            assert(views(out@) =~= before.push(all[i as int]));
        }
        i = i + 1;
    }
    assert(all.take(i as int) =~= all);
    out
}

proof fn without_absent_rule(rules: Seq<RuleV>, rule: RuleV)
    requires
        !rules.contains(rule),
    ensures
        without_rule(rules, rule) == rules,
    decreases rules.len(),
{
    if rules.len() > 0 {
        let shorter = rules.drop_last();
        assert(rules[rules.len() - 1] != rule);
        assert(!shorter.contains(rule)) by {
            if shorter.contains(rule) {
                let i = choose|i: int| 0 <= i < shorter.len() && shorter[i] == rule;
                assert(rules[i] == rule);
            }
        }
        without_absent_rule(shorter, rule);
        assert(shorter.push(rules.last()) =~= rules);
    }
}

/// Dropping a rule that was added leaves the rules there were before.
pub proof fn dropping_undoes_adding(rules: Seq<RuleV>, rule: RuleV)
    requires
        !rules.contains(rule),
    ensures
        without_rule(rules.push(rule), rule) == rules,
{
    assert(rules.push(rule).drop_last() =~= rules);
    without_absent_rule(rules, rule);
}

/// The name of a chosen column.
pub open spec fn label_of(fields: Seq<RoleV>, id: Text) -> Text
    decreases fields.len(),
{
    if fields.len() == 0 {
        Seq::empty()
    } else if fields[0].id == id {
        fields[0].label
    } else {
        label_of(fields.drop_first(), id)
    }
}

pub fn field_label(fields: &Vec<RoleCandidate>, id: &str) -> (r: String)
    ensures
        r@ == label_of(views(fields@), id@),
{
    let ghost all = views(fields@);
    let mut i: usize = 0;
    assert(all.skip(0) =~= all);
    while i < fields.len()
        invariant
            i <= fields@.len(),
            all == views(fields@),
            label_of(all, id@) == label_of(all.skip(i as int), id@),
        decreases fields@.len() - i,
    {
        assert(all.skip(i as int)[0] == fields@[i as int]@);
        assert(all.skip(i as int).drop_first() =~= all.skip(i + 1));
        if same(fields[i].id.as_str(), id) {
            return fields[i].label.clone();
        }
        i = i + 1;
    }
    assert(all.skip(i as int).len() == 0);
    let none: String = String::new();
    assert(none@ =~= Seq::empty());
    none
}

/// Sampled values offered for a rule.
pub const OFFERED_VALUES: usize = 12;

/// The values sampled for a chosen column, as far as they are offered: the
/// common case is picking one rather than remembering what the codes are.
pub fn offered_values(schemas: &Vec<TableSchema>, chosen: &str) -> (r: Vec<String>)
    ensures
        views(r@) == capped(
            if chosen@.len() == 0 {
                Seq::empty()
            } else {
                sorted_set(path_values(views(schemas@), chosen@))
            },
            OFFERED_VALUES as int,
        ),
        r@.len() <= 12,
        chosen@.len() > 0 && r@.len() < 12 ==> views(r@) == sorted_set(
            path_values(views(schemas@), chosen@),
        ),
{
    let mut out = field_values(schemas, chosen);
    let ghost all = views(out@);
    out.truncate(OFFERED_VALUES);
    assert(views(out@) =~= capped(all, OFFERED_VALUES as int));
    out
}

// ── Issues ────────────────────────────────────────────────────────────────

/// The apps that groups were seen under.
pub open spec fn roles_in(groups: Seq<GroupV>) -> Seq<Text>
    decreases groups.len(),
{
    if groups.len() == 0 {
        Seq::empty()
    } else {
        roles_in(groups.drop_last()) + groups.last().roles
    }
}

/// The apps whose configuration is worth asking about: those that appear in
/// a failure, and only with a subscription to ask in.
pub fn apps_to_check(groups: &Vec<Group>, subscription: &str) -> (r: Vec<String>)
    ensures
        views(r@) == if subscription@.len() == 0 {
            Seq::empty()
        } else {
            sorted_set(roles_in(views(groups@)))
        },
{
    let ghost all = views(groups@);
    let mut roles: Vec<String> = Vec::new();
    assert(views(roles@) =~= Seq::<Text>::empty());
    if subscription.is_empty() {
        return roles;
    }
    let mut i: usize = 0;
    assert(all.take(0) =~= Seq::empty());
    while i < groups.len()
        invariant
            i <= groups@.len(),
            all == views(groups@),
            views(roles@) == roles_in(all.take(i as int)),
        decreases groups@.len() - i,
    {
        assert(all.take(i + 1).drop_last() =~= all.take(i as int));
        assert(all.take(i + 1).last() == groups@[i as int]@);
        let ghost start = views(roles@);
        let ghost mine = views(groups@[i as int].roles@);
        let mut j: usize = 0;
        assert(start + mine.take(0) =~= start);
        while j < groups[i as usize].roles.len()
            invariant
                i < groups@.len(),
                j <= groups@[i as int].roles@.len(),
                mine == views(groups@[i as int].roles@),
                views(roles@) == start + mine.take(j as int),
            decreases groups@[i as int].roles@.len() - j,
        {
            let ghost before = views(roles@);
            roles.push(groups[i].roles[j].clone());
            assert(views(roles@) =~= before.push(mine[j as int]));
            assert(views(roles@) =~= start + mine.take(j + 1));
            j = j + 1;
        }
        assert(mine.take(j as int) =~= mine);
        i = i + 1;
    }
    assert(all.take(i as int) =~= all);
    sort_set(&roles)
}

/// What is open after a row was clicked: that row, or nothing when it was.
pub open spec fn toggled(open: Option<Text>, id: Text) -> Option<Text> {
    if open == Some(id) {
        None
    } else {
        Some(id)
    }
}

pub fn toggle(open: &Option<String>, id: String) -> (r: Option<String>)
    ensures
        opt_text(r) == toggled(opt_text(*open), id@),
{
    match open {
        Some(t) => if same(t.as_str(), id.as_str()) {
            None
        } else {
            Some(id)
        },
        None => Some(id),
    }
}

// ── Tables ────────────────────────────────────────────────────────────────

/// How many tables held rows in the window.
pub open spec fn with_data(schemas: Seq<TableV>) -> nat
    decreases schemas.len(),
{
    if schemas.len() == 0 {
        0
    } else {
        with_data(schemas.drop_last()) + if schemas.last().rows_in_range > 0 {
            1nat
        } else {
            0nat
        }
    }
}

pub fn tables_with_data(schemas: &Vec<TableSchema>) -> (r: usize)
    ensures
        r == with_data(views(schemas@)),
        r <= schemas@.len(),
{
    let ghost all = views(schemas@);
    let total: usize = schemas.len();
    let mut n: usize = 0;
    let mut i: usize = 0;
    assert(all.take(0) =~= Seq::empty());
    while i < total
        invariant
            i <= total,
            total == schemas@.len(),
            all == views(schemas@),
            n == with_data(all.take(i as int)),
            n <= i,
        decreases total - i,
    {
        assert(all.take(i + 1).drop_last() =~= all.take(i as int));
        assert(all.take(i + 1).last() == schemas@[i as int]@);
        if schemas[i].rows_in_range > 0 {
            n = n + 1;
        }
        i = i + 1;
    }
    assert(all.take(i as int) =~= all);
    n
}

/// Whether every table is expanded, and there is one.
pub fn all_open(paths: &Vec<String>, open: &Vec<String>) -> (r: bool)
    ensures
        r == (paths@.len() > 0 && forall|k: int|
            0 <= k < paths@.len() ==> views(open@).contains((#[trigger] paths@[k])@)),
{
    let mut i: usize = 0;
    while i < paths.len()
        invariant
            i <= paths@.len(),
            forall|k: int| 0 <= k < i ==> views(open@).contains((#[trigger] paths@[k])@),
        decreases paths@.len() - i,
    {
        if !listed(open, paths[i].as_str()) {
            return false;
        }
        i = i + 1;
    }
    paths.len() > 0
}

/// The tables that are expanded after one was clicked.
pub fn toggle_row(open: &mut Vec<String>, path: &str)
    ensures
        views(final(open)@).contains(path@) == !views(old(open)@).contains(path@),
        forall|other: Text|
            other != path@ ==> (#[trigger] views(final(open)@).contains(other) <==> views(
                old(open)@,
            ).contains(other)),
{
    let ghost before = views(open@);
    if !listed(open, path) {
        open.push(path.to_owned());
        let ghost after = views(open@);
        assert(after =~= before.push(path@));
        assert(after[before.len() as int] == path@);
        assert forall|other: Text| other != path@ implies (#[trigger] after.contains(other)
            <==> before.contains(other)) by {
            if before.contains(other) {
                let k = choose|k: int| 0 <= k < before.len() && before[k] == other;
                assert(after[k] == other);
            }
        }
        return;
    }
    let mut kept: Vec<String> = Vec::new();
    let mut i: usize = 0;
    while i < open.len()
        invariant
            i <= open@.len(),
            before == views(open@),
            forall|k: int|
                0 <= k < kept@.len() ==> (#[trigger] kept@[k])@ != path@ && before.contains(
                    kept@[k]@,
                ),
            forall|k: int|
                0 <= k < i && #[trigger] before[k] != path@ ==> views(kept@).contains(before[k]),
        decreases open@.len() - i,
    {
        if !same(open[i].as_str(), path) {
            let ghost had = views(kept@);
            assert(before[i as int] == open@[i as int]@);
            kept.push(open[i].clone());
            let ghost has = views(kept@);
            assert(has =~= had.push(before[i as int]));
            assert(has[had.len() as int] == before[i as int]);
            assert forall|k: int| 0 <= k < i && #[trigger] before[k] != path@ implies has.contains(
                before[k],
            ) by {
                let p = choose|p: int| 0 <= p < had.len() && had[p] == before[k];
                assert(has[p] == before[k]);
            }
        }
        i = i + 1;
    }
    let ghost after = views(kept@);
    assert forall|other: Text| (#[trigger] after.contains(other)) == (before.contains(other)
        && other != path@) by {
        if after.contains(other) {
            let k = choose|k: int| 0 <= k < after.len() && after[k] == other;
            assert(kept@[k]@ == other);
        }
        if before.contains(other) && other != path@ {
            let k = choose|k: int| 0 <= k < before.len() && before[k] == other;
            assert(after.contains(before[k]));
        }
    }
    *open = kept;
}

/// What a table's row says of it.
pub open spec fn table_line(s: TableV) -> Text {
    if s.rows_in_range == 0 {
        digits(s.fields.len()) + " columns · no rows in range"@
    } else {
        digits(s.fields.len()) + " columns · "@ + digits(s.rows_in_range as nat) + " rows · "@
            + digits(s.sampled_rows as nat) + " sampled"@
    }
}

pub fn table_summary(s: &TableSchema) -> (r: String)
    ensures
        r@ == table_line(s@),
{
    let columns = decimal(s.fields.len() as u128);
    assert(s@.fields.len() == s.fields@.len());
    if s.rows_in_range == 0 {
        cat2(columns.as_str(), " columns · no rows in range")
    } else {
        let rows = decimal(s.rows_in_range as u128);
        let sampled = decimal(s.sampled_rows as u128);
        cat6(
            columns.as_str(),
            " columns · ",
            rows.as_str(),
            " rows · ",
            sampled.as_str(),
            " sampled",
        )
    }
}

/// The type to show for a column: what is declared, or inside a dynamic
/// column what the values looked like.
pub fn column_type(f: &FieldInfo) -> (r: String)
    ensures
        r@ == if f@.kind.len() == 0 {
            joined(f@.types, ", "@)
        } else {
            f@.kind
        },
{
    if f.kind.as_str().is_empty() {
        join(&f.types, ", ")
    } else {
        f.kind.clone()
    }
}

/// The column that carries the chosen key in a table.
pub fn bound_field(key: &Option<KeyCandidate>, path: &str) -> (r: Option<String>)
    ensures
        opt_text(r) == match *key {
            Some(k) => match binding_in(k@.bindings, path@) {
                Some(b) => Some(b.field),
                None => None,
            },
            None => None,
        },
{
    match key {
        Some(k) => match k.binding_for(path) {
            Some(b) => Some(b.field.clone()),
            None => None,
        },
        None => None,
    }
}

// ── Documents ─────────────────────────────────────────────────────────────

/// The lines of a text; one that ends in a line break has none after it.
pub open spec fn line_count(s: Text) -> nat
    decreases s.len(),
{
    if s.len() == 0 {
        0
    } else if s.len() == 1 || s[s.len() - 2] == '\n' {
        line_count(s.drop_last()) + 1
    } else {
        line_count(s.drop_last())
    }
}

/// The size of a document as it is shown.
pub fn document_foot(pretty: &str) -> (r: String)
    ensures
        r@ == digits(line_count(pretty@)) + " lines · "@ + digits(byte_len(pretty@)) + " bytes"@,
{
    let chars = chars_of(pretty);
    let total: usize = chars.len();
    let mut n: usize = 0;
    let mut i: usize = 0;
    let ghost s = pretty@;
    assert(s.take(0) =~= Seq::empty());
    while i < total
        invariant
            i <= total,
            total == chars@.len(),
            chars@ == s,
            n == line_count(s.take(i as int)),
            n <= i,
        decreases total - i,
    {
        assert(s.take(i + 1).drop_last() =~= s.take(i as int));
        if i == 0 || chars[i - 1] == '\n' {
            n = n + 1;
        }
        i = i + 1;
    }
    assert(s.take(i as int) =~= s);
    let lines = decimal(n as u128);
    let bytes = decimal(bytes_in(pretty));
    cat4(lines.as_str(), " lines · ", bytes.as_str(), " bytes")
}

// ── What holds of the screen's state ──────────────────────────────────────

/// A scan that begins in the foreground clears what was shown; one in the
/// background leaves it. Either says that it runs, and forgets an earlier
/// failure. One that fails in the foreground says so and keeps its time.
pub proof fn scans_begin_and_fail_in_the_open(s: ScanV, at: i64, e: Text)
    ensures
        started(s, false).state is Loading && started(s, false).schemas.len() == 0,
        started(s, true).state == s.state && started(s, true).schemas == s.schemas,
        forall|background: bool|
            (#[trigger] started(s, background)).refreshing && started(
                s,
                background,
            ).refresh_error is None && started(s, background).scanned_at == s.scanned_at,
        finished(s, false, at, Err(e)).state == LoadV::Failed(e),
        finished(s, false, at, Err(e)).schemas == s.schemas,
        finished(s, false, at, Err(e)).scanned_at == s.scanned_at,
        forall|background: bool, found: Result<Seq<TableV>, Text>|
            !(#[trigger] finished(s, background, at, found)).refreshing,
{
}

/// A choice is never changed to another: where nothing was chosen the best
/// option is taken, and a choice that is gone is dropped. Each choice goes by
/// its own list.
pub proof fn choices_go_by_their_own_list(c: ChoicesV, insights: InsightsV, i: int)
    ensures
        ({
            let now = reconciled_choices(c, insights);
            &&& c.key_id.len() == 0 && insights.keys.len() > 0 ==> now.key_id == insights.keys[0].id
            &&& c.time_id.len() == 0 && insights.times.len() > 0 ==> now.time_id
                == insights.times[0].id
            &&& c.label_id.len() == 0 && insights.labels.len() > 0 ==> now.label_id
                == insights.labels[0].id
            &&& c.key_id.len() > 0 ==> now.key_id == c.key_id || now.key_id.len() == 0
            &&& c.time_id.len() > 0 ==> now.time_id == c.time_id || now.time_id.len() == 0
            &&& c.label_id.len() > 0 ==> now.label_id == c.label_id || now.label_id.len() == 0
            &&& now.lane_id == c.lane_id || now.lane_id.len() == 0
            &&& 0 <= i < insights.keys.len() && insights.keys[i].id == c.key_id && c.key_id.len()
                > 0 ==> now.key_id == c.key_id
            &&& 0 <= i < insights.times.len() && insights.times[i].id == c.time_id
                && c.time_id.len() > 0 ==> now.time_id == c.time_id
            &&& 0 <= i < insights.labels.len() && insights.labels[i].id == c.label_id
                && c.label_id.len() > 0 ==> now.label_id == c.label_id
            &&& 0 <= i < insights.labels.len() && insights.labels[i].id == c.lane_id
                ==> now.lane_id == c.lane_id
        }),
        (forall|k: int|
            0 <= k < insights.labels.len() ==> (#[trigger] insights.labels[k]).id != c.lane_id)
            ==> reconciled_choices(c, insights).lane_id.len() == 0,
        c.key_id.len() > 0 && (forall|k: int|
            0 <= k < insights.keys.len() ==> (#[trigger] insights.keys[k]).id != c.key_id)
            ==> reconciled_choices(c, insights).key_id.len() == 0,
{
    let keys = key_ids(insights.keys);
    let times = role_ids(insights.times);
    let labels = role_ids(insights.labels);
    if 0 <= i < insights.keys.len() {
        assert(keys[i] == insights.keys[i].id);
    }
    if 0 <= i < insights.times.len() {
        assert(times[i] == insights.times[i].id);
    }
    if 0 <= i < insights.labels.len() {
        assert(labels[i] == insights.labels[i].id);
    }
    if labels.contains(c.lane_id) {
        let k = choose|k: int| 0 <= k < labels.len() && labels[k] == c.lane_id;
        assert(insights.labels[k].id == c.lane_id);
    }
    if keys.contains(c.key_id) {
        let k = choose|k: int| 0 <= k < keys.len() && keys[k] == c.key_id;
        assert(insights.keys[k].id == c.key_id);
    }
}

proof fn first_key(keys: Seq<KeyV>, id: Text, i: int)
    requires
        0 <= i <= keys.len(),
        forall|j: int| 0 <= j < i ==> (#[trigger] keys[j]).id != id,
    ensures
        i < keys.len() && keys[i].id == id ==> key_with(keys, id) == Some(keys[i]),
        i == keys.len() ==> key_with(keys, id) is None,
    decreases i,
{
    if i > 0 {
        let rest = keys.drop_first();
        assert(keys[0].id != id);
        assert forall|j: int| 0 <= j < i - 1 implies (#[trigger] rest[j]).id != id by {
            assert(rest[j] == keys[j + 1]);
        }
        first_key(rest, id, i - 1);
    }
}

/// A value is followed by the key that is chosen, the first of that id, with
/// the time and the label that are chosen, over the range asked for; the
/// cards prefer the best labels. Without the key nothing is followed.
pub proof fn values_are_followed_as_chosen(
    insights: InsightsV,
    c: ChoicesV,
    value: Text,
    range: TimeRange,
    i: int,
    k: int,
)
    requires
        0 <= i <= insights.keys.len(),
        forall|j: int| 0 <= j < i ==> (#[trigger] insights.keys[j]).id != c.key_id,
    ensures
        i == insights.keys.len() ==> followed(insights, c, value, range) is None,
        i < insights.keys.len() && insights.keys[i].id == c.key_id ==> {
            let s = followed(insights, c, value, range);
            &&& s is Some
            &&& (s->0).key == insights.keys[i]
            &&& (s->0).value == value && (s->0).range == range
            &&& (s->0).time_field == c.time_id && (s->0).label_field == c.label_id
            &&& (s->0).fact_fields.len() <= insights.labels.len()
            &&& (s->0).fact_fields.len() == insights.labels.len() || (s->0).fact_fields.len()
                == 6
            &&& 0 <= k < (s->0).fact_fields.len() ==> (s->0).fact_fields[k]
                == insights.labels[k].id
        },
{
    first_key(insights.keys, c.key_id, i);
}

/// Where nothing could be asked, there is a lane for each table, in order,
/// that failed with the reason, and no card.
pub proof fn failed_traces_say_why_everywhere(tables: Seq<Text>, s: SpecV, error: Text, i: int)
    ensures
        ({
            let t = failed_trace_of(tables, s, error);
            &&& t.value == s.value && t.key_label == s.key.label
            &&& t.lanes.len() == tables.len() && t.blocks_found == 0 && !t.partial
            &&& t.matches.len() == 0 && t.span is None
            &&& 0 <= i < tables.len() ==> t.lanes[i].name == tables[i] && t.lanes[i].error == Some(
                error,
            ) && t.lanes[i].state is Failed && t.lanes[i].blocks.len() == 0
                && t.lanes[i].detail is None
        }),
{
}

proof fn rows_shown_hold(options: Seq<PickV>, needle: Text, selected: Text)
    ensures
        forall|k: int|
            rows_shown(options, needle, selected).contains(k) <==> 0 <= k < options.len() && (
            needle.len() == 0 || holds(options[k].haystack, needle) || options[k].id == selected),
        forall|i: int, j: int|
            0 <= i < j < rows_shown(options, needle, selected).len() ==> (#[trigger] rows_shown(
                options,
                needle,
                selected,
            )[i]) < (#[trigger] rows_shown(options, needle, selected)[j]),
        forall|i: int|
            0 <= i < rows_shown(options, needle, selected).len() ==> 0 <= (#[trigger] rows_shown(
                options,
                needle,
                selected,
            )[i]) < options.len(),
    decreases options.len(),
{
    let all = rows_shown(options, needle, selected);
    if options.len() > 0 {
        let short = options.drop_last();
        let n = options.len() - 1;
        rows_shown_hold(short, needle, selected);
        let before = rows_shown(short, needle, selected);
        let last = is_shown(options.last(), needle, selected);
        assert forall|k: int|
            all.contains(k) <==> 0 <= k < options.len() && (needle.len() == 0 || holds(
                options[k].haystack,
                needle,
            ) || options[k].id == selected) by {
            if all.contains(k) {
                let a = choose|a: int| 0 <= a < all.len() && all[a] == k;
                if a < before.len() {
                    assert(before[a] == k);
                    assert(before.contains(k));
                    assert(short[k] == options[k]);
                }
            }
            if 0 <= k < options.len() && is_shown(options[k], needle, selected) {
                if k < n {
                    assert(short[k] == options[k]);
                    assert(before.contains(k));
                    let a = choose|a: int| 0 <= a < before.len() && before[a] == k;
                    assert(all[a] == k);
                } else {
                    assert(all[all.len() - 1] == k);
                }
            }
        }
        assert forall|i: int| 0 <= i < all.len() implies 0 <= (#[trigger] all[i])
            < options.len() by {
            if i < before.len() {
                assert(all[i] == before[i]);
            }
        }
        assert forall|i: int, j: int| 0 <= i < j < all.len() implies (#[trigger] all[i]) < (
        #[trigger] all[j]) by {
            assert(all[i] == before[i]);
            assert(0 <= before[i] < short.len());
            if j < before.len() {
                assert(all[j] == before[j]);
            }
        }
    }
}

/// A filter leaves, in order, exactly the options that hold what is looked
/// for, and the one that is chosen; no filter hides nothing.
pub proof fn filters_leave_what_matches(options: Seq<PickV>, needle: Text, selected: Text, k: int)
    ensures
        rows_shown(options, needle, selected).contains(k) <==> 0 <= k < options.len() && (
        needle.len() == 0 || holds(options[k].haystack, needle) || options[k].id == selected),
        forall|i: int, j: int|
            0 <= i < j < rows_shown(options, needle, selected).len() ==> (#[trigger] rows_shown(
                options,
                needle,
                selected,
            )[i]) < (#[trigger] rows_shown(options, needle, selected)[j]),
{
    rows_shown_hold(options, needle, selected);
}

/// A key can be found by its label, and by every column and table that it
/// is bound in.
pub proof fn keys_are_found_by_every_name(k: KeyV, n: int, i: int)
    requires
        0 <= n <= k.bindings.len(),
    ensures
        holds(key_haystack(k, n), lowered(k.label)),
        0 <= i < n ==> holds(key_haystack(k, n), lowered(k.bindings[i].field)),
        0 <= i < n ==> holds(key_haystack(k, n), lowered(k.bindings[i].table)),
        key_option(k, n).id == k.id && key_option(k, n).label == k.label,
    decreases n,
{
    if n > 0 {
        keys_are_found_by_every_name(k, n - 1, i);
        let before = key_haystack(k, n - 1);
        let b = k.bindings[n - 1];
        let field = lowered(b.field);
        let table = lowered(b.table);
        let all = key_haystack(k, n);
        held_on(before, " "@ + field, lowered(k.label));
        held_on(before + " "@ + field, " "@ + table, lowered(k.label));
        assert(before + (" "@ + field) =~= before + " "@ + field);
        assert(before + " "@ + field + (" "@ + table) =~= all);
        if i == n - 1 {
            let at: int = (before.len() + " "@.len()) as int;
            assert(all.subrange(at, at + field.len()) =~= field);
            assert(stands_at(all, field, at));
            let to: int = (at + field.len() + " "@.len()) as int;
            assert(all.subrange(to, to + table.len()) =~= table);
            assert(stands_at(all, table, to));
        } else if 0 <= i < n - 1 {
            held_on(before, " "@ + field, lowered(k.bindings[i].field));
            held_on(before + " "@ + field, " "@ + table, lowered(k.bindings[i].field));
            held_on(before, " "@ + field, lowered(k.bindings[i].table));
            held_on(before + " "@ + field, " "@ + table, lowered(k.bindings[i].table));
        }
    } else {
        let t = lowered(k.label);
        assert(t.subrange(0, t.len() as int) =~= t);
        assert(stands_at(t, t, 0));
    }
}

proof fn held_on(a: Text, b: Text, p: Text)
    ensures
        holds(a, p) ==> holds(a + b, p),
{
    if holds(a, p) {
        let i = choose|i: int| stands_at(a, p, i);
        assert((a + b).subrange(i, i + p.len()) =~= a.subrange(i, i + p.len()));
        assert(stands_at(a + b, p, i));
    }
}

proof fn without_rule_filter(rules: Seq<RuleV>, rule: RuleV)
    ensures
        without_rule(rules, rule) == rules.filter(|r: RuleV| r != rule),
    decreases rules.len(),
{
    reveal(Seq::filter);
    if rules.len() > 0 {
        without_rule_filter(rules.drop_last(), rule);
    }
}

/// Dropping a rule keeps every other one, in order.
pub proof fn dropping_keeps_the_other_rules(rules: Seq<RuleV>, rule: RuleV)
    ensures
        without_rule(rules, rule) == rules.filter(|r: RuleV| r != rule),
        !without_rule(rules, rule).contains(rule),
{
    without_rule_filter(rules, rule);
    filter_holds(rules, |r: RuleV| r != rule);
}

/// A column is named by the first that has its id.
pub proof fn columns_are_named_by_their_id(fields: Seq<RoleV>, id: Text, i: int)
    requires
        0 <= i <= fields.len(),
        forall|j: int| 0 <= j < i ==> (#[trigger] fields[j]).id != id,
    ensures
        i < fields.len() && fields[i].id == id ==> label_of(fields, id) == fields[i].label,
        i == fields.len() ==> label_of(fields, id).len() == 0,
    decreases i,
{
    if i > 0 {
        let rest = fields.drop_first();
        assert(fields[0].id != id);
        assert forall|j: int| 0 <= j < i - 1 implies (#[trigger] rest[j]).id != id by {
            assert(rest[j] == fields[j + 1]);
        }
        columns_are_named_by_their_id(rest, id, i - 1);
    }
}

/// The apps to ask about are those that any group was seen under.
pub proof fn every_failing_app_is_asked_about(groups: Seq<GroupV>, x: Text)
    ensures
        sorted_set(roles_in(groups)).contains(x) <==> exists|i: int|
            0 <= i < groups.len() && (#[trigger] groups[i]).roles.contains(x),
{
    sorted_set_holds(roles_in(groups));
    roles_hold(groups, x);
}

proof fn roles_hold(groups: Seq<GroupV>, x: Text)
    ensures
        roles_in(groups).contains(x) <==> exists|i: int|
            0 <= i < groups.len() && (#[trigger] groups[i]).roles.contains(x),
    decreases groups.len(),
{
    if groups.len() > 0 {
        let short = groups.drop_last();
        let n = groups.len() - 1;
        roles_hold(short, x);
        let a = roles_in(short);
        let b = groups.last().roles;
        assert(groups[n] == groups.last());
        if roles_in(groups).contains(x) {
            let k = choose|k: int| 0 <= k < (a + b).len() && (a + b)[k] == x;
            if k < a.len() {
                assert(a[k] == x);
                let i = choose|i: int| 0 <= i < short.len() && (#[trigger] short[i]).roles.contains(
                    x,
                );
                assert(groups[i] == short[i]);
            } else {
                assert(b[k - a.len()] == x);
            }
        }
        if exists|i: int| 0 <= i < groups.len() && (#[trigger] groups[i]).roles.contains(x) {
            let i = choose|i: int| 0 <= i < groups.len() && (#[trigger] groups[i]).roles.contains(
                x,
            );
            if i < n {
                assert(short[i] == groups[i]);
                let k = choose|k: int| 0 <= k < a.len() && a[k] == x;
                assert((a + b)[k] == x);
            } else {
                let k = choose|k: int| 0 <= k < b.len() && b[k] == x;
                assert((a + b)[a.len() + k] == x);
            }
        }
    }
}

/// A click opens a row that is not open, and closes the one that is.
pub proof fn clicks_open_and_close(open: Option<Text>, id: Text, other: Text)
    ensures
        open != Some(id) ==> toggled(open, id) == Some(id),
        toggled(Some(id), id) is None,
        other != id ==> toggled(Some(other), id) == Some(id),
{
}

/// The tables with data are those that hold a row or more.
pub proof fn tables_with_rows_are_counted(schemas: Seq<TableV>)
    ensures
        with_data(schemas) == schemas.filter(|t: TableV| t.rows_in_range >= 1).len(),
    decreases schemas.len(),
{
    reveal(Seq::filter);
    if schemas.len() > 0 {
        tables_with_rows_are_counted(schemas.drop_last());
    }
}

/// A document has a line for each line break, and one more for what follows
/// the last.
pub proof fn lines_end_at_their_breaks(s: Text)
    ensures
        s.len() > 0 && s.last() == '\n' ==> line_count(s) == s.filter(|c: char| c == '\n').len(),
        s.len() > 0 && s.last() != '\n' ==> line_count(s) == s.filter(|c: char| c == '\n').len()
            + 1,
        s.len() == 0 ==> line_count(s) == 0,
    decreases s.len(),
{
    reveal(Seq::filter);
    if s.len() > 0 {
        let short = s.drop_last();
        lines_end_at_their_breaks(short);
        if s.len() > 1 {
            assert(short.last() == s[s.len() - 2]);
        } else {
            assert(short =~= Seq::empty());
            assert(short.filter(|c: char| c == '\n').len() == 0);
        }
    }
}

/// A table's line tells its own columns, its rows in range and how many of
/// them were sampled; without rows it says only that.
pub proof fn table_lines_tell_their_own_counts(s: TableV)
    ensures
        s.rows_in_range > 0 ==> table_line(s) == digits(s.fields.len()) + " columns · "@ + digits(
            s.rows_in_range as nat,
        ) + " rows · "@ + digits(s.sampled_rows as nat) + " sampled"@,
        s.rows_in_range == 0 ==> table_line(s) == digits(s.fields.len())
            + " columns · no rows in range"@,
{
}

/// A key's option counts the tables that it is bound in out of all, and says
/// where values prove it; a column's is found by its path.
pub proof fn options_tell_their_reach(k: KeyV, total: int, c: RoleV)
    ensures
        k.shared_values > 0 ==> key_option(k, total).note == digits(k.bindings.len()) + "/"@
            + digits(total as nat) + " tables"@ + ", values match"@,
        k.shared_values <= 0 ==> key_option(k, total).note == digits(k.bindings.len()) + "/"@
            + digits(total as nat) + " tables"@,
        role_option(c).id == c.id && role_option(c).label == c.label && role_option(c).note
            == c.note && role_option(c).haystack == c.id,
{
    reveal_strlit("");
    let head = digits(k.bindings.len()) + "/"@ + digits(total as nat) + " tables"@;
    assert(head + ""@ =~= head);
}

} // verus!
