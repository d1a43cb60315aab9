//! The last scan of a workspace, kept to open on while a new one runs.

use crate::clock::now_seconds;
use crate::loganalytics::TimeRange;
use crate::schema::TableSchema;
use crate::text::{alnum, cat2, chars_of, decimal, digits, is_alnum, piece, views, Text};
use vstd::prelude::*;

verus! {

/// A scan, when it was made, and the window it was made over.
#[derive(Debug, PartialEq)]
pub struct CachedScan {
    /// Unix seconds.
    pub scanned_at: i64,
    pub range: TimeRange,
    pub schemas: Vec<TableSchema>,
}

// ── File names ────────────────────────────────────────────────────────────

/// An id with everything but letters and digits as hyphens.
pub open spec fn flattened(id: Text) -> Text {
    id.map_values(
        |c: char|
            if is_alnum(c) {
                c
            } else {
                '-'
            },
    )
}

/// A text without the hyphens that it begins and ends with.
pub open spec fn stripped(s: Text) -> Text
    decreases s.len(),
{
    if s.len() == 0 {
        s
    } else if s[0] == '-' {
        stripped(s.drop_first())
    } else if s.last() == '-' {
        stripped(s.drop_last())
    } else {
        s
    }
}

/// An id as a file name.
pub open spec fn slug_text(id: Text) -> Text {
    stripped(flattened(id))
}

/// An id as something safe for a file name that can still be recognised.
pub fn slug(workspace_id: &str) -> (r: String)
    ensures
        r@ == slug_text(workspace_id@),
{
    let raw = chars_of(workspace_id);
    let mut chars: Vec<char> = Vec::new();
    let mut i: usize = 0;
    while i < raw.len()
        invariant
            i <= raw@.len(),
            raw@ == workspace_id@,
            chars@.len() == i,
            forall|k: int| 0 <= k < i ==> #[trigger] chars@[k] == flattened(workspace_id@)[k],
        decreases raw@.len() - i,
    {
        let c: char = raw[i];
        chars.push(
            if alnum(c) {
                c
            } else {
                '-'
            },
        );
        i = i + 1;
    }
    let ghost flat = flattened(workspace_id@);
    assert(chars@ =~= flat);
    let mut from: usize = 0;
    let mut to: usize = chars.len();
    assert(flat.subrange(0, flat.len() as int) =~= flat);
    while from < to && chars[from] == '-'
        invariant
            from <= to <= chars@.len(),
            chars@ == flat,
            stripped(flat) == stripped(flat.subrange(from as int, to as int)),
        decreases to - from,
    {
        assert(flat.subrange(from as int, to as int).drop_first() =~= flat.subrange(
            from + 1,
            to as int,
        ));
        from = from + 1;
    }
    while from < to && chars[to - 1] == '-'
        invariant
            from <= to <= chars@.len(),
            chars@ == flat,
            from < to ==> chars@[from as int] != '-',
            stripped(flat) == stripped(flat.subrange(from as int, to as int)),
        decreases to - from,
    {
        assert(flat.subrange(from as int, to as int).drop_last() =~= flat.subrange(
            from as int,
            to - 1,
        ));
        to = to - 1;
    }
    assert(stripped(flat) =~= flat.subrange(from as int, to as int));
    piece(&chars, from, to)
}

/// The file that a workspace's scan is kept in.
pub fn file_name(workspace_id: &str) -> (r: String)
    ensures
        r@ == slug_text(workspace_id@) + ".json"@,
{
    let name = slug(workspace_id);
    cat2(name.as_str(), ".json")
}

proof fn stripped_part(s: Text)
    ensures
        stripped(s).len() > 0 ==> stripped(s)[0] != '-' && stripped(s).last() != '-',
        forall|i: int| 0 <= i < stripped(s).len() ==> s.contains(#[trigger] stripped(s)[i]),
    decreases s.len(),
{
    if s.len() > 0 {
        let t = if s[0] == '-' {
            s.drop_first()
        } else {
            s.drop_last()
        };
        if s[0] == '-' || s.last() == '-' {
            stripped_part(t);
            assert forall|i: int| 0 <= i < stripped(s).len() implies s.contains(
                #[trigger] stripped(s)[i],
            ) by {
                assert(t.contains(stripped(t)[i]));
                let k = choose|k: int| 0 <= k < t.len() && t[k] == stripped(t)[i];
                if s[0] == '-' {
                    assert(s[k + 1] == t[k]);
                } else {
                    assert(s[k] == t[k]);
                }
            }
        }
    }
}

/// Whatever the id, its file name holds only letters, digits and hyphens, so
/// it can name no other directory; it begins and ends with no hyphen.
pub proof fn slug_is_safe(id: Text)
    ensures
        forall|i: int|
            0 <= i < slug_text(id).len() ==> is_alnum(#[trigger] slug_text(id)[i]) || slug_text(
                id,
            )[i] == '-',
        slug_text(id).len() > 0 ==> slug_text(id)[0] != '-' && slug_text(id).last() != '-',
{
    let flat = flattened(id);
    stripped_part(flat);
    assert forall|i: int| 0 <= i < slug_text(id).len() implies is_alnum(
        #[trigger] slug_text(id)[i],
    ) || slug_text(id)[i] == '-' by {
        assert(flat.contains(stripped(flat)[i]));
        let k = choose|k: int| 0 <= k < flat.len() && flat[k] == stripped(flat)[i];
        assert(flat[k] == if is_alnum(id[k]) {
            id[k]
        } else {
            '-'
        });
    }
}

/// An id made of letters, digits and inner hyphens, as every GUID is.
pub open spec fn is_plain(id: Text) -> bool {
    &&& forall|i: int| 0 <= i < id.len() ==> is_alnum(#[trigger] id[i]) || id[i] == '-'
    &&& id.len() > 0 ==> id[0] != '-' && id.last() != '-'
}

/// A plain id is its own file name.
pub proof fn plain_ids_are_kept(id: Text)
    requires
        is_plain(id),
    ensures
        slug_text(id) == id,
{
    assert(flattened(id) =~= id);
}

/// Two workspaces never share a file, their ids being plain.
pub proof fn plain_ids_never_collide(a: Text, b: Text)
    requires
        is_plain(a),
        is_plain(b),
        a != b,
    ensures
        slug_text(a) != slug_text(b),
{
    plain_ids_are_kept(a);
    plain_ids_are_kept(b);
}

// ── Reuse ─────────────────────────────────────────────────────────────────

/// The scan that was read, if it was made over the window asked for.
pub open spec fn usable(read: Option<CachedScan>, range: TimeRange) -> Option<CachedScan> {
    match read {
        Some(scan) => if scan.range == range {
            Some(scan)
        } else {
            None
        },
        None => None,
    }
}

/// A scan answers for the window it was made over and for no other.
pub proof fn scans_answer_for_their_own_window(scan: CachedScan, range: TimeRange)
    ensures
        usable(Some(scan), scan.range) == Some(scan),
        range != scan.range ==> usable(Some(scan), range) is None,
        usable(None, range) is None,
{
}

/// The scan that was read, if it was made over the window asked for. The
/// tables with data in one window are not those with data in another.
pub fn load(read: Option<CachedScan>, range: TimeRange) -> (r: Option<CachedScan>)
    ensures
        r == usable(read, range),
{
    match read {
        Some(scan) => if scan.range == range {
            Some(scan)
        } else {
            None
        },
        None => None,
    }
}

/// The scan to keep, made at a given time. An empty one is not kept: read
/// back, it could not be told from a failed one.
pub fn save_at(now: i64, range: TimeRange, schemas: &Vec<TableSchema>) -> (r: Option<CachedScan>)
    ensures
        match r {
            Some(scan) => schemas@.len() > 0 && scan.scanned_at == now && scan.range == range
                && views(scan.schemas@) == views(schemas@),
            None => schemas@.len() == 0,
        },
{
    if schemas.len() == 0 {
        return None;
    }
    let mut out: Vec<TableSchema> = Vec::new();
    let mut i: usize = 0;
    while i < schemas.len()
        invariant
            i <= schemas@.len(),
            out@.len() == i,
            forall|k: int| 0 <= k < i ==> (#[trigger] out@[k])@ == schemas@[k]@,
        decreases schemas@.len() - i,
    {
        out.push(schemas[i].clone());
        i = i + 1;
    }
    assert(views(out@) =~= views(schemas@));
    Some(CachedScan { scanned_at: now, range, schemas: out })
}

/// The scan to keep, made now: at the time that the clock gave.
pub fn save(range: TimeRange, schemas: &Vec<TableSchema>) -> (r: Option<CachedScan>)
    ensures
        match r {
            Some(scan) => schemas@.len() > 0 && call_ensures(now_seconds, (), scan.scanned_at)
                && scan.range == range && views(scan.schemas@) == views(schemas@),
            None => schemas@.len() == 0,
        },
{
    save_at(now_seconds(), range, schemas)
}

// ── Age ───────────────────────────────────────────────────────────────────

/// How long ago a time was; not before now, whatever the clock did.
pub open spec fn age_text(now: i64, at: i64) -> Text {
    let secs = now - at;
    if secs < 60 {
        "just now"@
    } else if secs < 3600 {
        digits((secs / 60) as nat) + "m ago"@
    } else if secs < 86_400 {
        digits((secs / 3600) as nat) + "h ago"@
    } else {
        digits((secs / 86_400) as nat) + "d ago"@
    }
}

/// How long before `now` a scan was made.
pub fn age_at(now: i64, scanned_at: i64) -> (r: String)
    ensures
        r@ == age_text(now, scanned_at),
{
    let secs: i128 = (now as i128) - (scanned_at as i128);
    if secs < 60 {
        return "just now".to_owned();
    }
    let n: u128 = secs as u128;
    if n < 3600 {
        let t = decimal(n / 60);
        cat2(t.as_str(), "m ago")
    } else if n < 86_400 {
        let t = decimal(n / 3600);
        cat2(t.as_str(), "h ago")
    } else {
        let t = decimal(n / 86_400);
        cat2(t.as_str(), "d ago")
    }
}

/// How long ago a scan was made, by the time that the clock gave.
pub fn age(scanned_at: i64) -> (r: String)
    ensures
        exists|now: i64| #[trigger]
            call_ensures(now_seconds, (), now) && r@ == age_text(now, scanned_at),
{
    let now: i64 = now_seconds();
    age_at(now, scanned_at)
}

/// An age is told in the largest unit that it fills, and in how many whole
/// ones it fills.
pub proof fn ages_are_told_in_whole_units(now: i64, at: i64, k: int)
    requires
        k >= 0,
    ensures
        now - at < 60 ==> age_text(now, at) == "just now"@,
        60 <= now - at < 3600 && 60 * k <= now - at < 60 * k + 60 ==> age_text(now, at) == digits(
            k as nat,
        ) + "m ago"@,
        3600 <= now - at < 86_400 && 3600 * k <= now - at < 3600 * k + 3600 ==> age_text(now, at)
            == digits(k as nat) + "h ago"@,
        86_400 <= now - at && 86_400 * k <= now - at < 86_400 * k + 86_400 ==> age_text(now, at)
            == digits(k as nat) + "d ago"@,
{
}

/// A file name keeps every letter and digit of an id, in order.
pub proof fn file_names_keep_letters_and_digits(id: Text)
    ensures
        slug_text(id).filter(|c: char| c != '-') == flattened(id).filter(|c: char| c != '-'),
        flattened(id).len() == id.len(),
        forall|i: int|
            0 <= i < id.len() ==> (#[trigger] flattened(id)[i]) == if is_alnum(id[i]) {
                id[i]
            } else {
                '-'
            },
{
    stripping_keeps(flattened(id));
}

proof fn stripping_keeps(s: Text)
    ensures
        stripped(s).filter(|c: char| c != '-') == s.filter(|c: char| c != '-'),
    decreases s.len(),
{
    reveal(Seq::filter);
    let p = |c: char| c != '-';
    if s.len() > 0 {
        if s[0] == '-' {
            let rest = s.drop_first();
            stripping_keeps(rest);
            assert(s =~= seq![s[0]] + rest);
            filter_joins(seq![s[0]], rest);
            let one = seq![s[0]];
            assert(one.drop_last() =~= Seq::empty());
            assert(one.drop_last().filter(p).len() == 0);
            assert(one.last() == '-');
            assert(one.filter(p) =~= Seq::empty());
            assert(Seq::<char>::empty() + rest.filter(p) =~= rest.filter(p));
        } else if s.last() == '-' {
            stripping_keeps(s.drop_last());
        }
    }
}

proof fn filter_joins(a: Text, b: Text)
    ensures
        (a + b).filter(|c: char| c != '-') == a.filter(|c: char| c != '-') + b.filter(
            |c: char| c != '-',
        ),
    decreases b.len(),
{
    reveal(Seq::filter);
    let p = |c: char| c != '-';
    if b.len() > 0 {
        let short = b.drop_last();
        filter_joins(a, short);
        assert((a + b).drop_last() =~= a + short);
        assert((a + b).last() == b.last());
        if p(b.last()) {
            assert((a.filter(p) + short.filter(p)).push(b.last()) =~= a.filter(p) + short.filter(
                p,
            ).push(b.last()));
        }
    } else {
        assert(a + b =~= a);
        assert(a.filter(p) + b.filter(p) =~= a.filter(p));
    }
}

} // verus!
