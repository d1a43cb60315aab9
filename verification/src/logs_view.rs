//! What the log stream shows.

use crate::logs::{Filter, FilterV};
use crate::text::{chars_of, lowercase, lowered, piece, same, trim, trimmed, Text};
use vstd::prelude::*;

verus! {

/// Lines that one reading returns at most.
pub const MAX_LINES: usize = 300;

#[derive(Clone, Copy, Debug, PartialEq, Eq, Structural)]
pub enum Rank {
    Bad,
    Warn,
    Plain,
}

/// How a severity reads. It is the workspace's vocabulary, so what is not
/// known stays plain.
pub open spec fn rank_of(value: Text) -> Rank {
    let v = lowered(trimmed(value));
    if v == "error"@ || v == "critical"@ || v == "fatal"@ || v == "3"@ || v == "4"@ {
        Rank::Bad
    } else if v == "warning"@ || v == "warn"@ || v == "2"@ {
        Rank::Warn
    } else {
        Rank::Plain
    }
}

pub fn severity_rank(value: &str) -> (r: Rank)
    ensures
        r == rank_of(value@),
{
    let t = trim(value);
    let low = lowercase(t.as_str());
    let v: &str = low.as_str();
    if same(v, "error") || same(v, "critical") || same(v, "fatal") || same(v, "3") || same(v, "4") {
        Rank::Bad
    } else if same(v, "warning") || same(v, "warn") || same(v, "2") {
        Rank::Warn
    } else {
        Rank::Plain
    }
}

/// Where a character first stands from `i` on.
pub open spec fn first_from(s: Text, c: char, i: int) -> Option<int>
    decreases s.len() - i,
{
    if i >= s.len() {
        None
    } else if s[i] == c {
        Some(i)
    } else {
        first_from(s, c, i + 1)
    }
}

pub open spec fn first_of(s: Text, c: char) -> Option<int> {
    first_from(s, c, 0)
}

/// A text without the `Z`s that it ends with.
pub open spec fn without_z(s: Text) -> Text
    decreases s.len(),
{
    if s.len() > 0 && s.last() == 'Z' {
        without_z(s.drop_last())
    } else {
        s
    }
}

/// The time of day in a timestamp, without its fraction; what is no
/// timestamp stays as it is.
pub open spec fn time_of_day(raw: Text) -> Text {
    match (first_of(raw, 'T'), first_of(raw, '.')) {
        (Some(t), Some(dot)) => if dot > t {
            raw.subrange(t + 1, dot)
        } else {
            raw
        },
        (Some(t), None) => without_z(raw.skip(t + 1)),
        _ => raw,
    }
}

fn find(chars: &Vec<char>, c: char) -> (r: Option<usize>)
    ensures
        match r {
            Some(i) => first_of(chars@, c) == Some(i as int) && i < chars@.len(),
            None => first_of(chars@, c) is None,
        },
{
    let mut i: usize = 0;
    while i < chars.len()
        invariant
            i <= chars@.len(),
            first_of(chars@, c) == first_from(chars@, c, i as int),
        decreases chars@.len() - i,
    {
        if chars[i] == c {
            return Some(i);
        }
        i = i + 1;
    }
    None
}

pub fn short_time(raw: &str) -> (r: String)
    ensures
        r@ == time_of_day(raw@),
{
    let chars = chars_of(raw);
    let n: usize = chars.len();
    match (find(&chars, 'T'), find(&chars, '.')) {
        (Some(t), Some(dot)) => if dot > t {
            piece(&chars, t + 1, dot)
        } else {
            raw.to_owned()
        },
        (Some(t), None) => {
            let from: usize = t + 1;
            let mut to: usize = n;
            assert(raw@.subrange(from as int, n as int) =~= raw@.skip(from as int));
            while to > from && chars[to - 1] == 'Z'
                invariant
                    from <= to <= n,
                    n == chars@.len(),
                    chars@ == raw@,
                    without_z(raw@.skip(from as int)) == without_z(
                        raw@.subrange(from as int, to as int),
                    ),
                decreases to - from,
            {
                assert(raw@.subrange(from as int, to as int).drop_last() =~= raw@.subrange(
                    from as int,
                    to - 1,
                ));
                to = to - 1;
            }
            piece(&chars, from, to)
        },
        _ => raw.to_owned(),
    }
}

/// Whether the reading may have left lines out.
pub fn is_capped(lines: usize) -> (r: bool)
    ensures
        r == (lines >= MAX_LINES),
        r <==> lines >= 300,
{
    lines >= MAX_LINES
}

/// What the stream shows in place of lines, if anything.
#[derive(Debug, PartialEq)]
pub enum Panel {
    Failed(String),
    /// No table holds both free text and the key.
    NoTable,
    Reading,
    Nothing,
    Shown,
}

pub fn panel(error: Option<String>, table: &str, loading: bool, lines: usize) -> (r: Panel)
    ensures
        r == match error {
            Some(e) => Panel::Failed(e),
            None => if table@.len() == 0 {
                Panel::NoTable
            } else if loading {
                Panel::Reading
            } else if lines == 0 {
                Panel::Nothing
            } else {
                Panel::Shown
            },
        },
{
    match error {
        Some(e) => Panel::Failed(e),
        None => if table.is_empty() {
            Panel::NoTable
        } else if loading {
            Panel::Reading
        } else if lines == 0 {
            Panel::Nothing
        } else {
            Panel::Shown
        },
    }
}

/// The filter with another text; the severity stays.
pub fn with_text(filter: &Filter, text: &str) -> (r: Filter)
    ensures
        r@ == (FilterV { text: text@, ..filter@ }),
{
    Filter { text: text.to_owned(), severity: filter.severity.clone() }
}

/// The filter with another severity; the text stays.
pub fn with_severity(filter: &Filter, severity: &str) -> (r: Filter)
    ensures
        r@ == (FilterV { severity: severity@, ..filter@ }),
{
    Filter { text: filter.text.clone(), severity: severity.to_owned() }
}

/// Whether there is a filter to clear.
pub fn is_filtered(filter: &Filter) -> (r: bool)
    ensures
        r == (filter@.text.len() > 0 || filter@.severity.len() > 0),
{
    !filter.text.as_str().is_empty() || !filter.severity.as_str().is_empty()
}

proof fn first_stands(s: Text, c: char, i: int, k: int)
    requires
        0 <= i <= k <= s.len(),
        forall|j: int| i <= j < k ==> #[trigger] s[j] != c,
    ensures
        k < s.len() && s[k] == c ==> first_from(s, c, i) == Some(k),
        k == s.len() ==> first_from(s, c, i) is None,
    decreases k - i,
{
    if i < k {
        assert(s[i] != c);
        first_stands(s, c, i + 1, k);
    }
}

/// The time of day is what stands between the `T` and the fraction; without
/// a fraction, what follows the `T` but for the `Z` that ends it. A text
/// without a `T` stays as it is.
pub proof fn times_of_day_stand_behind_the_date(date: Text, time: Text, rest: Text)
    requires
        !date.contains('T'),
        !date.contains('.'),
        !time.contains('.'),
    ensures
        time_of_day(date + seq!['T'] + time + seq!['.'] + rest) == time,
        !(time.len() > 0 && time.last() == 'Z') ==> time_of_day(
            date + seq!['T'] + time + seq!['Z'],
        ) == time,
        !(time.len() > 0 && time.last() == 'Z') ==> time_of_day(date + seq!['T'] + time) == time,
        time_of_day(date) == date,
{
    let t = date.len() as int;
    assert forall|j: int| 0 <= j < t implies date[j] != 'T' && #[trigger] date[j] != '.' by {
        assert(date.contains(date[j]));
    }
    assert forall|j: int| 0 <= j < time.len() implies #[trigger] time[j] != '.' by {
        assert(time.contains(time[j]));
    }
    let a = date + seq!['T'] + time + seq!['.'] + rest;
    let dot = t + 1 + time.len();
    first_stands(a, 'T', 0, t);
    first_stands(a, '.', 0, dot);
    assert(a.subrange(t + 1, dot) =~= time);
    let b = date + seq!['T'] + time + seq!['Z'];
    first_stands(b, 'T', 0, t);
    first_stands(b, '.', 0, b.len() as int);
    assert(b.skip(t + 1) =~= time.push('Z'));
    assert(time.push('Z').drop_last() =~= time);
    assert(without_z(time.push('Z')) == without_z(time));
    let c = date + seq!['T'] + time;
    first_stands(c, 'T', 0, t);
    first_stands(c, '.', 0, c.len() as int);
    assert(c.skip(t + 1) =~= time);
    first_stands(date, 'T', 0, t);
}

/// Words and numbers of failure read as bad and those of warning as such, in
/// whatever letters and with white space around; all else is plain.
pub proof fn severities_are_read_by_their_word(value: Text)
    ensures
        rank_of(value) is Bad <==> seq!["error"@, "critical"@, "fatal"@, "3"@, "4"@].contains(
            lowered(trimmed(value)),
        ),
        rank_of(value) is Warn ==> seq!["warning"@, "warn"@, "2"@].contains(
            lowered(trimmed(value)),
        ),
        rank_of(value) is Plain ==> !seq!["warning"@, "warn"@, "2"@].contains(
            lowered(trimmed(value)),
        ),
{
    let v = lowered(trimmed(value));
    let bad = seq!["error"@, "critical"@, "fatal"@, "3"@, "4"@];
    let warn = seq!["warning"@, "warn"@, "2"@];
    assert(bad[0] == v || bad[1] == v || bad[2] == v || bad[3] == v || bad[4] == v
        <==> bad.contains(v));
    assert(warn[0] == v || warn[1] == v || warn[2] == v <==> warn.contains(v));
}

} // verus!
