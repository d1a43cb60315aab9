//! Instants and gaps between them.

use crate::json::{Json, JsonV};
use crate::text::{cat3, decimal, digits, i64_of, parse_i64, signed_decimal, signed_digits, Text};
use vstd::prelude::*;

verus! {

/// How an instant is shown: month and day, then the time to the millisecond.
pub const STAMP: &'static str = "%m-%d %H:%M:%S%.3f";

// ── Trusted parts of chrono ───────────────────────────────────────────────

/// What `DateTime::parse_from_rfc3339` reads, as epoch milliseconds.
pub uninterp spec fn rfc3339(s: Seq<char>) -> Option<i64>;

/// What `NaiveDateTime::parse_from_str` reads under a format, taken as UTC,
/// as epoch milliseconds.
pub uninterp spec fn naive_time(s: Seq<char>, format: Seq<char>) -> Option<i64>;

/// What `DateTime::format` prints for an instant in UTC under a pattern;
/// nothing when chrono cannot represent the instant.
pub uninterp spec fn printed_time(millis: i64, pattern: Seq<char>) -> Option<Seq<char>>;

/// Calls `DateTime::parse_from_rfc3339`, then `timestamp_millis`. The result
/// is a function of the text.
#[verifier::external_body]
fn read_rfc3339(s: &str) -> (r: Option<i64>)
    ensures
        r == rfc3339(s@),
{
    chrono::DateTime::parse_from_rfc3339(s).ok().map(|t| t.timestamp_millis())
}

/// Calls `NaiveDateTime::parse_from_str`, then `and_utc` and
/// `timestamp_millis`. The result is a function of the text and the format.
#[verifier::external_body]
fn read_naive(s: &str, format: &str) -> (r: Option<i64>)
    ensures
        r == naive_time(s@, format@),
{
    chrono::NaiveDateTime::parse_from_str(s, format).ok().map(|t| t.and_utc().timestamp_millis())
}

/// Calls `DateTime::from_timestamp_millis`, then `format` and `to_string`.
/// The result is a function of the instant and the pattern. Only the pattern
/// [`STAMP`] is passed: printing under a pattern that is not valid panics.
#[verifier::external_body]
fn print_time(millis: i64, pattern: &str) -> (r: Option<String>)
    requires
        pattern@ == STAMP@,
    ensures
        match r {
            Some(s) => printed_time(millis, pattern@) == Some(s@),
            None => printed_time(millis, pattern@) is None,
        },
{
    chrono::DateTime::<chrono::Utc>::from_timestamp_millis(millis).map(|t| t.format(pattern).to_string())
}

/// Calls `Utc::now`, then `timestamp`: seconds of the epoch, now. Nothing is
/// claimed of it; it is whatever the machine's clock reads. What is made of a
/// reading is stated of the functions that take one.
#[verifier::external_body]
pub fn now_seconds() -> i64 {
    chrono::Utc::now().timestamp()
}

// ── Reading instants ──────────────────────────────────────────────────────

/// Epoch seconds or milliseconds as milliseconds; nothing outside the years
/// in which a number is plausibly a date.
pub open spec fn epoch_millis(n: int) -> Option<i64> {
    if 1_000_000_000 <= n <= 4_000_000_000 {
        Some((n * 1000) as i64)
    } else if 1_000_000_000_000 <= n <= 4_000_000_000_000 {
        Some(n as i64)
    } else {
        None
    }
}

pub fn epoch_to_millis(n: i64) -> (r: Option<i64>)
    ensures
        r == epoch_millis(n as int),
{
    if 1_000_000_000 <= n && n <= 4_000_000_000 {
        Some(n * 1000)
    } else if 1_000_000_000_000 <= n && n <= 4_000_000_000_000 {
        Some(n)
    } else {
        None
    }
}

pub open spec fn first_some(a: Option<i64>, b: Option<i64>) -> Option<i64> {
    match a {
        Some(_) => a,
        None => b,
    }
}

/// The instant a text names, given what each reading of it gives.
pub open spec fn time_among(s: Text, readings: Seq<Option<i64>>) -> Option<i64>
    decreases readings.len(),
{
    if readings.len() == 0 {
        match i64_of(s) {
            Some(n) => epoch_millis(n as int),
            None => None,
        }
    } else {
        first_some(readings[0], time_among(s, readings.drop_first()))
    }
}

/// The readings tried on a text, in order.
pub open spec fn readings_of(s: Text) -> Seq<Option<i64>> {
    seq![
        rfc3339(s),
        naive_time(s, "%Y-%m-%dT%H:%M:%S%.f"@),
        naive_time(s, "%Y-%m-%d %H:%M:%S%.f"@),
        naive_time(s, "%Y-%m-%dT%H:%M:%S"@),
        naive_time(s, "%Y-%m-%d %H:%M:%S"@),
        naive_time(s, "%Y-%m-%d"@),
    ]
}

/// Epoch milliseconds from whatever shape a timestamp has.
pub open spec fn time_of(v: JsonV) -> Option<i64> {
    match v {
        JsonV::Number(n) => epoch_millis(n.whole),
        JsonV::Text(s) => time_among(s, readings_of(s)),
        _ => None,
    }
}

/// The instant a text names, given what each reading of it gave.
pub fn time_from(s: &str, readings: &Vec<Option<i64>>) -> (r: Option<i64>)
    ensures
        r == time_among(s@, readings@),
{
    let mut i: usize = 0;
    assert(readings@.skip(0) =~= readings@);
    while i < readings.len()
        invariant
            i <= readings@.len(),
            time_among(s@, readings@) == time_among(s@, readings@.skip(i as int)),
        decreases readings@.len() - i,
    {
        assert(readings@.skip(i as int).drop_first() =~= readings@.skip(i + 1));
        if readings[i].is_some() {
            return readings[i];
        }
        i = i + 1;
    }
    assert(readings@.skip(i as int) =~= Seq::empty());
    match parse_i64(s) {
        Some(n) => epoch_to_millis(n),
        None => None,
    }
}

/// Epoch milliseconds from whatever shape the timestamp is stored in.
pub fn parse_time(v: &Json) -> (r: Option<i64>)
    ensures
        r == time_of(v@),
{
    match v {
        Json::Number(n) => epoch_to_millis(n.whole),
        Json::Text(s) => {
            let t = s.as_str();
            let mut readings: Vec<Option<i64>> = Vec::new();
            readings.push(read_rfc3339(t));
            readings.push(read_naive(t, "%Y-%m-%dT%H:%M:%S%.f"));
            readings.push(read_naive(t, "%Y-%m-%d %H:%M:%S%.f"));
            readings.push(read_naive(t, "%Y-%m-%dT%H:%M:%S"));
            readings.push(read_naive(t, "%Y-%m-%d %H:%M:%S"));
            readings.push(read_naive(t, "%Y-%m-%d"));
            assert(readings@ =~= readings_of(s@));
            time_from(t, &readings)
        },
        _ => None,
    }
}

/// An instant as it is shown; empty when it cannot be.
pub open spec fn shown_time(millis: i64) -> Text {
    match printed_time(millis, STAMP@) {
        Some(t) => t,
        None => Seq::empty(),
    }
}

pub fn format_time(millis: i64) -> (r: String)
    ensures
        r@ == shown_time(millis),
{
    match print_time(millis, STAMP) {
        Some(t) => t,
        None => {
            let none: String = String::new();
            assert(none@ =~= Seq::empty());
            none
        },
    }
}

// ── Gaps ──────────────────────────────────────────────────────────────────

/// Quotients are kept to the precision of a double: 53 significant bits,
/// counted in units of one part in this.
pub const FINE: u128 = 0x10_0000_0000_0000;

/// The spacing of doubles around `x` units.
pub open spec fn spacing(x: nat) -> nat
    decreases x,
{
    if x < 2 * FINE {
        1
    } else {
        2 * spacing(x / 2)
    }
}

/// To the nearest multiple of `unit`, halves to the even one, in multiples.
pub open spec fn nearest(x: nat, unit: nat) -> nat {
    let q = x / unit;
    let r = x % unit;
    if 2 * r > unit || (2 * r == unit && q % 2 == 1) {
        q + 1
    } else {
        q
    }
}

/// `x / d` rounded as division of doubles rounds it, for quotients of one
/// and more.
pub open spec fn double_quotient(x: nat, d: nat) -> nat {
    let g = spacing(x / d);
    nearest(x, d * g) * g
}

/// A number of units to one decimal place.
pub open spec fn one_decimal(x: nat) -> Text {
    let t = nearest(10 * x, FINE as nat);
    digits(t / 10) + "."@ + digits(t % 10)
}

/// A gap in words: milliseconds, then seconds, minutes, hours and days to
/// one decimal place.
pub open spec fn gap_text(millis: int) -> Text {
    if millis < 1000 {
        "+"@ + signed_digits(millis) + "ms"@
    } else {
        let m = double_quotient((millis * FINE) as nat, 1);
        let s = double_quotient(m, 1000);
        if s < 60 * FINE {
            "+"@ + one_decimal(s) + "s"@
        } else if s < 3600 * FINE {
            "+"@ + one_decimal(double_quotient(s, 60)) + "min"@
        } else if s < 86_400 * FINE {
            "+"@ + one_decimal(double_quotient(s, 3600)) + "h"@
        } else {
            "+"@ + one_decimal(double_quotient(s, 86_400)) + "d"@
        }
    }
}

proof fn spacing_small(x: nat)
    ensures
        spacing(x) >= 1,
        spacing(x) == 1 || spacing(x) * FINE <= x,
    decreases x,
{
    if x >= 2 * FINE {
        spacing_small(x / 2);
        let g = spacing(x / 2);
        assert(2 * g * FINE <= x) by (nonlinear_arith)
            requires
                g == 1 || g * FINE <= x / 2,
                x >= 2 * FINE,
                g >= 1,
        ;
    }
}

fn spacing_at(x: u128) -> (g: u128)
    ensures
        g == spacing(x as nat),
        1 <= g,
        g == 1 || g * FINE <= x,
    decreases x,
{
    proof {
        spacing_small(x as nat);
    }
    if x < 2 * FINE {
        1
    } else {
        let half: u128 = spacing_at(x / 2);
        proof {
            spacing_small((x / 2) as nat);
            assert(half <= x / 2 || half == 1) by (nonlinear_arith)
                requires
                    half == 1 || half * FINE <= x / 2,
                    FINE >= 1,
            ;
        }
        2 * half
    }
}

fn nearest_to(x: u128, unit: u128) -> (r: u128)
    requires
        0 < unit < 0x8000_0000_0000_0000_0000_0000_0000_0000,
        x < 0x8000_0000_0000_0000_0000_0000_0000_0000,
    ensures
        r == nearest(x as nat, unit as nat),
        r <= x / unit + 1,
{
    let q: u128 = x / unit;
    let rest: u128 = x % unit;
    assert(q <= x) by (nonlinear_arith)
        requires
            q == x / unit,
            unit > 0,
    ;
    if 2 * rest > unit || (2 * rest == unit && q % 2 == 1) {
        q + 1
    } else {
        q
    }
}

fn divide(x: u128, d: u128) -> (r: u128)
    requires
        0 < d <= 86_400,
        x < 0x100_0000_0000_0000_0000_0000_0000_0000,
    ensures
        r == double_quotient(x as nat, d as nat),
        r <= 2 * (x / d) + 1,
{
    let g: u128 = spacing_at(x / d);
    assert(x / d <= x) by (nonlinear_arith)
        requires
            d > 0,
    ;
    assert(g <= x + 1) by (nonlinear_arith)
        requires
            g == 1 || g * FINE <= x / d,
            x / d <= x,
            FINE >= 1,
    ;
    assert(d * g <= x + 86_400) by (nonlinear_arith)
        requires
            g == 1 || g * FINE <= x / d,
            FINE == 0x10_0000_0000_0000,
            0 < d <= 86_400,
            g >= 1,
    ;
    assert(d * g > 0) by (nonlinear_arith)
        requires
            d > 0,
            g >= 1,
    ;
    let q: u128 = nearest_to(x, d * g);
    proof {
        let y = x as int / (d * g);
        let z = x as int / d as int;
        assert(y * (d * g) <= x) by (nonlinear_arith)
            requires
                y == x as int / (d * g),
                d * g > 0,
        ;
        assert((y * g) * d <= x) by (nonlinear_arith)
            requires
                y * (d * g) <= x,
        ;
        assert(y * g <= z) by (nonlinear_arith)
            requires
                (y * g) * d <= x,
                z == x as int / d as int,
                d > 0,
        ;
        assert(g <= z + 1) by (nonlinear_arith)
            requires
                g == 1 || g * FINE <= z,
                FINE >= 1,
                z >= 0,
        ;
        assert(q * g <= y * g + g) by (nonlinear_arith)
            requires
                q <= y + 1,
                g >= 1,
        ;
    }
    q * g
}

fn to_one_decimal(x: u128) -> (r: String)
    requires
        x < 0x400_0000_0000_0000_0000_0000_0000_0000,
    ensures
        r@ == one_decimal(x as nat),
{
    let t: u128 = nearest_to(10 * x, FINE);
    cat3(decimal(t / 10).as_str(), ".", decimal(t % 10).as_str())
}

/// A human-readable gap between two instants.
pub fn format_gap(millis: i64) -> (r: String)
    ensures
        r@ == gap_text(millis as int),
{
    if millis < 1000 {
        return cat3("+", signed_decimal(millis as i128).as_str(), "ms");
    }
    let m: u128 = divide((millis as u128) * FINE, 1);
    let s: u128 = divide(m, 1000);
    if s < 60 * FINE {
        cat3("+", to_one_decimal(s).as_str(), "s")
    } else if s < 3600 * FINE {
        cat3("+", to_one_decimal(divide(s, 60)).as_str(), "min")
    } else if s < 86_400 * FINE {
        cat3("+", to_one_decimal(divide(s, 3600)).as_str(), "h")
    } else {
        cat3("+", to_one_decimal(divide(s, 86_400)).as_str(), "d")
    }
}

// ── What an instant is ────────────────────────────────────────────────────

/// Seconds and milliseconds of the epoch are told apart by their size, and
/// both give milliseconds; what lies outside both is no instant.
pub proof fn epochs_are_told_by_their_size(n: int)
    ensures
        1_000_000_000 <= n <= 4_000_000_000 ==> epoch_millis(n) == Some((1000 * n) as i64),
        1_000_000_000_000 <= n <= 4_000_000_000_000 ==> epoch_millis(n) == Some(n as i64),
        epoch_millis(n) matches Some(t) ==> 1_000_000_000_000 <= t <= 4_000_000_000_000 && (t == n
            || t == 1000 * n),
        n < 1_000_000_000 || 4_000_000_000 < n < 1_000_000_000_000 || n > 4_000_000_000_000
            ==> epoch_millis(n) is None,
{
}

proof fn first_reading(s: Text, readings: Seq<Option<i64>>, i: int)
    requires
        0 <= i <= readings.len(),
        forall|j: int| 0 <= j < i ==> (#[trigger] readings[j]) is None,
    ensures
        i < readings.len() && readings[i] is Some ==> time_among(s, readings) == readings[i],
        i == readings.len() ==> time_among(s, readings) == match i64_of(s) {
            Some(n) => epoch_millis(n as int),
            None => None,
        },
    decreases i,
{
    if i > 0 {
        let rest = readings.drop_first();
        assert(readings[0] is None);
        assert forall|j: int| 0 <= j < i - 1 implies (#[trigger] rest[j]) is None by {
            assert(rest[j] == readings[j + 1]);
        }
        assert(i < readings.len() ==> rest[i - 1] == readings[i]);
        first_reading(s, rest, i - 1);
    }
}


/// A text is read by the first reading that gives an instant. One that
/// states its offset is read by that; one without is taken as UTC; and a
/// whole number counts from the epoch. A number is never read as a date.
pub proof fn the_first_reading_counts(v: JsonV, s: Text, whole: int)
    ensures
        v == JsonV::Text(s) && rfc3339(s) is Some ==> time_of(v) == rfc3339(s),
        v == JsonV::Text(s) && rfc3339(s) is None && naive_time(s, "%Y-%m-%dT%H:%M:%S%.f"@) is Some
            ==> time_of(v) == naive_time(s, "%Y-%m-%dT%H:%M:%S%.f"@),
        v == JsonV::Text(s) && rfc3339(s) is None && naive_time(s, "%Y-%m-%dT%H:%M:%S%.f"@) is None
            && naive_time(s, "%Y-%m-%d %H:%M:%S%.f"@) is Some ==> time_of(v) == naive_time(
            s,
            "%Y-%m-%d %H:%M:%S%.f"@,
        ),
        v matches JsonV::Number(n) ==> (n.whole == whole ==> time_of(v) == epoch_millis(whole)),
        !(v is Text) && !(v is Number) ==> time_of(v) is None,
{
    let r = readings_of(s);
    if rfc3339(s) is Some {
        first_reading(s, r, 0);
    } else if naive_time(s, "%Y-%m-%dT%H:%M:%S%.f"@) is Some {
        first_reading(s, r, 1);
    } else if naive_time(s, "%Y-%m-%d %H:%M:%S%.f"@) is Some {
        first_reading(s, r, 2);
    }
}

/// A text that no reading takes is an instant only as a whole number of the
/// epoch.
pub proof fn numbers_are_read_last(s: Text, readings: Seq<Option<i64>>, n: i64)
    requires
        forall|j: int| 0 <= j < readings.len() ==> (#[trigger] readings[j]) is None,
    ensures
        i64_of(s) == Some(n) ==> time_among(s, readings) == epoch_millis(n as int),
        i64_of(s) is None ==> time_among(s, readings) is None,
{
    first_reading(s, readings, readings.len() as int);
}

/// Rounding gives the multiple that is no further off than any other, and of
/// two as near the even one.
pub proof fn rounding_is_to_the_nearest(x: nat, unit: nat)
    requires
        unit > 0,
    ensures
        2 * x <= 2 * (nearest(x, unit) * unit) + unit,
        2 * (nearest(x, unit) * unit) <= 2 * x + unit,
        2 * x == 2 * (nearest(x, unit) * unit) + unit || 2 * (nearest(x, unit) * unit) == 2 * x
            + unit ==> nearest(x, unit) % 2 == 0,
{
    let q = x / unit;
    let r = x % unit;
    vstd::arithmetic::div_mod::lemma_fundamental_div_mod(x as int, unit as int);
    assert((q + 1) * unit == q * unit + unit) by (nonlinear_arith);
    assert(unit * q == q * unit) by (nonlinear_arith);
    assert(x == q * unit + r);
    assert(r < unit);
}

/// A gap of less than a second is told in whole milliseconds.
pub proof fn short_gaps_are_told_in_milliseconds(millis: int)
    ensures
        millis < 1000 ==> gap_text(millis) == "+"@ + signed_digits(millis) + "ms"@,
{
}

proof fn spacing_is_fine(x: nat)
    ensures
        spacing(x) >= 1,
        x < 2 * FINE * spacing(x),
        spacing(x) == 1 || FINE * spacing(x) <= x,
    decreases x,
{
    if x >= 2 * FINE {
        spacing_is_fine(x / 2);
        let g = spacing(x / 2);
        assert(x / 2 < 2 * FINE * g);
        assert(x < 2 * FINE * (2 * g)) by (nonlinear_arith)
            requires
                x / 2 < 2 * FINE * g,
        ;
        if g > 1 {
            assert(FINE * (2 * g) <= x) by (nonlinear_arith)
                requires
                    FINE * g <= x / 2,
            ;
        }
    }
}

/// A quotient is off by half a step at most, and a step is one part in
/// 2 to the 52nd of the quotient, or one unit.
pub proof fn quotients_are_off_by_half_a_step(x: nat, d: nat)
    requires
        d > 0,
    ensures
        ({
            let g = spacing(x / d);
            &&& 2 * x <= 2 * (double_quotient(x, d) * d) + d * g
            &&& 2 * (double_quotient(x, d) * d) <= 2 * x + d * g
            &&& g == 1 || 0x10_0000_0000_0000 * g <= x / d
        }),
{
    let g = spacing(x / d);
    spacing_is_fine(x / d);
    assert(d * g > 0) by (nonlinear_arith)
        requires
            d > 0,
            g >= 1,
    ;
    rounding_is_to_the_nearest(x, d * g);
    let n = nearest(x, d * g);
    assert(n * (d * g) == n * g * d) by (nonlinear_arith);
}

/// A gap is told in seconds up to a minute, in minutes up to an hour, in
/// hours up to a day, and in days beyond, each to one decimal place.
pub proof fn longer_gaps_are_told_in_larger_units(millis: int)
    requires
        millis >= 1000,
    ensures
        ({
            let s = double_quotient(
                double_quotient((millis * 0x10_0000_0000_0000) as nat, 1),
                1000,
            );
            let minute = 60 * 0x10_0000_0000_0000;
            &&& s < minute ==> gap_text(millis) == "+"@ + one_decimal(s) + "s"@
            &&& minute <= s < 60 * minute ==> gap_text(millis) == "+"@ + one_decimal(
                double_quotient(s, 60),
            ) + "min"@
            &&& 60 * minute <= s < 1440 * minute ==> gap_text(millis) == "+"@ + one_decimal(
                double_quotient(s, 3600),
            ) + "h"@
            &&& 1440 * minute <= s ==> gap_text(millis) == "+"@ + one_decimal(
                double_quotient(s, 86_400),
            ) + "d"@
        }),
{
}

/// A number is told by its nearest tenth: the whole part, then the tenth.
pub proof fn tenths_are_nearest(x: nat, whole: nat, tenth: nat)
    requires
        tenth < 10,
        20 * x < (20 * whole + 2 * tenth + 1) * 0x10_0000_0000_0000,
        20 * x + 0x10_0000_0000_0000 > (20 * whole + 2 * tenth) * 0x10_0000_0000_0000,
    ensures
        one_decimal(x) == digits(whole) + "."@ + digits(tenth),
{
    let unit: nat = 0x10_0000_0000_0000;
    let t = nearest(10 * x, unit);
    let w = (10 * whole + tenth) as nat;
    rounding_is_to_the_nearest(10 * x, unit);
    assert(t == w) by (nonlinear_arith)
        requires
            unit == 0x10_0000_0000_0000,
            2 * (10 * x) <= 2 * (t * unit) + unit,
            2 * (t * unit) <= 2 * (10 * x) + unit,
            20 * x < (2 * w + 1) * unit,
            20 * x + unit > (2 * w) * unit,
    ;
}

/// The formats without an offset are tried in this order, the first that
/// fits deciding; and only then a whole number.
pub proof fn formats_are_tried_in_order(s: Text, i: int)
    requires
        rfc3339(s) is None,
        0 <= i <= 5,
        i < 5 ==> naive_time(
            s,
            seq![
                "%Y-%m-%dT%H:%M:%S%.f"@,
                "%Y-%m-%d %H:%M:%S%.f"@,
                "%Y-%m-%dT%H:%M:%S"@,
                "%Y-%m-%d %H:%M:%S"@,
                "%Y-%m-%d"@,
            ][i],
        ) is Some,
        i > 0 ==> naive_time(s, "%Y-%m-%dT%H:%M:%S%.f"@) is None,
        i > 1 ==> naive_time(s, "%Y-%m-%d %H:%M:%S%.f"@) is None,
        i > 2 ==> naive_time(s, "%Y-%m-%dT%H:%M:%S"@) is None,
        i > 3 ==> naive_time(s, "%Y-%m-%d %H:%M:%S"@) is None,
        i > 4 ==> naive_time(s, "%Y-%m-%d"@) is None,
    ensures
        i < 5 ==> time_of(JsonV::Text(s)) == naive_time(
            s,
            seq![
                "%Y-%m-%dT%H:%M:%S%.f"@,
                "%Y-%m-%d %H:%M:%S%.f"@,
                "%Y-%m-%dT%H:%M:%S"@,
                "%Y-%m-%d %H:%M:%S"@,
                "%Y-%m-%d"@,
            ][i],
        ),
        i == 5 && i64_of(s) is Some ==> time_of(JsonV::Text(s)) == epoch_millis(
            i64_of(s)->0 as int,
        ),
        i == 5 && i64_of(s) is None ==> time_of(JsonV::Text(s)) is None,
{
    let r = readings_of(s);
    assert(r[0] is None);
    assert(i > 0 ==> r[1] is None);
    assert(i > 1 ==> r[2] is None);
    assert(i > 2 ==> r[3] is None);
    assert(i > 3 ==> r[4] is None);
    assert(i > 4 ==> r[5] is None);
    assert forall|j: int| 0 <= j < i + 1 implies (#[trigger] r[j]) is None by {
        assert(j == 0 || j == 1 || j == 2 || j == 3 || j == 4 || j == 5);
    }
    first_reading(s, r, i + 1);
}

} // verus!
