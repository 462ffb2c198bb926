//! UTC timestamps in ISO 8601 form, from the system clock.
use vstd::prelude::*;
use std::time::{Duration, SystemTime, SystemTimeError};
use crate::text::{push_char, push_str};
use crate::writer::{decimal, push_decimal, lemma_decimal_len_u64};
use vstd::string::StrSliceExecFns;

verus! {

/// The system clock's time type.
#[verifier::external_type_specification]
#[verifier::external_body]
pub struct ExSystemTime(std::time::SystemTime);

/// The error of a clock that reads earlier than a given time.
#[verifier::external_type_specification]
#[verifier::external_body]
pub struct ExSystemTimeError(std::time::SystemTimeError);

/// Division of integers rounding toward zero, as Rust's `/` on signed integers.
pub open spec fn tdiv(a: int, b: int) -> int {
    if a >= 0 {
        a / b
    } else {
        -((-a) / b)
    }
}

/// The remainder that goes with `tdiv`, as Rust's `%` on signed integers.
pub open spec fn trem(a: int, b: int) -> int {
    if a >= 0 {
        a % b
    } else {
        -((-a) % b)
    }
}

/// The year of the era, month and day for the day `doe` of a 400-year era
/// that starts on a 1st of March.
pub open spec fn era_day_parts(doe: int) -> (int, int, int) {
    let yoe = (doe - doe / 1460 + doe / 36524 - doe / 146096) / 365;
    let doy = doe - (365 * yoe + yoe / 4 - yoe / 100);
    let mp = (5 * doy + 2) / 153;
    let d = doy - (153 * mp + 2) / 5 + 1;
    let m = if mp < 10 { mp + 3 } else { mp - 9 };
    (yoe, m, d)
}

/// The era (of 400 years, counted from 0000-03-01) of the day `z` days
/// after 0000-03-01.
pub open spec fn era_of(z: int) -> int {
    tdiv(if z >= 0 { z } else { z - 146096 }, 146097)
}

/// The civil (proleptic Gregorian) date `(year, month, day)` of the day
/// `days` days after 1970-01-01, by H. Hinnant's `civil_from_days`.
pub open spec fn civil_from_days(days: int) -> (int, int, int) {
    let z = days + 719468;
    let era = era_of(z);
    let parts = era_day_parts(z - era * 146097);
    let y = parts.0 + era * 400;
    (if parts.1 <= 2 { y + 1 } else { y }, parts.1, parts.2)
}

/// `n` written in decimal with zeros after the sign up to `width`
/// characters, as `format!("{n:0width$}")` writes it.
#[verifier::opaque]
pub open spec fn padded(n: int, width: nat) -> Seq<char> {
    let sign: Seq<char> = if n < 0 { seq!['-'] } else { Seq::empty() };
    let digits = decimal(if n < 0 { (-n) as nat } else { n as nat });
    let fill: int = width - sign.len() - digits.len();
    sign + Seq::new(if fill > 0 { fill as nat } else { 0 }, |i: int| '0') + digits
}

/// The date part `YYYY-MM-DD` for the day `days` days after 1970-01-01.
pub open spec fn date_text(days: int) -> Seq<char> {
    let ymd = civil_from_days(days);
    padded(ymd.0, 4) + seq!['-'] + padded(ymd.1, 2) + seq!['-'] + padded(ymd.2, 2)
}

/// The time part `HH:MM:SS` for `rest` seconds into a day.
pub open spec fn time_text(rest: int) -> Seq<char> {
    padded(tdiv(rest, 3600), 2) + seq![':'] + padded(tdiv(trem(rest, 3600), 60), 2) + seq![':']
        + padded(trem(trem(rest, 3600), 60), 2)
}

/// The ISO 8601 UTC timestamp `YYYY-MM-DDTHH:MM:SSZ` of `secs` seconds after
/// the Unix epoch.
pub open spec fn utc_timestamp(secs: int) -> Seq<char> {
    date_text(tdiv(secs, 86400)) + seq!['T'] + time_text(trem(secs, 86400)) + seq!['Z']
}

/// The timestamp of a clock reading of `secs` seconds after the epoch, taken
/// as a signed number of seconds.
pub open spec fn clock_timestamp(secs: u64) -> Seq<char> {
    utc_timestamp((secs as i64) as int)
}

/// Writes `n` as `padded` describes.
fn push_padded(buf: &mut String, n: i64, width: usize)
    requires
        n > i64::MIN,
    ensures
        final(buf)@ == old(buf)@ + padded(n as int, width as nat),
{
    let mag: u64 = if n < 0 { (-n) as u64 } else { n as u64 };
    let mut digits = String::new();
    push_decimal(&mut digits, mag);
    let dlen = digits.unicode_len();
    proof {
        lemma_decimal_len_u64(mag);
    }
    let sign_len: usize = if n < 0 { 1 } else { 0 };
    let ghost start = buf@;
    if n < 0 {
        push_char(buf, '-');
    }
    let mut used: usize = sign_len + dlen;
    let ghost filled = buf@;
    while used < width
        invariant
            sign_len + dlen <= used,
            used <= width || used == sign_len + dlen,
            sign_len <= 1,
            dlen == decimal(mag as nat).len(),
            n < 0 ==> sign_len == 1,
            n >= 0 ==> sign_len == 0,
            buf@ == filled + Seq::new((used - sign_len - dlen) as nat, |i: int| '0'),
        decreases width - used,
    {
        let ghost before = buf@;
        push_char(buf, '0');
        proof {
            assert(buf@ =~= filled + Seq::new((used + 1 - sign_len - dlen) as nat, |i: int| '0'));
        }
        used += 1;
    }
    push_str(buf, digits.as_str());
    proof {
        reveal(padded);
        let sign: Seq<char> = if n < 0 { seq!['-'] } else { Seq::empty() };
        assert(filled =~= start + sign);
        let fill: int = width - sign.len() - digits@.len();
        assert(Seq::new((used - sign_len - dlen) as nat, |i: int| '0') =~= Seq::new(
            if fill > 0 { fill as nat } else { 0 },
            |i: int| '0',
        ));
        assert(buf@ =~= old(buf)@ + padded(n as int, width as nat));
    }
}

/// Writes the date part for `days`.
fn push_date(out: &mut String, days: i64)
    requires
        -200000000000000 < days < 200000000000000,
    ensures
        final(out)@ == old(out)@ + date_text(days as int),
{
    let ymd = civil_from_days_exec(days);
    push_padded(out, ymd.0, 4);
    push_char(out, '-');
    push_padded(out, ymd.1, 2);
    push_char(out, '-');
    push_padded(out, ymd.2, 2);
    proof {
        assert(out@ =~= old(out)@ + date_text(days as int));
    }
}

/// Writes the time part for `rest` seconds into a day.
fn push_time(out: &mut String, rest: i64)
    requires
        -86400 < rest < 86400,
    ensures
        final(out)@ == old(out)@ + time_text(rest as int),
{
    let hours: i64 = rest / 3600;
    let rest2: i64 = rest % 3600;
    let minutes: i64 = rest2 / 60;
    let seconds: i64 = rest2 % 60;
    assert(hours == tdiv(rest as int, 3600));
    assert(rest2 == trem(rest as int, 3600));
    assert(minutes == tdiv(trem(rest as int, 3600), 60));
    assert(seconds == trem(trem(rest as int, 3600), 60));
    let ghost p1 = padded(hours as int, 2);
    let ghost p2 = padded(minutes as int, 2);
    let ghost p3 = padded(seconds as int, 2);
    push_padded(out, hours, 2);
    push_char(out, ':');
    push_padded(out, minutes, 2);
    push_char(out, ':');
    push_padded(out, seconds, 2);
    proof {
        assert(out@ =~= old(out)@ + (p1 + seq![':'] + p2 + seq![':'] + p3));
    }
}

/// The ISO 8601 UTC timestamp of `secs` seconds after the Unix epoch.
pub fn format_utc_timestamp(secs: i64) -> (res: String)
    ensures
        res@ == utc_timestamp(secs as int),
{
    let days: i64 = secs / 86400;
    let rest: i64 = secs % 86400;
    let mut out = String::new();
    push_date(&mut out, days);
    push_char(&mut out, 'T');
    push_time(&mut out, rest);
    push_char(&mut out, 'Z');
    proof {
        assert(out@ =~= utc_timestamp(secs as int));
    }
    out
}

/// The era and the day of the era for the day `z` days after 0000-03-01.
fn era_and_day(z: i64) -> (res: (i64, u32))
    requires
        -300000000000000 < z < 300000000000000,
    ensures
        res.0 == era_of(z as int),
        res.1 == z - res.0 * 146097,
        res.1 <= 146096,
        -3000000000 < res.0 < 3000000000,
{
    let shifted: i64 = if z >= 0 { z } else { z - 146096 };
    let era: i64 = shifted / 146097;
    proof {
        let w = shifted as int;
        if w >= 0 {
            assert(w == 146097 * (w / 146097) + w % 146097);
        } else {
            assert((-w) == 146097 * ((-w) / 146097) + (-w) % 146097);
        }
    }
    let doe: u32 = (z - era * 146097) as u32;
    (era, doe)
}

/// `era_day_parts`, computed.
fn era_day_parts_exec(doe: u32) -> (res: (u32, u32, u32))
    requires
        doe <= 146096,
    ensures
        res.0 == era_day_parts(doe as int).0,
        res.1 == era_day_parts(doe as int).1,
        res.2 == era_day_parts(doe as int).2,
        res.0 <= 400,
        1 <= res.1 <= 12,
        res.2 <= 400,
{
    assert(doe / 1460 <= doe && doe / 36524 <= doe / 1460 && doe / 146096 <= 1) by (nonlinear_arith)
        requires
            doe <= 146096,
    ;
    let yoe: u32 = (doe - doe / 1460 + doe / 36524 - doe / 146096) / 365;
    assert(yoe <= 400 && 365 * yoe + yoe / 4 - yoe / 100 <= doe) by (nonlinear_arith)
        requires
            doe <= 146096,
            yoe == (doe - doe / 1460 + doe / 36524 - doe / 146096) / 365,
    ;
    let doy: u32 = doe - (365 * yoe + yoe / 4 - yoe / 100);
    assert(doy <= 365) by (nonlinear_arith)
        requires
            doe <= 146096,
            yoe == (doe - doe / 1460 + doe / 36524 - doe / 146096) / 365,
            doy == doe - (365 * yoe + yoe / 4 - yoe / 100),
    ;
    let mp: u32 = (5 * doy + 2) / 153;
    assert(mp <= 11 && (153 * mp + 2) / 5 <= doy) by (nonlinear_arith)
        requires
            doy <= 365,
            mp == (5 * doy + 2) / 153,
    ;
    let d: u32 = doy - (153 * mp + 2) / 5 + 1;
    let m: u32 = if mp < 10 { mp + 3 } else { mp - 9 };
    (yoe, m, d)
}

/// `civil_from_days`, computed.
fn civil_from_days_exec(days0: i64) -> (res: (i64, i64, i64))
    requires
        -200000000000000 < days0 < 200000000000000,
    ensures
        res.0 == civil_from_days(days0 as int).0,
        res.1 == civil_from_days(days0 as int).1,
        res.2 == civil_from_days(days0 as int).2,
        res.0 > i64::MIN,
        res.1 > i64::MIN,
        res.2 > i64::MIN,
{
    let z: i64 = days0 + 719468;
    let (era, doe) = era_and_day(z);
    let (yoe, m, d) = era_day_parts_exec(doe);
    let y: i64 = yoe as i64 + era * 400;
    let y2: i64 = if m <= 2 { y + 1 } else { y };
    (y2, m as i64, d as i64)
}

/// The system clock's current time: `SystemTime::now`.
#[verifier::external_body]
fn clock_now() -> SystemTime {
    SystemTime::now()
}

/// The time elapsed from the Unix epoch to `t`:
/// `SystemTime::duration_since(UNIX_EPOCH)`, an error when `t` is earlier.
#[verifier::external_body]
fn since_epoch(t: &SystemTime) -> Result<Duration, SystemTimeError> {
    t.duration_since(std::time::UNIX_EPOCH)
}

/// The whole seconds of a duration: `Duration::as_secs`.
#[verifier::external_body]
fn whole_seconds(d: &Duration) -> u64 {
    d.as_secs()
}

/// The current UTC time in ISO 8601 form (`YYYY-MM-DDTHH:MM:SSZ`). A clock
/// that reads earlier than the epoch counts as the epoch. What the clock
/// reads is not stated; the result is the timestamp of some reading.
pub fn current_utc_timestamp() -> (res: String)
    ensures
        exists|secs: u64| res@ == #[trigger] clock_timestamp(secs),
{
    let now = clock_now();
    let secs: u64 = match since_epoch(&now) {
        Ok(d) => whole_seconds(&d),
        Err(_) => 0,
    };
    let res = format_utc_timestamp(secs as i64);
    assert(res@ == clock_timestamp(secs));
    res
}

} // verus!
