//! Library CSV export: proleptic-Gregorian UTC dates without a date library, and cell rules.
use vstd::prelude::*;
use crate::model::{BeatmapStatus, GameMode, SourceKind};
use crate::text::{push_char, push_i64, push_padded_i64, push_padded_u64, int_text, padded_int, zero_pad, dec_digits};

verus! {

// ── calendar model ──────────────────────────────────────────────────────────

pub open spec fn is_leap(y: int) -> bool {
    (y % 4 == 0 && y % 100 != 0) || y % 400 == 0
}

/// Days from 0001-01-01 to Y-01-01 in the proleptic Gregorian calendar.
pub open spec fn civil_count(y: int) -> int {
    (y - 1) * 365 + (y - 1) / 4 - (y - 1) / 100 + (y - 1) / 400
}

/// Days from 1970-01-01 to Y-01-01 (negative before 1970).
pub open spec fn year_start(y: int) -> int {
    civil_count(y) - civil_count(1970)
}

pub open spec fn month_len(y: int, m: int) -> int {
    if m == 2 {
        if is_leap(y) { 29 } else { 28 }
    } else if m == 4 || m == 6 || m == 9 || m == 11 {
        30
    } else {
        31
    }
}

/// Days of year `y` before the first of month `m`.
pub open spec fn days_before_month(y: int, m: int) -> int
    decreases m,
{
    if m <= 1 {
        0
    } else {
        days_before_month(y, m - 1) + month_len(y, m - 1)
    }
}

/// `t = (year, month, day, hour, minute, second)` is the UTC calendar form of `secs`
/// seconds since 1970-01-01T00:00:00Z.
pub open spec fn is_utc_parts(secs: int, t: (int, int, int, int, int, int)) -> bool {
    &&& 1 <= t.1 <= 12
    &&& 1 <= t.2 <= month_len(t.0, t.1)
    &&& 0 <= t.3 < 24
    &&& 0 <= t.4 < 60
    &&& 0 <= t.5 < 60
    &&& secs == (year_start(t.0) + days_before_month(t.0, t.1) + t.2 - 1) * 86400 + t.3 * 3600
        + t.4 * 60 + t.5
}

/// The UTC calendar form of `secs` (unique: see `utc_parts_unique`).
pub open spec fn utc_parts(secs: int) -> (int, int, int, int, int, int) {
    choose|t: (int, int, int, int, int, int)| is_utc_parts(secs, t)
}

proof fn lemma_year_len(y: int)
    ensures
        year_start(y + 1) - year_start(y) == if is_leap(y) { 366int } else { 365int },
{
    let p = y - 1;
    assert((p + 1) / 4 - p / 4 == if y % 4 == 0 { 1int } else { 0int });
    assert((p + 1) / 100 - p / 100 == if y % 100 == 0 { 1int } else { 0int });
    assert((p + 1) / 400 - p / 400 == if y % 400 == 0 { 1int } else { 0int });
}

proof fn lemma_year_start_shift(p: int)
    ensures
        civil_count(p + 400) == civil_count(p) + 146097,
        is_leap(p + 400) == is_leap(p),
{
    assert((p - 1 + 400) / 4 == (p - 1) / 4 + 100);
    assert((p - 1 + 400) / 100 == (p - 1) / 100 + 4);
    assert((p - 1 + 400) / 400 == (p - 1) / 400 + 1);
    assert((p + 400) % 4 == p % 4);
    assert((p + 400) % 100 == p % 100);
    assert((p + 400) % 400 == p % 400);
}

proof fn lemma_cycles(p: int, e: int)
    ensures
        civil_count(p + 400 * e) == civil_count(p) + 146097 * e,
        is_leap(p + 400 * e) == is_leap(p),
    decreases (if e < 0 { -e } else { e }),
{
    if e > 0 {
        lemma_cycles(p, e - 1);
        lemma_year_start_shift(p + 400 * (e - 1));
    } else if e < 0 {
        lemma_cycles(p, e + 1);
        lemma_year_start_shift(p + 400 * e);
    }
}

proof fn lemma_days_before_month_same_leap(y1: int, y2: int, m: int)
    requires
        is_leap(y1) == is_leap(y2),
    ensures
        days_before_month(y1, m) == days_before_month(y2, m),
    decreases m,
{
    if m > 1 {
        lemma_days_before_month_same_leap(y1, y2, m - 1);
    }
}

proof fn lemma_days_before_month_mono(y: int, m1: int, m2: int)
    requires
        1 <= m1 <= m2,
    ensures
        days_before_month(y, m1) + (m2 - m1) * 28 <= days_before_month(y, m2),
    decreases m2,
{
    if m2 > m1 {
        lemma_days_before_month_mono(y, m1, m2 - 1);
    }
}

proof fn lemma_year_days(y: int)
    ensures
        days_before_month(y, 13) == if is_leap(y) { 366int } else { 365int },
        days_before_month(y, 12) + 31 == days_before_month(y, 13),
{
    reveal_with_fuel(days_before_month, 13);
}

proof fn lemma_year_start_mono(a: int, b: int)
    requires
        a < b,
    ensures
        year_start(a) + 365 <= year_start(b),
    decreases b - a,
{
    lemma_year_len(a);
    if a + 1 < b {
        lemma_year_start_mono(a + 1, b);
    }
}

/// The UTC calendar form of an instant is unique.
pub proof fn utc_parts_unique(
    secs: int,
    t: (int, int, int, int, int, int),
    u: (int, int, int, int, int, int),
)
    requires
        is_utc_parts(secs, t),
        is_utc_parts(secs, u),
    ensures
        t == u,
{
    let dt = year_start(t.0) + days_before_month(t.0, t.1) + t.2 - 1;
    let du = year_start(u.0) + days_before_month(u.0, u.1) + u.2 - 1;
    let st = t.3 * 3600 + t.4 * 60 + t.5;
    let su = u.3 * 3600 + u.4 * 60 + u.5;
    assert(dt == du && st == su) by {
        assert(0 <= st < 86400);
        assert(0 <= su < 86400);
        assert(dt * 86400 + st == du * 86400 + su);
        if dt < du {
            assert(dt * 86400 + 86400 <= du * 86400) by (nonlinear_arith)
                requires dt < du;
        } else if dt > du {
            assert(du * 86400 + 86400 <= dt * 86400) by (nonlinear_arith)
                requires du < dt;
        }
    }
    lemma_year_days(t.0);
    lemma_year_days(u.0);
    lemma_days_before_month_mono(t.0, 1, t.1);
    lemma_days_before_month_mono(u.0, 1, u.1);
    assert(days_before_month(t.0, t.1) + t.2 - 1 < days_before_month(t.0, 13)) by {
        lemma_days_before_month_mono(t.0, t.1 + 1, 13);
    }
    assert(days_before_month(u.0, u.1) + u.2 - 1 < days_before_month(u.0, 13)) by {
        lemma_days_before_month_mono(u.0, u.1 + 1, 13);
    }
    if t.0 < u.0 {
        lemma_year_start_mono(t.0, u.0);
        lemma_year_len(t.0);
        lemma_year_start_mono_len(t.0, u.0);
        assert(false);
    } else if u.0 < t.0 {
        lemma_year_start_mono_len(u.0, t.0);
        assert(false);
    }
    assert(t.0 == u.0);
    if t.1 < u.1 {
        lemma_days_before_month_le(t.0, t.1 + 1, u.1);
        assert(false);
    } else if u.1 < t.1 {
        lemma_days_before_month_le(t.0, u.1 + 1, t.1);
        assert(false);
    }
    assert(t.2 == u.2);
    assert(t.3 == u.3 && t.4 == u.4 && t.5 == u.5) by {
        assert(t.3 * 3600 + t.4 * 60 + t.5 == u.3 * 3600 + u.4 * 60 + u.5);
        assert(t.4 * 60 + t.5 < 3600);
        assert(u.4 * 60 + u.5 < 3600);
        if t.3 < u.3 {
            assert(t.3 * 3600 + 3600 <= u.3 * 3600) by (nonlinear_arith) requires t.3 < u.3;
        } else if u.3 < t.3 {
            assert(u.3 * 3600 + 3600 <= t.3 * 3600) by (nonlinear_arith) requires u.3 < t.3;
        }
        assert(t.3 == u.3);
    }
}

/// The calendar day after `t`, at the same time of day.
pub open spec fn next_day(t: (int, int, int, int, int, int)) -> (int, int, int, int, int, int) {
    if t.2 < month_len(t.0, t.1) {
        (t.0, t.1, t.2 + 1, t.3, t.4, t.5)
    } else if t.1 < 12 {
        (t.0, t.1 + 1, 1, t.3, t.4, t.5)
    } else {
        (t.0 + 1, 1, 1, t.3, t.4, t.5)
    }
}

/// An instant a day later falls on the next calendar day at the same time; the calendar form
/// of an instant is the one it has.
pub proof fn next_instant_day_is_next_day(secs: int, t: (int, int, int, int, int, int))
    requires
        is_utc_parts(secs, t),
    ensures
        utc_parts(secs) == t,
        is_utc_parts(secs + 86400, next_day(t)),
        utc_parts(secs + 86400) == next_day(t),
{
    let n = next_day(t);
    let tod = t.3 * 3600 + t.4 * 60 + t.5;
    let day = year_start(t.0) + days_before_month(t.0, t.1) + t.2 - 1;
    assert(secs == day * 86400 + tod);
    assert(secs + 86400 == (day + 1) * 86400 + tod);
    if t.2 < month_len(t.0, t.1) {
    } else if t.1 < 12 {
        assert(days_before_month(t.0, t.1 + 1) == days_before_month(t.0, t.1) + month_len(t.0, t.1));
    } else {
        lemma_year_len(t.0);
        lemma_year_days(t.0);
        assert(days_before_month(t.0 + 1, 1) == 0);
        assert(year_start(t.0 + 1) == day + 1);
    }
    assert(is_utc_parts(secs + 86400, n));
    utc_parts_unique(secs, t, utc_parts(secs));
    utc_parts_unique(secs + 86400, n, utc_parts(secs + 86400));
}

proof fn lemma_year_start_mono_len(a: int, b: int)
    requires
        a < b,
    ensures
        year_start(a) + days_before_month(a, 13) <= year_start(b),
{
    lemma_year_len(a);
    lemma_year_days(a);
    if a + 1 < b {
        lemma_year_start_mono(a + 1, b);
    }
}

proof fn lemma_days_before_month_le(y: int, m1: int, m2: int)
    requires
        1 <= m1 <= m2,
    ensures
        days_before_month(y, m1) <= days_before_month(y, m2),
{
    lemma_days_before_month_mono(y, m1, m2);
}

// ── exec ────────────────────────────────────────────────────────────────────

fn leap_exec(y: u64) -> (b: bool)
    ensures
        b == is_leap(y as int),
{
    (y % 4 == 0 && y % 100 != 0) || y % 400 == 0
}

/// `year_start(1970 + k)` for a year within one 400-year cycle of 1970.
fn year_start_near(k: u64) -> (r: u64)
    requires
        k <= 400,
    ensures
        r as int == year_start(1970 + k),
{
    let p = 1969 + k;
    p * 365 + p / 4 - p / 100 + p / 400 - 719162
}

fn month_len_exec(leap: bool, m: u32) -> (r: u32)
    requires
        1 <= m <= 12,
    ensures
        forall|y: int| is_leap(y) == leap ==> r as int == month_len(y, m as int),
{
    if m == 2 {
        if leap { 29 } else { 28 }
    } else if m == 4 || m == 6 || m == 9 || m == 11 {
        30
    } else {
        31
    }
}

/// epoch seconds → (year, month, day, hour, minute, second), UTC.
pub fn datetime_parts(secs: i64) -> (r: (i64, u32, u32, u32, u32, u32))
    ensures
        is_utc_parts(secs as int, (r.0 as int, r.1 as int, r.2 as int, r.3 as int, r.4 as int, r.5 as int)),
        (r.0 as int, r.1 as int, r.2 as int, r.3 as int, r.4 as int, r.5 as int) == utc_parts(secs as int),
{
    let day = match secs.checked_div_euclid(86400) { Some(q) => q, None => 0 };
    let tod = match secs.checked_rem_euclid(86400) { Some(q) => q, None => 0 };
    assert(secs as int == day as int * 86400 + tod as int);
    let era = match day.checked_div_euclid(146097) { Some(q) => q, None => 0 };
    let rem = match day.checked_rem_euclid(146097) { Some(q) => q, None => 0 };
    assert(day as int == era as int * 146097 + rem as int);
    assert(-110000000000000 <= day <= 110000000000000) by (nonlinear_arith)
        requires secs as int == day as int * 86400 + tod as int, 0 <= tod < 86400,
            i64::MIN <= secs <= i64::MAX;
    assert(-1000000000 <= era <= 1000000000) by (nonlinear_arith)
        requires day as int == era as int * 146097 + rem as int, 0 <= rem < 146097,
            -110000000000000 <= day <= 110000000000000;
    let remu = rem as u64;
    let mut k: u64 = 0;
    while year_start_near(k + 1) <= remu
        invariant
            k <= 399,
            year_start(1970 + k) <= remu,
            remu < 146097,
        decreases 399 - k,
    {
        proof {
            assert(year_start(1970int + 400) == 146097);
            if k + 1 == 400 {
                assert(false);
            }
        }
        k += 1;
    }
    let ys = year_start_near(k);
    let y: i64 = 1970 + 400 * era + k as i64;
    let leap = leap_exec(1970 + k);
    proof {
        lemma_cycles(1970 + k, era as int);
        lemma_year_len(1970 + k);
        lemma_year_days(1970 + k);
        assert(civil_count(1970 + k + 400 * era) == civil_count(1970 + k) + 146097 * era);
        assert(y as int == 1970 + k + 400 * era);
    }
    let mut doy: u64 = remu - ys;
    let mut m: u32 = 1;
    while m < 12 && doy >= month_len_exec(leap, m) as u64
        invariant
            1 <= m <= 12,
            is_leap(1970 + k) == leap,
            doy as int + days_before_month(1970 + k, m as int) == remu - ys,
            remu - ys < days_before_month(1970 + k, 13),
            days_before_month(1970 + k, 12) + 31 == days_before_month(1970 + k, 13),
        decreases 12 - m,
    {
        let ml = month_len_exec(leap, m) as u64;
        doy -= ml;
        m += 1;
    }
    proof {
        lemma_days_before_month_same_leap(y as int, 1970 + k, m as int);
        if m == 12 {
            assert(doy < 31);
        }
        assert(doy < month_len(1970 + k, m as int));
    }
    let t = tod as u64;
    let h = (t / 3600) as u32;
    let mi = ((t % 3600) / 60) as u32;
    let s = (t % 60) as u32;
    let r = (y, m, (doy + 1) as u32, h, mi, s);
    proof {
        let tt = (r.0 as int, r.1 as int, r.2 as int, r.3 as int, r.4 as int, r.5 as int);
        assert(t as int == h as int * 3600 + mi as int * 60 + s as int);
        assert(year_start(y as int) == year_start(1970 + k) + 146097 * era);
        assert(is_utc_parts(secs as int, tt));
        utc_parts_unique(secs as int, tt, utc_parts(secs as int));
    }
    r
}

} // verus!

verus! {

/// `{y:04}-{mo:02}-{d:02}T{h:02}:{mi:02}:{s:02}Z`
pub open spec fn iso_text(t: (int, int, int, int, int, int)) -> Seq<char> {
    padded_int(t.0, 4) + seq!['-'] + zero_pad(dec_digits(t.1 as nat), 2) + seq!['-'] + zero_pad(
        dec_digits(t.2 as nat),
        2,
    ) + seq!['T'] + zero_pad(dec_digits(t.3 as nat), 2) + seq![':'] + zero_pad(
        dec_digits(t.4 as nat),
        2,
    ) + seq![':'] + zero_pad(dec_digits(t.5 as nat), 2) + seq!['Z']
}

/// `{y:04}{mo:02}{d:02}-{h:02}{mi:02}{s:02}`
pub open spec fn stamp_text(t: (int, int, int, int, int, int)) -> Seq<char> {
    padded_int(t.0, 4) + zero_pad(dec_digits(t.1 as nat), 2) + zero_pad(dec_digits(t.2 as nat), 2)
        + seq!['-'] + zero_pad(dec_digits(t.3 as nat), 2) + zero_pad(dec_digits(t.4 as nat), 2)
        + zero_pad(dec_digits(t.5 as nat), 2)
}

/// RFC 3339 UTC timestamp of epoch seconds; `None` gives the empty string.
pub fn iso_rfc3339_utc(secs: Option<i64>) -> (r: String)
    ensures
        secs is None ==> r@ == Seq::<char>::empty(),
        secs matches Some(s) ==> r@ == iso_text(utc_parts(s as int)),
{
    match secs {
        None => String::new(),
        Some(s) => {
            let (y, mo, d, h, mi, se) = datetime_parts(s);
            let mut out = String::new();
            push_padded_i64(&mut out, y, 4);
            push_char(&mut out, '-');
            push_padded_u64(&mut out, mo as u64, 2);
            push_char(&mut out, '-');
            push_padded_u64(&mut out, d as u64, 2);
            push_char(&mut out, 'T');
            push_padded_u64(&mut out, h as u64, 2);
            push_char(&mut out, ':');
            push_padded_u64(&mut out, mi as u64, 2);
            push_char(&mut out, ':');
            push_padded_u64(&mut out, se as u64, 2);
            push_char(&mut out, 'Z');
            assert(out@ =~= iso_text(utc_parts(s as int)));
            out
        },
    }
}

/// File-name timestamp `yyyyMMdd-HHmmss` (UTC).
pub fn stamp_from_unix(secs: i64) -> (r: String)
    ensures
        r@ == stamp_text(utc_parts(secs as int)),
{
    let (y, mo, d, h, mi, se) = datetime_parts(secs);
    let mut out = String::new();
    push_padded_i64(&mut out, y, 4);
    push_padded_u64(&mut out, mo as u64, 2);
    push_padded_u64(&mut out, d as u64, 2);
    push_char(&mut out, '-');
    push_padded_u64(&mut out, h as u64, 2);
    push_padded_u64(&mut out, mi as u64, 2);
    push_padded_u64(&mut out, se as u64, 2);
    assert(out@ =~= stamp_text(utc_parts(secs as int)));
    out
}

// ── cells ───────────────────────────────────────────────────────────────────

/// Id cell: ids `<= 0` (local-import sentinel / zero) are written empty, never as a fake value.
pub fn id_cell(v: i64) -> (r: String)
    ensures
        v <= 0 ==> r@ == Seq::<char>::empty(),
        v > 0 ==> r@ == int_text(v as int),
{
    let mut out = String::new();
    if v > 0 {
        push_i64(&mut out, v);
    }
    out
}

/// ppy `BeatmapOnlineStatus` number of a status; unknown has none (0 would mean "none").
pub open spec fn status_code(s: BeatmapStatus) -> Option<int> {
    match s {
        BeatmapStatus::Graveyard => Some(-3),
        BeatmapStatus::Wip => Some(-2),
        BeatmapStatus::Pending => Some(-1),
        BeatmapStatus::Ranked => Some(1),
        BeatmapStatus::Approved => Some(2),
        BeatmapStatus::Qualified => Some(3),
        BeatmapStatus::Loved => Some(4),
        BeatmapStatus::Unknown => None,
    }
}

/// ranked_status cell: the status number, or empty for unknown.
pub fn ranked_status_code(s: BeatmapStatus) -> (r: String)
    ensures
        r@ == match status_code(s) {
            Some(v) => int_text(v),
            None => Seq::<char>::empty(),
        },
{
    let mut out = String::new();
    let v: i64 = match s {
        BeatmapStatus::Graveyard => -3,
        BeatmapStatus::Wip => -2,
        BeatmapStatus::Pending => -1,
        BeatmapStatus::Ranked => 1,
        BeatmapStatus::Approved => 2,
        BeatmapStatus::Qualified => 3,
        BeatmapStatus::Loved => 4,
        BeatmapStatus::Unknown => 0,
    };
    if v != 0 {
        push_i64(&mut out, v);
    }
    out
}

pub open spec fn spec_status_text(s: BeatmapStatus) -> Seq<char> {
    match s {
        BeatmapStatus::Graveyard => "graveyard"@,
        BeatmapStatus::Wip => "wip"@,
        BeatmapStatus::Pending => "pending"@,
        BeatmapStatus::Ranked => "ranked"@,
        BeatmapStatus::Approved => "approved"@,
        BeatmapStatus::Qualified => "qualified"@,
        BeatmapStatus::Loved => "loved"@,
        BeatmapStatus::Unknown => "unknown"@,
    }
}

/// beatmapset_status cell text.
pub fn status_text(s: BeatmapStatus) -> (r: &'static str)
    ensures
        r@ == spec_status_text(s),
{
    match s {
        BeatmapStatus::Graveyard => "graveyard",
        BeatmapStatus::Wip => "wip",
        BeatmapStatus::Pending => "pending",
        BeatmapStatus::Ranked => "ranked",
        BeatmapStatus::Approved => "approved",
        BeatmapStatus::Qualified => "qualified",
        BeatmapStatus::Loved => "loved",
        BeatmapStatus::Unknown => "unknown",
    }
}

pub open spec fn spec_mode_text(m: GameMode) -> Seq<char> {
    match m {
        GameMode::Osu => "osu"@,
        GameMode::Taiko => "taiko"@,
        GameMode::Catch => "catch"@,
        GameMode::Mania => "mania"@,
    }
}

/// mode cell text.
pub fn mode_text(m: GameMode) -> (r: &'static str)
    ensures
        r@ == spec_mode_text(m),
{
    match m {
        GameMode::Osu => "osu",
        GameMode::Taiko => "taiko",
        GameMode::Catch => "catch",
        GameMode::Mania => "mania",
    }
}

pub open spec fn spec_source_text(s: SourceKind) -> Seq<char> {
    match s {
        SourceKind::Lazer => "lazer"@,
        SourceKind::Stable => "stable"@,
        SourceKind::OszFolder => "oszfolder"@,
    }
}

/// library_source cell text.
pub fn source_text(s: SourceKind) -> (r: &'static str)
    ensures
        r@ == spec_source_text(s),
{
    match s {
        SourceKind::Lazer => "lazer",
        SourceKind::Stable => "stable",
        SourceKind::OszFolder => "oszfolder",
    }
}

} // verus!

verus! {

use crate::text::{string_views, push_str, push_dec, lex_order, compare_chars, chars_of};

/// The 33 column names, in order.
pub open spec fn header_spec() -> Seq<Seq<char>> {
    seq![
        "seekman_export_version"@, "exported_at"@, "beatmapset_id"@, "beatmap_id"@, "artist"@,
        "artist_unicode"@, "title"@, "title_unicode"@, "creator"@, "version"@, "mode"@, "md5"@,
        "ranked_status"@, "stars"@, "ar"@, "cs"@, "hp"@, "od"@, "bpm"@, "total_time"@,
        "object_count"@, "source"@, "tags"@, "beatmap_creator"@, "beatmapset_status"@,
        "favourite_count"@, "play_count"@, "rating"@, "genre"@, "language"@, "online_synced_at"@,
        "date_added"@, "library_source"@
    ]
}

fn push_name(v: &mut Vec<String>, s: &str)
    ensures
        string_views(final(v)@) == string_views(old(v)@).push(s@),
{
    let mut x = String::new();
    push_str(&mut x, s);
    v.push(x);
    assert(string_views(v@) =~= string_views(old(v)@).push(s@));
}

/// The header row of the export.
pub fn csv_header() -> (r: Vec<String>)
    ensures
        string_views(r@) == header_spec(),
{
    let mut h: Vec<String> = Vec::new();
    assert(string_views(h@) =~= Seq::<Seq<char>>::empty());
    push_name(&mut h, "seekman_export_version");
    push_name(&mut h, "exported_at");
    push_name(&mut h, "beatmapset_id");
    push_name(&mut h, "beatmap_id");
    push_name(&mut h, "artist");
    push_name(&mut h, "artist_unicode");
    push_name(&mut h, "title");
    push_name(&mut h, "title_unicode");
    push_name(&mut h, "creator");
    push_name(&mut h, "version");
    push_name(&mut h, "mode");
    push_name(&mut h, "md5");
    push_name(&mut h, "ranked_status");
    push_name(&mut h, "stars");
    push_name(&mut h, "ar");
    push_name(&mut h, "cs");
    push_name(&mut h, "hp");
    push_name(&mut h, "od");
    push_name(&mut h, "bpm");
    push_name(&mut h, "total_time");
    push_name(&mut h, "object_count");
    push_name(&mut h, "source");
    push_name(&mut h, "tags");
    push_name(&mut h, "beatmap_creator");
    push_name(&mut h, "beatmapset_status");
    push_name(&mut h, "favourite_count");
    push_name(&mut h, "play_count");
    push_name(&mut h, "rating");
    push_name(&mut h, "genre");
    push_name(&mut h, "language");
    push_name(&mut h, "online_synced_at");
    push_name(&mut h, "date_added");
    push_name(&mut h, "library_source");
    assert(string_views(h@) =~= header_spec());
    h
}

/// A difficulty as the export writes it. The floating-point cells come formatted: `stars`
/// with four decimals when rated (positive and finite) and empty otherwise; `ar`, `cs`, `hp`
/// and `od` with two; `bpm` with three. `stars_bits` are the raw bits of the star rating (0.0
/// when unrated), which order the rows.
#[derive(Debug)]
pub struct CsvDiff {
    pub beatmap_id: i64,
    pub version: String,
    pub mode: GameMode,
    pub md5: Option<String>,
    pub stars: String,
    pub stars_bits: u64,
    pub ar: String,
    pub cs: String,
    pub hp: String,
    pub od: String,
    pub bpm: String,
    pub total_ms: i64,
    pub object_count: u32,
    pub creator: String,
}

/// A set as the export writes it.
#[derive(Debug)]
pub struct CsvSet {
    pub beatmapset_id: i64,
    pub artist: String,
    pub artist_unicode: String,
    pub title: String,
    pub title_unicode: String,
    pub creator: String,
    pub source: String,
    pub tags: String,
    pub status: BeatmapStatus,
    pub date_added: Option<i64>,
    pub source_kind: SourceKind,
    pub difficulties: Vec<CsvDiff>,
}

/// Cached online data of a set; `rating` comes formatted with two decimals (empty when not
/// finite or absent).
#[derive(Debug)]
pub struct CsvOnline {
    pub set_id: i64,
    pub favourite_count: u64,
    pub play_count: u64,
    pub rating: String,
    pub genre: Option<String>,
    pub language: Option<String>,
    pub fetched_at: i64,
}

/// One row: its order keys and its 33 cells.
#[derive(Debug)]
pub struct CsvRow {
    pub sort_set: i64,
    pub star_key: i64,
    pub cells: Vec<String>,
}

pub open spec fn id_text(v: i64) -> Seq<char> {
    if v <= 0 { Seq::empty() } else { int_text(v as int) }
}

pub open spec fn opt_text(o: Option<String>) -> Seq<char> {
    match o {
        Some(s) => s@,
        None => Seq::empty(),
    }
}

pub open spec fn iso_opt(o: Option<i64>) -> Seq<char> {
    match o {
        Some(s) => iso_text(utc_parts(s as int)),
        None => Seq::empty(),
    }
}

/// The 33 cells of a difficulty's row; `ts` is the export time's text.
pub open spec fn cells_spec(s: CsvSet, d: CsvDiff, o: Option<CsvOnline>, ts: Seq<char>) -> Seq<Seq<char>> {
    seq![
        "2"@, ts, id_text(s.beatmapset_id), id_text(d.beatmap_id), s.artist@, s.artist_unicode@,
        s.title@, s.title_unicode@, s.creator@, d.version@, spec_mode_text(d.mode), opt_text(d.md5),
        (match status_code(s.status) { Some(v) => int_text(v), None => Seq::empty() }),
        d.stars@, d.ar@, d.cs@, d.hp@, d.od@, d.bpm@, int_text(d.total_ms as int / 1000),
        int_text(d.object_count as int), s.source@, s.tags@, d.creator@, spec_status_text(s.status),
        (match o { Some(m) => int_text(m.favourite_count as int), None => Seq::empty() }),
        (match o { Some(m) => int_text(m.play_count as int), None => Seq::empty() }),
        (match o { Some(m) => m.rating@, None => Seq::empty() }),
        (match o { Some(m) => opt_text(m.genre), None => Seq::empty() }),
        (match o { Some(m) => opt_text(m.language), None => Seq::empty() }),
        (match o { Some(m) => iso_text(utc_parts(m.fetched_at as int)), None => Seq::empty() }),
        iso_opt(s.date_added), spec_source_text(s.source_kind)
    ]
}

/// Order key of an `f64` by its bits, ordering as `f64::total_cmp` does: the sign bit set
/// flips the other bits.
pub open spec fn total_key(bits: u64) -> i64 {
    if bits >= 0x8000_0000_0000_0000 { (bits ^ 0x7FFF_FFFF_FFFF_FFFFu64) as i64 } else { bits as i64 }
}

/// Rows sort by set id (sets without one last), then by stars descending.
pub open spec fn set_key(id: i64) -> i64 {
    if id > 0 { id } else { i64::MAX }
}

} // verus!

verus! {

/// The online entry of a set: the first with its id, none for sets without an id.
pub open spec fn online_of(online: Seq<CsvOnline>, id: i64) -> Option<CsvOnline> {
    if id <= 0 { None } else { first_online(online, id, online.len() as int) }
}

pub open spec fn first_online(online: Seq<CsvOnline>, id: i64, n: int) -> Option<CsvOnline>
    decreases n,
{
    if n <= 0 {
        None
    } else {
        match first_online(online, id, n - 1) {
            Some(m) => Some(m),
            None => if online[n - 1].set_id == id { Some(online[n - 1]) } else { None },
        }
    }
}

pub open spec fn row_view(r: CsvRow) -> (i64, i64, Seq<Seq<char>>) {
    (r.sort_set, r.star_key, string_views(r.cells@))
}

pub open spec fn rows_view(v: Seq<CsvRow>) -> Seq<(i64, i64, Seq<Seq<char>>)> {
    v.map_values(|r: CsvRow| row_view(r))
}

/// The rows of one set, one per difficulty in order.
pub open spec fn set_rows(s: CsvSet, online: Seq<CsvOnline>, ts: Seq<char>) -> Seq<(i64, i64, Seq<Seq<char>>)> {
    s.difficulties@.map_values(|d: CsvDiff| (set_key(s.beatmapset_id), total_key(d.stars_bits), cells_spec(s, d, online_of(online, s.beatmapset_id), ts)))
}

/// The rows of all sets, set after set.
pub open spec fn flat_rows(sets: Seq<CsvSet>, online: Seq<CsvOnline>, ts: Seq<char>) -> Seq<(i64, i64, Seq<Seq<char>>)>
    decreases sets.len(),
{
    if sets.len() == 0 {
        Seq::empty()
    } else {
        flat_rows(sets.drop_last(), online, ts) + set_rows(sets.last(), online, ts)
    }
}

/// Row `a` goes before row `b`: smaller set key, then more stars, then smaller version.
pub open spec fn row_before(a: (i64, i64, Seq<Seq<char>>), b: (i64, i64, Seq<Seq<char>>)) -> bool {
    a.0 < b.0 || (a.0 == b.0 && (a.1 > b.1 || (a.1 == b.1 && lex_order(a.2[9], b.2[9]) < 0)))
}

/// `x` inserted before the first row it goes before (so equal rows keep their order).
pub open spec fn ins_row(v: Seq<(i64, i64, Seq<Seq<char>>)>, x: (i64, i64, Seq<Seq<char>>)) -> Seq<(i64, i64, Seq<Seq<char>>)>
    decreases v.len(),
{
    if v.len() == 0 {
        seq![x]
    } else if row_before(x, v[0]) {
        seq![x] + v
    } else {
        seq![v[0]] + ins_row(v.drop_first(), x)
    }
}

/// The rows in export order: a stable sort by `row_before`.
pub open spec fn sort_rows(v: Seq<(i64, i64, Seq<Seq<char>>)>) -> Seq<(i64, i64, Seq<Seq<char>>)>
    decreases v.len(),
{
    if v.len() == 0 { Seq::empty() } else { ins_row(sort_rows(v.drop_last()), v.last()) }
}

fn find_online(online: &Vec<CsvOnline>, id: i64) -> (r: Option<usize>)
    ensures
        match online_of(online@, id) {
            Some(m) => r matches Some(i) && i < online@.len() && online@[i as int] == m,
            None => r is None,
        },
{
    if id <= 0 {
        return None;
    }
    let mut i: usize = 0;
    while i < online.len()
        invariant
            i <= online@.len(),
            id > 0,
            first_online(online@, id, i as int) is None,
        decreases online@.len() - i,
    {
        if online[i].set_id == id {
            proof {
                lemma_first_online_stays(online@, id, i + 1, online@.len() as int);
            }
            return Some(i);
        }
        i += 1;
    }
    None
}

proof fn lemma_first_online_stays(online: Seq<CsvOnline>, id: i64, m: int, n: int)
    requires
        first_online(online, id, m) is Some,
        m <= n,
    ensures
        first_online(online, id, n) == first_online(online, id, m),
    decreases n - m,
{
    if n > m {
        lemma_first_online_stays(online, id, m, n - 1);
    }
}

fn push_text(v: &mut Vec<String>, s: String)
    ensures
        string_views(final(v)@) == string_views(old(v)@).push(s@),
{
    v.push(s);
    assert(string_views(v@) =~= string_views(old(v)@).push(s@));
}

fn copy_string(s: &String) -> (r: String)
    ensures
        r@ == s@,
{
    s.clone()
}

fn opt_string(o: &Option<String>) -> (r: String)
    ensures
        r@ == opt_text(*o),
{
    match o {
        Some(s) => s.clone(),
        None => String::new(),
    }
}

fn u64_text(v: u64) -> (r: String)
    ensures
        r@ == int_text(v as int),
{
    let mut s = String::new();
    push_dec(&mut s, v);
    s
}

/// Whole seconds of a duration in milliseconds, rounded down.
fn secs_floor(ms: i64) -> (r: i64)
    ensures
        r as int == ms as int / 1000,
{
    if ms >= 0 {
        ms / 1000
    } else {
        let a: u64 = (-(ms as i128)) as u64;
        let q: u64 = (a + 999) / 1000;
        assert(-(q as int) == ms as int / 1000) by (nonlinear_arith)
            requires
                a as int == -(ms as int),
                q as int == (a as int + 999) / 1000,
                ms < 0,
        ;
        -(q as i64)
    }
}

} // verus!

verus! {

fn row_cells(s: &CsvSet, d: &CsvDiff, o: Option<&CsvOnline>, ts: &String) -> (r: Vec<String>)
    ensures
        string_views(r@) == cells_spec(*s, *d, match o { Some(m) => Some(*m), None => None }, ts@),
{
    let mut c: Vec<String> = Vec::new();
    let mut two = String::new();
    push_str(&mut two, "2");
    push_text(&mut c, two);
    push_text(&mut c, copy_string(ts));
    push_text(&mut c, id_cell(s.beatmapset_id));
    push_text(&mut c, id_cell(d.beatmap_id));
    push_text(&mut c, copy_string(&s.artist));
    push_text(&mut c, copy_string(&s.artist_unicode));
    push_text(&mut c, copy_string(&s.title));
    push_text(&mut c, copy_string(&s.title_unicode));
    push_text(&mut c, copy_string(&s.creator));
    push_text(&mut c, copy_string(&d.version));
    let mut m = String::new();
    push_str(&mut m, mode_text(d.mode));
    push_text(&mut c, m);
    push_text(&mut c, opt_string(&d.md5));
    push_text(&mut c, ranked_status_code(s.status));
    push_text(&mut c, copy_string(&d.stars));
    push_text(&mut c, copy_string(&d.ar));
    push_text(&mut c, copy_string(&d.cs));
    push_text(&mut c, copy_string(&d.hp));
    push_text(&mut c, copy_string(&d.od));
    push_text(&mut c, copy_string(&d.bpm));
    let mut tt = String::new();
    push_i64(&mut tt, secs_floor(d.total_ms));
    push_text(&mut c, tt);
    push_text(&mut c, u64_text(d.object_count as u64));
    push_text(&mut c, copy_string(&s.source));
    push_text(&mut c, copy_string(&s.tags));
    push_text(&mut c, copy_string(&d.creator));
    let mut st = String::new();
    push_str(&mut st, status_text(s.status));
    push_text(&mut c, st);
    match o {
        Some(m) => {
            push_text(&mut c, u64_text(m.favourite_count));
            push_text(&mut c, u64_text(m.play_count));
            push_text(&mut c, copy_string(&m.rating));
            push_text(&mut c, opt_string(&m.genre));
            push_text(&mut c, opt_string(&m.language));
            push_text(&mut c, iso_rfc3339_utc(Some(m.fetched_at)));
        },
        None => {
            push_text(&mut c, String::new());
            push_text(&mut c, String::new());
            push_text(&mut c, String::new());
            push_text(&mut c, String::new());
            push_text(&mut c, String::new());
            push_text(&mut c, String::new());
        },
    }
    push_text(&mut c, iso_rfc3339_utc(s.date_added));
    let mut sr = String::new();
    push_str(&mut sr, source_text(s.source_kind));
    push_text(&mut c, sr);
    proof {
        reveal_strlit("2");
    }
    assert(string_views(c@) =~= cells_spec(*s, *d, match o { Some(m) => Some(*m), None => None }, ts@));
    c
}

} // verus!

verus! {

fn star_key(bits: u64) -> (k: i64)
    ensures
        k == total_key(bits),
{
    if bits >= 0x8000_0000_0000_0000u64 { (bits ^ 0x7FFF_FFFF_FFFF_FFFFu64) as i64 } else { bits as i64 }
}

fn before(a: &CsvRow, b: &CsvRow) -> (r: bool)
    requires
        a.cells@.len() > 9,
        b.cells@.len() > 9,
    ensures
        r == row_before(row_view(*a), row_view(*b)),
{
    if a.sort_set != b.sort_set {
        return a.sort_set < b.sort_set;
    }
    if a.star_key != b.star_key {
        return a.star_key > b.star_key;
    }
    let x = chars_of(a.cells[9].as_str());
    let y = chars_of(b.cells[9].as_str());
    assert(string_views(a.cells@)[9] == a.cells@[9]@);
    assert(string_views(b.cells@)[9] == b.cells@[9]@);
    compare_chars(x.as_slice(), y.as_slice()) < 0
}

proof fn lemma_ins_row_at(v: Seq<(i64, i64, Seq<Seq<char>>)>, x: (i64, i64, Seq<Seq<char>>), p: int)
    requires
        0 <= p <= v.len(),
        forall|j: int| 0 <= j < p ==> !row_before(x, #[trigger] v[j]),
        p == v.len() || row_before(x, v[p]),
    ensures
        ins_row(v, x) == v.take(p) + seq![x] + v.skip(p),
    decreases p,
{
    if p > 0 {
        lemma_ins_row_at(v.drop_first(), x, p - 1);
        assert(v.drop_first().take(p - 1) =~= v.take(p).drop_first());
        assert(v.drop_first().skip(p - 1) =~= v.skip(p));
        assert(v.take(p) =~= seq![v[0]] + v.take(p).drop_first());
        assert((seq![v[0]] + (v.drop_first().take(p - 1) + seq![x] + v.drop_first().skip(p - 1)))
            =~= v.take(p) + seq![x] + v.skip(p));
    } else {
        assert(v.take(0) + seq![x] + v.skip(0) =~= seq![x] + v);
    }
}

/// Inserts a row into rows already in export order, after every row it does not go before.
fn insert_row(sorted: &mut Vec<CsvRow>, x: CsvRow)
    requires
        x.cells@.len() == 33,
        forall|j: int| 0 <= j < old(sorted)@.len() ==> (#[trigger] old(sorted)@[j]).cells@.len() == 33,
    ensures
        rows_view(final(sorted)@) == ins_row(rows_view(old(sorted)@), row_view(x)),
        forall|j: int| 0 <= j < final(sorted)@.len() ==> (#[trigger] final(sorted)@[j]).cells@.len() == 33,
{
    let ghost v = rows_view(sorted@);
    let mut p: usize = 0;
    while p < sorted.len() && !before(&x, &sorted[p])
        invariant
            p <= sorted@.len(),
            v == rows_view(sorted@),
            x.cells@.len() == 33,
            forall|j: int| 0 <= j < sorted@.len() ==> (#[trigger] sorted@[j]).cells@.len() == 33,
            forall|j: int| 0 <= j < p ==> !row_before(row_view(x), #[trigger] v[j]),
        decreases sorted@.len() - p,
    {
        p += 1;
    }
    proof {
        lemma_ins_row_at(v, row_view(x), p as int);
    }
    let ghost before_v = sorted@;
    sorted.insert(p, x);
    assert(rows_view(sorted@) =~= v.take(p as int) + seq![row_view(x)] + v.skip(p as int));
    assert forall|j: int| 0 <= j < sorted@.len() implies (#[trigger] sorted@[j]).cells@.len() == 33 by {
        if j < p {
            assert(sorted@[j] == before_v[j]);
        } else if j > p {
            assert(sorted@[j] == before_v[j - 1]);
        }
    }
}

/// The export rows: one per difficulty, set after set, each with its 33 cells
/// (`cells_spec`, the set's online entry looked up by id), in export order (`sort_rows`).
/// `exported_at` is the export time in epoch seconds.
pub fn build_rows(sets: &Vec<CsvSet>, online: &Vec<CsvOnline>, exported_at: i64) -> (r: Vec<CsvRow>)
    ensures
        rows_view(r@) == sort_rows(flat_rows(sets@, online@, iso_text(utc_parts(exported_at as int)))),
{
    let ts = iso_rfc3339_utc(Some(exported_at));
    let ghost tsv = ts@;
    let mut sorted: Vec<CsvRow> = Vec::new();
    let mut i: usize = 0;
    assert(rows_view(sorted@) =~= sort_rows(flat_rows(sets@.take(0), online@, tsv)));
    while i < sets.len()
        invariant
            i <= sets@.len(),
            tsv == ts@,
            tsv == iso_text(utc_parts(exported_at as int)),
            rows_view(sorted@) == sort_rows(flat_rows(sets@.take(i as int), online@, tsv)),
            forall|j: int| 0 <= j < sorted@.len() ==> (#[trigger] sorted@[j]).cells@.len() == 33,
        decreases sets@.len() - i,
    {
        let s = &sets[i];
        let o = match find_online(online, s.beatmapset_id) {
            Some(k) => Some(&online[k]),
            None => None,
        };
        let sk: i64 = if s.beatmapset_id > 0 { s.beatmapset_id } else { i64::MAX };
        let ghost base = flat_rows(sets@.take(i as int), online@, tsv);
        let ghost srows = set_rows(*s, online@, tsv);
        let mut j: usize = 0;
        while j < s.difficulties.len()
            invariant
                j <= s.difficulties@.len(),
                s == &sets@[i as int],
                i < sets@.len(),
                srows == set_rows(*s, online@, tsv),
                srows.len() == s.difficulties@.len(),
                tsv == ts@,
                sk == set_key(s.beatmapset_id),
                (match o { Some(m) => Some(*m), None => None }) == online_of(online@, s.beatmapset_id),
                rows_view(sorted@) == sort_rows(base + srows.take(j as int)),
                forall|q: int| 0 <= q < sorted@.len() ==> (#[trigger] sorted@[q]).cells@.len() == 33,
            decreases s.difficulties@.len() - j,
        {
            let d = &s.difficulties[j];
            let cells = row_cells(s, d, o, &ts);
            let row = CsvRow { sort_set: sk, star_key: star_key(d.stars_bits), cells };
            assert(row_view(row) == srows[j as int]);
            assert(string_views(row.cells@).len() == 33);
            assert(row.cells@.len() == 33);
            assert((base + srows.take(j + 1)).drop_last() =~= base + srows.take(j as int));
            assert((base + srows.take(j + 1)).last() == srows[j as int]);
            insert_row(&mut sorted, row);
            j += 1;
        }
        assert(srows.take(s.difficulties@.len() as int) =~= srows);
        assert(sets@.take(i + 1).drop_last() =~= sets@.take(i as int));
        assert(sets@.take(i + 1).last() == sets@[i as int]);
        i += 1;
    }
    assert(sets@.take(sets@.len() as int) =~= sets@);
    sorted
}

/// Export file name `osu-library-export-{yyyyMMdd-HHmmss}.csv` for epoch seconds `now`.
pub fn csv_file_name(now: i64) -> (r: String)
    ensures
        r@ == "osu-library-export-"@ + stamp_text(utc_parts(now as int)) + ".csv"@,
{
    let mut s = String::new();
    push_str(&mut s, "osu-library-export-");
    let st = stamp_from_unix(now);
    push_str(&mut s, st.as_str());
    push_str(&mut s, ".csv");
    s
}

} // verus!

verus! {

use crate::text::{lemma_lex_props, lemma_lex_trans};

pub open spec fn rows_ordered(v: Seq<(i64, i64, Seq<Seq<char>>)>) -> bool {
    forall|i: int, j: int| 0 <= i < j < v.len() ==> !row_before(#[trigger] v[j], #[trigger] v[i])
}

proof fn lemma_before_trans(a: (i64, i64, Seq<Seq<char>>), b: (i64, i64, Seq<Seq<char>>), c: (i64, i64, Seq<Seq<char>>))
    requires
        row_before(a, b),
        row_before(b, c),
    ensures
        row_before(a, c),
{
    if a.0 == b.0 && b.0 == c.0 && a.1 == b.1 && b.1 == c.1 {
        lemma_lex_trans(a.2[9], b.2[9], c.2[9]);
    }
}

proof fn lemma_before_irrefl(a: (i64, i64, Seq<Seq<char>>))
    ensures
        !row_before(a, a),
{
    lemma_lex_props(a.2[9], a.2[9]);
}

proof fn lemma_ins_row_members(v: Seq<(i64, i64, Seq<Seq<char>>)>, x: (i64, i64, Seq<Seq<char>>))
    ensures
        ins_row(v, x).len() == v.len() + 1,
        forall|k: int| 0 <= k < ins_row(v, x).len() ==> #[trigger] ins_row(v, x)[k] == x || v.contains(ins_row(v, x)[k]),
    decreases v.len(),
{
    if v.len() > 0 && !row_before(x, v[0]) {
        lemma_ins_row_members(v.drop_first(), x);
        let r = ins_row(v.drop_first(), x);
        assert forall|k: int| 0 <= k < ins_row(v, x).len() implies #[trigger] ins_row(v, x)[k] == x || v.contains(ins_row(v, x)[k]) by {
            if k == 0 {
                assert(v.contains(v[0]));
            } else {
                assert(ins_row(v, x)[k] == r[k - 1]);
                if r[k - 1] != x {
                    let y = r[k - 1];
                    assert(v.drop_first().contains(y));
                    let m = choose|m: int| 0 <= m < v.drop_first().len() && v.drop_first()[m] == y;
                    assert(v[m + 1] == y);
                }
            }
        }
    } else if v.len() > 0 {
        assert forall|k: int| 0 <= k < ins_row(v, x).len() implies #[trigger] ins_row(v, x)[k] == x || v.contains(ins_row(v, x)[k]) by {
            if k > 0 {
                assert(ins_row(v, x)[k] == v[k - 1]);
            }
        }
    }
}

proof fn lemma_ins_row_ordered(v: Seq<(i64, i64, Seq<Seq<char>>)>, x: (i64, i64, Seq<Seq<char>>))
    requires
        rows_ordered(v),
    ensures
        rows_ordered(ins_row(v, x)),
    decreases v.len(),
{
    lemma_ins_row_members(v, x);
    if v.len() == 0 {
    } else if row_before(x, v[0]) {
        let r = ins_row(v, x);
        assert forall|i: int, j: int| 0 <= i < j < r.len() implies !row_before(#[trigger] r[j], #[trigger] r[i]) by {
            if i == 0 {
                assert(r[j] == v[j - 1]);
                if row_before(v[j - 1], x) {
                    lemma_before_trans(v[j - 1], x, v[0]);
                    if j - 1 == 0 {
                        lemma_before_irrefl(v[0]);
                    }
                }
            } else {
                assert(r[i] == v[i - 1] && r[j] == v[j - 1]);
            }
        }
    } else {
        let rest = v.drop_first();
        assert(rows_ordered(rest)) by {
            assert forall|i: int, j: int| 0 <= i < j < rest.len() implies !row_before(#[trigger] rest[j], #[trigger] rest[i]) by {
                assert(rest[i] == v[i + 1] && rest[j] == v[j + 1]);
            }
        }
        lemma_ins_row_ordered(rest, x);
        lemma_ins_row_members(rest, x);
        let t = ins_row(rest, x);
        let r = ins_row(v, x);
        assert forall|i: int, j: int| 0 <= i < j < r.len() implies !row_before(#[trigger] r[j], #[trigger] r[i]) by {
            if i == 0 {
                assert(r[j] == t[j - 1]);
                if t[j - 1] != x {
                    assert(rest.contains(t[j - 1]));
                    let m = choose|m: int| 0 <= m < rest.len() && rest[m] == t[j - 1];
                    assert(v[m + 1] == t[j - 1]);
                }
            } else {
                assert(r[i] == t[i - 1] && r[j] == t[j - 1]);
            }
        }
    }
}

proof fn lemma_sort_rows(v: Seq<(i64, i64, Seq<Seq<char>>)>)
    ensures
        rows_ordered(sort_rows(v)),
        sort_rows(v).len() == v.len(),
    decreases v.len(),
{
    if v.len() > 0 {
        lemma_sort_rows(v.drop_last());
        lemma_ins_row_ordered(sort_rows(v.drop_last()), v.last());
        lemma_ins_row_members(sort_rows(v.drop_last()), v.last());
    }
}

/// Number of difficulties over all sets.
pub open spec fn total_difficulties(sets: Seq<CsvSet>) -> nat
    decreases sets.len(),
{
    if sets.len() == 0 { 0 } else { total_difficulties(sets.drop_last()) + sets.last().difficulties@.len() }
}

proof fn lemma_flat_rows_len(sets: Seq<CsvSet>, online: Seq<CsvOnline>, ts: Seq<char>)
    ensures
        flat_rows(sets, online, ts).len() == total_difficulties(sets),
    decreases sets.len(),
{
    if sets.len() > 0 {
        lemma_flat_rows_len(sets.drop_last(), online, ts);
    }
}

/// The export writes one row per difficulty, in order: set id ascending (sets without an id
/// last), then stars descending, then version ascending.
pub proof fn export_rows_one_per_difficulty_in_order(sets: Seq<CsvSet>, online: Seq<CsvOnline>, ts: Seq<char>)
    ensures
        sort_rows(flat_rows(sets, online, ts)).len() == total_difficulties(sets),
        rows_ordered(sort_rows(flat_rows(sets, online, ts))),
{
    lemma_flat_rows_len(sets, online, ts);
    lemma_sort_rows(flat_rows(sets, online, ts));
}

} // verus!

verus! {

/// Each cell of a row holds the field its header column names: `beatmapset_id` and
/// `beatmap_id` the ids, `artist` and `artist_unicode` the set's two artist names, `title` and
/// `title_unicode` its two titles, `creator` the set's creator, `version` the difficulty name,
/// `md5` its hash, the star and difficulty values their cells, `source` and `tags` the set's,
/// `beatmap_creator` the difficulty's creator; a row has one cell per header column.
pub proof fn row_cells_follow_header(s: CsvSet, d: CsvDiff, o: Option<CsvOnline>, ts: Seq<char>)
    ensures
        cells_spec(s, d, o, ts).len() == header_spec().len(),
        header_spec()[0] == "seekman_export_version"@ && cells_spec(s, d, o, ts)[0] == "2"@,
        header_spec()[1] == "exported_at"@ && cells_spec(s, d, o, ts)[1] == ts,
        header_spec()[2] == "beatmapset_id"@ && cells_spec(s, d, o, ts)[2] == id_text(s.beatmapset_id),
        header_spec()[3] == "beatmap_id"@ && cells_spec(s, d, o, ts)[3] == id_text(d.beatmap_id),
        header_spec()[4] == "artist"@ && cells_spec(s, d, o, ts)[4] == s.artist@,
        header_spec()[5] == "artist_unicode"@ && cells_spec(s, d, o, ts)[5] == s.artist_unicode@,
        header_spec()[6] == "title"@ && cells_spec(s, d, o, ts)[6] == s.title@,
        header_spec()[7] == "title_unicode"@ && cells_spec(s, d, o, ts)[7] == s.title_unicode@,
        header_spec()[8] == "creator"@ && cells_spec(s, d, o, ts)[8] == s.creator@,
        header_spec()[9] == "version"@ && cells_spec(s, d, o, ts)[9] == d.version@,
        header_spec()[11] == "md5"@ && cells_spec(s, d, o, ts)[11] == opt_text(d.md5),
        header_spec()[13] == "stars"@ && cells_spec(s, d, o, ts)[13] == d.stars@,
        header_spec()[14] == "ar"@ && cells_spec(s, d, o, ts)[14] == d.ar@,
        header_spec()[15] == "cs"@ && cells_spec(s, d, o, ts)[15] == d.cs@,
        header_spec()[16] == "hp"@ && cells_spec(s, d, o, ts)[16] == d.hp@,
        header_spec()[17] == "od"@ && cells_spec(s, d, o, ts)[17] == d.od@,
        header_spec()[18] == "bpm"@ && cells_spec(s, d, o, ts)[18] == d.bpm@,
        header_spec()[19] == "total_time"@ && cells_spec(s, d, o, ts)[19] == int_text(d.total_ms as int / 1000),
        header_spec()[20] == "object_count"@ && cells_spec(s, d, o, ts)[20] == int_text(d.object_count as int),
        header_spec()[21] == "source"@ && cells_spec(s, d, o, ts)[21] == s.source@,
        header_spec()[22] == "tags"@ && cells_spec(s, d, o, ts)[22] == s.tags@,
        header_spec()[23] == "beatmap_creator"@ && cells_spec(s, d, o, ts)[23] == d.creator@,
        header_spec()[10] == "mode"@ && cells_spec(s, d, o, ts)[10] == spec_mode_text(d.mode),
        header_spec()[24] == "beatmapset_status"@ && cells_spec(s, d, o, ts)[24] == spec_status_text(s.status),
        header_spec()[25] == "favourite_count"@ && cells_spec(s, d, o, ts)[25] == (match o { Some(m) => int_text(m.favourite_count as int), None => Seq::empty() }),
        header_spec()[26] == "play_count"@ && cells_spec(s, d, o, ts)[26] == (match o { Some(m) => int_text(m.play_count as int), None => Seq::empty() }),
        header_spec()[27] == "rating"@ && cells_spec(s, d, o, ts)[27] == (match o { Some(m) => m.rating@, None => Seq::empty() }),
        header_spec()[28] == "genre"@ && cells_spec(s, d, o, ts)[28] == (match o { Some(m) => opt_text(m.genre), None => Seq::empty() }),
        header_spec()[29] == "language"@ && cells_spec(s, d, o, ts)[29] == (match o { Some(m) => opt_text(m.language), None => Seq::empty() }),
        header_spec()[31] == "date_added"@ && cells_spec(s, d, o, ts)[31] == iso_opt(s.date_added),
        header_spec()[32] == "library_source"@ && cells_spec(s, d, o, ts)[32] == spec_source_text(s.source_kind),
{
}

} // verus!
