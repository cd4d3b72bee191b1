//! Mirror-chain `.osz` downloads: URLs per mirror, response checks, lane cool-downs, the
//! cancellation flag and the names and messages a finished download gets.
use vstd::prelude::*;
use crate::text::string_views;
use crate::text::{chars_of, str_eq, push_char, push_dec, push_str, push_range, string_of_range, trim, trim_range, find_sub, first_index, last_index, has_prefix, eq_ignore_case_range, eq_ignore_ascii_case, first_index_of, last_index_of, contains_seq, first_occurrence, dec_digits, parse_u64_range, parse_u64_spec, dedup_seq};

verus! {

broadcast use vstd::string::group_string_axioms;

/// User agent hinai requires.
pub const HINAI_UA: &'static str = "osu-song-manager/0.1 (desktop beatmap manager)";
/// Most set ids one download call accepts.
pub const MAX_IDS_PER_CALL: usize = 200;
/// Shortest lane cool-down, in seconds.
pub const LANE_PAUSE_FLOOR_SECS: u64 = 60;

/// A download mirror: its id (the lane key) and the label shown to the user.
#[derive(Debug, Clone, Copy, PartialEq, Eq)]
pub struct Mirror {
    pub id: &'static str,
    pub label: &'static str,
}

/// The mirrors in the order they are tried.
pub open spec fn chain_spec() -> Seq<(Seq<char>, Seq<char>)> {
    seq![("hinai"@, "hinai"@), ("osudirect"@, "osu.direct"@), ("nerinyan"@, "nerinyan"@), ("sayobot"@, "sayobot"@)]
}

/// The mirrors in the order they are tried: hinai, osu.direct, nerinyan, sayobot.
pub fn chain() -> (r: Vec<Mirror>)
    ensures
        r@.len() == 4,
        forall|i: int| 0 <= i < 4 ==> (#[trigger] r@[i]).id@ == chain_spec()[i].0 && r@[i].label@ == chain_spec()[i].1,
{
    proof {
        reveal_strlit("hinai");
        reveal_strlit("osudirect");
        reveal_strlit("osu.direct");
        reveal_strlit("nerinyan");
        reveal_strlit("sayobot");
    }
    let mut v: Vec<Mirror> = Vec::new();
    v.push(Mirror { id: "hinai", label: "hinai" });
    v.push(Mirror { id: "osudirect", label: "osu.direct" });
    v.push(Mirror { id: "nerinyan", label: "nerinyan" });
    v.push(Mirror { id: "sayobot", label: "sayobot" });
    v
}

/// Download URL of set `id` on mirror `mid`; sayobot marks "no video" with a path segment,
/// the others with `?noVideo=1`.
pub open spec fn url_spec(mid: Seq<char>, id: u64, no_video: bool) -> Seq<char> {
    let qs = if no_video { "?noVideo=1"@ } else { Seq::<char>::empty() };
    if mid == "hinai"@ {
        "https://mirror.hinamizawa.ai/api/v1/hinai/d/"@ + dec_digits(id as nat) + qs
    } else if mid == "osudirect"@ {
        "https://osu.direct/api/d/"@ + dec_digits(id as nat) + qs
    } else if mid == "nerinyan"@ {
        "https://api.nerinyan.moe/d/"@ + dec_digits(id as nat) + qs
    } else {
        "https://txy1.sayobot.cn/beatmaps/download/"@ + (if no_video { "novideo"@ } else { "full"@ })
            + seq!['/'] + dec_digits(id as nat)
    }
}

/// Download URL of set `id` on mirror `m`, in that mirror's dialect for "no video".
pub fn build_url(m: Mirror, id: u64, no_video: bool) -> (r: String)
    ensures
        r@ == url_spec(m.id@, id, no_video),
{
    let mut s = String::new();
    if str_eq(m.id, "hinai") {
        push_str(&mut s, "https://mirror.hinamizawa.ai/api/v1/hinai/d/");
        push_dec(&mut s, id);
    } else if str_eq(m.id, "osudirect") {
        push_str(&mut s, "https://osu.direct/api/d/");
        push_dec(&mut s, id);
    } else if str_eq(m.id, "nerinyan") {
        push_str(&mut s, "https://api.nerinyan.moe/d/");
        push_dec(&mut s, id);
    } else {
        push_str(&mut s, "https://txy1.sayobot.cn/beatmaps/download/");
        push_str(&mut s, if no_video { "novideo" } else { "full" });
        push_char(&mut s, '/');
        push_dec(&mut s, id);
        return s;
    }
    if no_video {
        push_str(&mut s, "?noVideo=1");
    }
    s
}

/// The body starts with the zip magic `PK`.
pub fn is_zip_magic(first: &[u8]) -> (b: bool)
    ensures
        b == (first@.len() >= 2 && first@[0] == 0x50 && first@[1] == 0x4B),
{
    first.len() >= 2 && first[0] == 0x50 && first[1] == 0x4B
}

/// `s` cut at index `k` (all of it when `k < 0`).
pub open spec fn cut_at(s: Seq<char>, k: int) -> Seq<char> {
    if k < 0 { s } else { s.take(k) }
}

/// The smaller of two indices where -1 means "none".
pub open spec fn first_of(a: int, b: int) -> int {
    if a < 0 { b } else if b < 0 { a } else if a < b { a } else { b }
}

/// The file-name value of a `filename=` parameter: inside quotes up to the closing quote, or
/// bare up to `;` or a space.
pub open spec fn disposition_value(rest: Seq<char>) -> Seq<char> {
    if rest.len() > 0 && rest[0] == '"' {
        cut_at(rest.drop_first(), first_index_of(rest.drop_first(), '"'))
    } else {
        cut_at(rest, first_of(first_index_of(rest, ';'), first_index_of(rest, ' ')))
    }
}

/// The name without a trailing `.osz` (any case).
pub open spec fn strip_osz(raw: Seq<char>) -> Seq<char> {
    let d = last_index_of(raw, '.');
    if d >= 0 && eq_ignore_ascii_case(raw.skip(d), ".osz"@) { raw.take(d) } else { raw }
}

/// Plain `filename=` of a Content-Disposition header without `.osz`; encoded (`=?`) headers,
/// missing or empty names give none.
pub open spec fn disposition_spec(h: Seq<char>) -> Option<Seq<char>> {
    if contains_seq(h, "=?"@) || !contains_seq(h, "filename="@) {
        None
    } else {
        let rest = trim(h.skip(first_occurrence(h, "filename="@) + 9));
        let raw = disposition_value(rest);
        let stem = trim(strip_osz(raw));
        if raw.len() == 0 || stem.len() == 0 { None } else { Some(stem) }
    }
}

} // verus!

verus! {

fn disposition_raw(v: &[char], a: usize, b: usize) -> (r: (usize, usize))
    requires
        a <= b <= v.len(),
    ensures
        a <= r.0 <= r.1 <= b,
        v@.subrange(r.0 as int, r.1 as int) == disposition_value(v@.subrange(a as int, b as int)),
{
    let ghost rest = v@.subrange(a as int, b as int);
    if a < b && v[a] == '"' {
        let lo = a + 1;
        assert(v@.subrange(lo as int, b as int) =~= rest.drop_first());
        let hi = match first_index(v, lo, b, '"') {
            Some(q) => lo + q,
            None => b,
        };
        assert(v@.subrange(lo as int, hi as int) =~= disposition_value(rest));
        (lo, hi)
    } else {
        let i1 = first_index(v, a, b, ';');
        let i2 = first_index(v, a, b, ' ');
        let hi = match (i1, i2) {
            (None, None) => b,
            (Some(x), None) => a + x,
            (None, Some(y)) => a + y,
            (Some(x), Some(y)) => if x < y { a + x } else { a + y },
        };
        assert(v@.subrange(a as int, hi as int) =~= disposition_value(rest));
        (a, hi)
    }
}

fn strip_osz_end(v: &[char], lo: usize, hi: usize) -> (end: usize)
    requires
        lo <= hi <= v.len(),
    ensures
        lo <= end <= hi,
        v@.subrange(lo as int, end as int) == strip_osz(v@.subrange(lo as int, hi as int)),
{
    let ghost raw = v@.subrange(lo as int, hi as int);
    let osz = chars_of(".osz");
    proof {
        reveal_strlit(".osz");
    }
    let end: usize = match last_index(v, lo, hi, '.') {
        Some(d) => {
            assert(v@.subrange(lo + d, hi as int) =~= raw.skip(d as int));
            if eq_ignore_case_range(v, lo + d, hi, &osz) {
                lo + d
            } else {
                hi
            }
        },
        None => hi,
    };
    assert(v@.subrange(lo as int, end as int) =~= strip_osz(raw));
    end
}

/// Plain file name of a Content-Disposition header without `.osz`. Encoded (RFC 2047 `=?`)
/// headers are not decoded and give `None`, as do headers without a usable `filename=`.
pub fn parse_content_disposition(header: &str) -> (r: Option<String>)
    ensures
        match disposition_spec(header@) {
            Some(s) => r matches Some(t) && t@ == s,
            None => r is None,
        },
{
    let v = chars_of(header);
    let n = v.len();
    assert(v@.subrange(0, n as int) =~= v@);
    let enc = chars_of("=?");
    let key = chars_of("filename=");
    proof {
        reveal_strlit("=?");
        reveal_strlit("filename=");
    }
    if find_sub(&v, 0, n, &enc).is_some() {
        return None;
    }
    let idx = match find_sub(&v, 0, n, &key) {
        Some(i) => i,
        None => return None,
    };
    let (a, b) = trim_range(&v, idx + 9, n);
    assert(v@.subrange(idx + 9, n as int) =~= v@.skip(idx + 9));
    let (lo, hi) = disposition_raw(&v, a, b);
    if lo == hi {
        return None;
    }
    let end = strip_osz_end(&v, lo, hi);
    let (s1, s2) = trim_range(&v, lo, end);
    if s1 == s2 {
        return None;
    }
    Some(string_of_range(&v, s1, s2))
}

/// Seconds a lane cools down for a `Retry-After` header: its integer value, at least 60;
/// 60 when it is missing or not an integer.
pub open spec fn retry_after_spec(hv: Option<Seq<char>>) -> u64 {
    let v = match hv {
        Some(t) => match parse_u64_spec(trim(t)) {
            Some(n) => n,
            None => 60,
        },
        None => 60,
    };
    if v < 60 { 60 } else { v }
}

/// Seconds to cool a lane for a `Retry-After` header value (at least 60; 60 when missing or
/// unparsable).
pub fn retry_after_secs(hv: Option<&str>) -> (r: u64)
    ensures
        r == retry_after_spec(match hv { Some(t) => Some(t@), None => None }),
{
    let v: u64 = match hv {
        Some(t) => {
            let c = chars_of(t);
            let (a, b) = trim_range(&c, 0, c.len());
            assert(c@.subrange(0, c.len() as int) =~= c@);
            match parse_u64_range(&c, a, b) {
                Some(n) => n,
                None => 60,
            }
        },
        None => 60,
    };
    if v < 60 { 60 } else { v }
}

} // verus!

verus! {

/// One lane cool-down: mirror `lane` is skipped until the monotonic clock reads `until_ms`.
pub struct LanePause {
    pub lane: String,
    pub until_ms: u64,
}

/// Lane cool-downs; the latest entry of a lane is the one in force.
pub struct LaneTable {
    pub pauses: Vec<LanePause>,
}

/// End of the cool-down in force for `lane`, if any: its latest entry.
pub open spec fn pause_of(p: Seq<LanePause>, lane: Seq<char>) -> Option<u64>
    decreases p.len(),
{
    if p.len() == 0 {
        None
    } else if p.last().lane@ == lane {
        Some(p.last().until_ms)
    } else {
        pause_of(p.drop_last(), lane)
    }
}

/// How long a lane cools down for a requested number of seconds: at least 60 s, in ms.
pub open spec fn pause_ms(secs: u64) -> int {
    (if secs < LANE_PAUSE_FLOOR_SECS { LANE_PAUSE_FLOOR_SECS } else { secs }) * 1000
}

impl LaneTable {
    pub fn new() -> (t: LaneTable)
        ensures
            forall|l: Seq<char>| pause_of(t.pauses@, l) is None,
    {
        LaneTable { pauses: Vec::new() }
    }
}

/// The lane is cooling down at `now_ms`.
pub fn lane_paused(t: &LaneTable, id: &str, now_ms: u64) -> (b: bool)
    ensures
        b == (pause_of(t.pauses@, id@) matches Some(u) && u > now_ms),
{
    let mut i: usize = t.pauses.len();
    assert(t.pauses@.take(i as int) =~= t.pauses@);
    while i > 0
        invariant
            i <= t.pauses.len(),
            pause_of(t.pauses@, id@) == pause_of(t.pauses@.take(i as int), id@),
        decreases i,
    {
        assert(t.pauses@.take(i as int).drop_last() =~= t.pauses@.take(i - 1));
        if str_eq(t.pauses[i - 1].lane.as_str(), id) {
            return t.pauses[i - 1].until_ms > now_ms;
        }
        i -= 1;
    }
    false
}

/// Cools lane `id` down from `now_ms` for `secs` seconds, at least 60; other lanes keep theirs.
pub fn pause_lane(t: &mut LaneTable, id: &str, secs: u64, now_ms: u64)
    requires
        now_ms + pause_ms(secs) <= u64::MAX,
    ensures
        pause_of(final(t).pauses@, id@) == Some((now_ms + pause_ms(secs)) as u64),
        forall|l: Seq<char>| l != id@ ==> pause_of(final(t).pauses@, l) == pause_of(old(t).pauses@, l),
{
    let d: u64 = if secs < LANE_PAUSE_FLOOR_SECS { LANE_PAUSE_FLOOR_SECS } else { secs };
    let until = now_ms + d * 1000;
    let mut lane = String::new();
    push_str(&mut lane, id);
    t.pauses.push(LanePause { lane, until_ms: until });
    assert(t.pauses@.drop_last() =~= old(t).pauses@);
}

/// A cooled lane stays skipped until its pause ends, at least 60 s after it began, and is
/// tried again from then on; pausing one lane leaves every other lane as it was.
pub proof fn pause_then_paused(before: Seq<LanePause>, after: Seq<LanePause>, id: Seq<char>, secs: u64, now_ms: u64, later_ms: u64, other: Seq<char>)
    requires
        now_ms + pause_ms(secs) <= u64::MAX,
        pause_of(after, id) == Some((now_ms + pause_ms(secs)) as u64),
        forall|l: Seq<char>| l != id ==> pause_of(after, l) == pause_of(before, l),
        other != id,
    ensures
        (pause_of(after, id) matches Some(u) && u > later_ms) <==> later_ms < now_ms + pause_ms(secs),
        later_ms < now_ms + 60000 ==> (pause_of(after, id) matches Some(u) && u > later_ms),
        pause_of(after, other) == pause_of(before, other),
{
}

} // verus!

verus! {

/// Run and cancel state of the download queue: one run at a time.
pub struct CancelFlag {
    running: bool,
    cancel: bool,
}

impl CancelFlag {
    pub closed spec fn running(&self) -> bool {
        self.running
    }

    pub closed spec fn cancel_requested(&self) -> bool {
        self.cancel
    }

    /// Idle, nothing requested.
    pub fn new() -> (f: CancelFlag)
        ensures
            !f.running(),
            !f.cancel_requested(),
    {
        CancelFlag { running: false, cancel: false }
    }
}

/// Token of a started run; `end` finishes it.
pub struct RunHandle {
    started: bool,
}

impl RunHandle {
    /// Starts a run when none is running. The cancel request is cleared first, whether or not
    /// the run can start.
    pub fn begin(flag: &mut CancelFlag) -> (r: Option<RunHandle>)
        ensures
            r is Some <==> !old(flag).running(),
            final(flag).running(),
            !final(flag).cancel_requested(),
    {
        flag.cancel = false;
        if flag.running {
            return None;
        }
        flag.running = true;
        Some(RunHandle { started: true })
    }

    /// A cancel was requested for the current run.
    pub fn is_cancelled(flag: &CancelFlag) -> (b: bool)
        ensures
            b == flag.cancel_requested(),
    {
        flag.cancel
    }

    /// Requests cancelling the current run; nothing happens when no run is going.
    pub fn request(flag: &mut CancelFlag)
        ensures
            final(flag).running() == old(flag).running(),
            final(flag).cancel_requested() == (old(flag).cancel_requested() || old(flag).running()),
    {
        if flag.running {
            flag.cancel = true;
        }
    }

    /// Ends the run the handle started.
    pub fn end(flag: &mut CancelFlag, handle: RunHandle)
        ensures
            !final(flag).running(),
            final(flag).cancel_requested() == old(flag).cancel_requested(),
    {
        let _ = handle.started;
        flag.running = false;
    }
}

/// Request to cancel the downloads under way (no-op when idle).
pub fn cancel_downloads(flag: &mut CancelFlag)
    ensures
        final(flag).running() == old(flag).running(),
        final(flag).cancel_requested() == (old(flag).cancel_requested() || old(flag).running()),
{
    RunHandle::request(flag);
}

/// A request made while a run is going is seen by that run; one made while idle is not, and a
/// new run always starts without a pending request.
pub proof fn cancel_reaches_only_a_running_run(f0: CancelFlag, f1: CancelFlag, f2: CancelFlag)
    requires
        f1.running() == f0.running(),
        f1.cancel_requested() == (f0.cancel_requested() || f0.running()),
        f2.running(),
        !f2.cancel_requested(),
    ensures
        f0.running() ==> f1.cancel_requested(),
        !f0.running() ==> f1.cancel_requested() == f0.cancel_requested(),
        !f2.cancel_requested(),
{
}

} // verus!

verus! {

use crate::model::{DownloadProgress, DownloadResult, DownloadState};

/// `{mirror}: {err}`
pub fn http_error(err: &str, mirror: &str) -> (r: String)
    ensures
        r@ == mirror@ + ": "@ + err@,
{
    let mut s = String::new();
    push_str(&mut s, mirror);
    push_str(&mut s, ": ");
    push_str(&mut s, err);
    s
}

/// A queued progress event for set `id` with nothing received.
pub fn base_progress(set_id: u64) -> (p: DownloadProgress)
    ensures
        p.set_id == set_id,
        p.state == DownloadState::Queued,
        p.mirror is None,
        p.received == 0,
        p.total == 0,
        p.error is None,
{
    DownloadProgress { set_id, state: DownloadState::Queued, mirror: None, received: 0, total: 0, error: None }
}

/// Result of a set whose download was cancelled.
pub fn cancelled_result(id: u64) -> (r: DownloadResult)
    ensures
        r.set_id == id,
        !r.ok,
        r.path is None,
        r.mirror is None,
        r.bytes == 0,
        r.error matches Some(e) && e@ == crate::errcode::CANCELLED@,
{
    DownloadResult {
        set_id: id,
        ok: false,
        path: None,
        mirror: None,
        bytes: 0,
        error: Some(crate::errcode::ec(crate::errcode::CANCELLED)),
    }
}

/// Progress event of a set whose download was cancelled.
pub fn cancelled_progress(id: u64) -> (p: DownloadProgress)
    ensures
        p.set_id == id,
        p.state == DownloadState::Cancelled,
        p.mirror is None,
        p.received == 0,
        p.total == 0,
        p.error matches Some(e) && e@ == crate::errcode::CANCELLED@,
{
    let mut p = base_progress(id);
    p.state = DownloadState::Cancelled;
    p.error = Some(crate::errcode::ec(crate::errcode::CANCELLED));
    p
}

/// Result of a set refused because another download run is going.
pub fn busy_result(id: u64) -> (r: DownloadResult)
    ensures
        r.set_id == id,
        !r.ok,
        r.path is None,
        r.mirror is None,
        r.bytes == 0,
        r.error matches Some(e) && e@ == crate::errcode::DOWNLOAD_BUSY@,
{
    DownloadResult {
        set_id: id,
        ok: false,
        path: None,
        mirror: None,
        bytes: 0,
        error: Some(crate::errcode::ec(crate::errcode::DOWNLOAD_BUSY)),
    }
}

/// File name of a finished download: `<id> <title>.osz` with the title made Windows-safe, or
/// `<id>.osz` without a title or when the title is the id itself.
pub open spec fn final_name_spec(id: u64, title: Option<Seq<char>>) -> Seq<char> {
    match title {
        Some(t) if t != dec_digits(id as nat) => dec_digits(id as nat) + seq![' '] + crate::thumbs::sanitized(t) + ".osz"@,
        _ => dec_digits(id as nat) + ".osz"@,
    }
}

/// File name of a finished download (see `final_name_spec`).
pub fn final_name(id: u64, title: Option<&str>) -> (r: String)
    ensures
        r@ == final_name_spec(id, match title { Some(t) => Some(t@), None => None }),
{
    let mut ids = String::new();
    push_dec(&mut ids, id);
    let mut s = String::new();
    push_str(&mut s, ids.as_str());
    match title {
        Some(t) => {
            if !str_eq(t, ids.as_str()) {
                push_char(&mut s, ' ');
                let clean = crate::thumbs::sanitize_filename(t);
                push_str(&mut s, clean.as_str());
            }
        },
        None => {},
    }
    push_str(&mut s, ".osz");
    s
}

/// The errors joined with `; `.
pub open spec fn joined(errs: Seq<Seq<char>>) -> Seq<char>
    decreases errs.len(),
{
    if errs.len() == 0 {
        Seq::empty()
    } else if errs.len() == 1 {
        errs[0]
    } else {
        joined(errs.drop_last()) + "; "@ + errs.last()
    }
}

/// The message of a set no mirror delivered: the mirrors' errors joined with `; `, cut to 300
/// characters and an ellipsis when longer; "all mirrors cooling" when no mirror was tried.
pub open spec fn failure_spec(errs: Seq<Seq<char>>, any_ran: bool) -> Seq<char> {
    if !any_ran {
        crate::errcode::ALL_MIRRORS_COOLING@
    } else if joined(errs).len() > 300 {
        joined(errs).take(300) + seq!['\u{2026}']
    } else {
        joined(errs)
    }
}


/// Message of a set that failed on every mirror (see `failure_spec`).
pub fn failure_message(errors: &[String], any_ran: bool) -> (r: String)
    ensures
        r@ == failure_spec(string_views(errors@), any_ran),
{
    if !any_ran {
        return crate::errcode::ec(crate::errcode::ALL_MIRRORS_COOLING);
    }
    proof {
        reveal_strlit("; ");
    }
    let mut all: Vec<char> = Vec::new();
    let mut i: usize = 0;
    while i < errors.len()
        invariant
            i <= errors.len(),
            all@ == joined(string_views(errors@).take(i as int)),
        decreases errors.len() - i,
    {
        assert(string_views(errors@).take(i + 1).drop_last() =~= string_views(errors@).take(i as int));
        proof {
            reveal_strlit("; ");
        }
        if i > 0 {
            all.push(';');
            all.push(' ');
        }
        let e = chars_of(errors[i].as_str());
        let mut j: usize = 0;
        let ghost before = all@;
        assert(before =~= joined(string_views(errors@).take(i as int)) + (if i > 0 { "; "@ } else { Seq::<char>::empty() }));
        while j < e.len()
            invariant
                j <= e.len(),
                all@ == before + e@.take(j as int),
                i < errors.len(),
                before == joined(string_views(errors@).take(i as int)) + (if i > 0 { "; "@ } else { Seq::<char>::empty() }),
            decreases e.len() - j,
        {
            all.push(e[j]);
            j += 1;
            assert(all@ =~= before + e@.take(j as int));
        }
        assert(e@.take(j as int) =~= e@);
        let ghost sv = string_views(errors@);
        assert(sv[i as int] == e@);
        assert(sv.take(i + 1).last() == e@);
        i += 1;
        assert(all@ =~= joined(string_views(errors@).take(i as int)));
    }
    assert(string_views(errors@).take(errors.len() as int) =~= string_views(errors@));
    if all.len() > 300 {
        let mut s = string_of_range(&all, 0, 300);
        push_char(&mut s, '\u{2026}');
        assert(all@.subrange(0, 300) =~= all@.take(300));
        s
    } else {
        string_of_range(&all, 0, all.len())
    }
}

} // verus!

verus! {

/// What to do with a mirror's HTTP status.
pub enum StatusAction {
    /// 2xx: read the body.
    Proceed,
    /// Give up on this mirror with the message; try the next one.
    Fail(String),
    /// 429/503: cool the lane down for `secs` seconds and fail with the message.
    CoolDown(u64, String),
}

/// `HTTP {status}`
pub open spec fn http_status_text(status: u16) -> Seq<char> {
    "HTTP "@ + dec_digits(status as nat)
}

/// 404 fails without cooling; 429 and 503 cool the lane down for the `Retry-After` seconds;
/// any other non-2xx fails; 2xx proceeds.
pub fn status_action(status: u16, retry_after: Option<&str>) -> (r: StatusAction)
    ensures
        status == 404 ==> (r matches StatusAction::Fail(m) && m@ == http_status_text(status)),
        (status == 429 || status == 503) ==> (r matches StatusAction::CoolDown(secs, m)
            && secs == retry_after_spec(match retry_after { Some(t) => Some(t@), None => None })
            && m@ == crate::errcode::HTTP_COOLING@ + seq!['|'] + dec_digits(status as nat) + seq!['|'] + dec_digits(secs as nat)),
        (status != 404 && status != 429 && status != 503 && !(200 <= status <= 299))
            ==> (r matches StatusAction::Fail(m) && m@ == http_status_text(status)),
        200 <= status <= 299 ==> r is Proceed,
{
    if status == 404 || (status != 429 && status != 503 && !(200 <= status && status <= 299)) {
        let mut m = String::new();
        push_str(&mut m, "HTTP ");
        push_dec(&mut m, status as u64);
        return StatusAction::Fail(m);
    }
    if status == 429 || status == 503 {
        let secs = retry_after_secs(retry_after);
        let mut a = String::new();
        push_dec(&mut a, status as u64);
        let mut b = String::new();
        push_dec(&mut b, secs);
        return StatusAction::CoolDown(secs, crate::errcode::ec2(crate::errcode::HTTP_COOLING, a.as_str(), b.as_str()));
    }
    StatusAction::Proceed
}

/// Collects the first two body bytes into `magic` from the next chunk; false once two bytes
/// are in and they are not the zip magic.
pub fn sniff_chunk(magic: &mut Vec<u8>, chunk: &[u8]) -> (ok: bool)
    requires
        old(magic)@.len() <= 2,
    ensures
        final(magic)@ == if old(magic)@.len() < 2 {
            old(magic)@ + chunk@.take(if chunk@.len() < 2 - old(magic)@.len() { chunk@.len() as int } else { 2 - old(magic)@.len() })
        } else {
            old(magic)@
        },
        final(magic)@.len() <= 2,
        ok == !(final(magic)@.len() >= 2 && !(final(magic)@[0] == 0x50 && final(magic)@[1] == 0x4B)),
{
    if magic.len() < 2 {
        let need = 2 - magic.len();
        let take = if chunk.len() < need { chunk.len() } else { need };
        let mut k: usize = 0;
        let ghost before = magic@;
        while k < take
            invariant
                k <= take <= chunk.len(),
                before.len() + take <= 2,
                magic@ == before + chunk@.take(k as int),
            decreases take - k,
        {
            magic.push(chunk[k]);
            k += 1;
            assert(magic@ =~= before + chunk@.take(k as int));
        }
    }
    !(magic.len() >= 2 && !is_zip_magic(magic.as_slice()))
}

/// The requested set ids without repeats, in first-seen order; more than 200 distinct ids is
/// refused with the count.
pub fn dedup_ids(set_ids: &[u64]) -> (r: Result<Vec<u64>, String>)
    ensures
        dedup_seq(set_ids@).len() <= MAX_IDS_PER_CALL ==> (r matches Ok(v) && v@ == dedup_seq(set_ids@)),
        dedup_seq(set_ids@).len() > MAX_IDS_PER_CALL ==> (r matches Err(e)
            && e@ == crate::errcode::DOWNLOAD_TOO_MANY@ + seq!['|'] + dec_digits(MAX_IDS_PER_CALL as nat) + seq!['|'] + dec_digits(dedup_seq(set_ids@).len())),
{
    let mut ids: Vec<u64> = Vec::new();
    let mut i: usize = 0;
    while i < set_ids.len()
        invariant
            i <= set_ids.len(),
            ids@ == dedup_seq(set_ids@.take(i as int)),
            ids@.len() <= i,
        decreases set_ids.len() - i,
    {
        assert(set_ids@.take(i + 1).drop_last() =~= set_ids@.take(i as int));
        let id = set_ids[i];
        let mut seen = false;
        let mut k: usize = 0;
        while k < ids.len()
            invariant
                k <= ids.len(),
                seen == exists|j: int| 0 <= j < k && ids@[j] == id,
            decreases ids.len() - k,
        {
            if ids[k] == id {
                seen = true;
            }
            k += 1;
        }
        if !seen {
            ids.push(id);
        } else {
            assert(ids@.contains(id));
        }
        i += 1;
    }
    assert(set_ids@.take(set_ids.len() as int) =~= set_ids@);
    if ids.len() > MAX_IDS_PER_CALL {
        let mut a = String::new();
        push_dec(&mut a, MAX_IDS_PER_CALL as u64);
        let mut b = String::new();
        push_dec(&mut b, ids.len() as u64);
        return Err(crate::errcode::ec2(crate::errcode::DOWNLOAD_TOO_MANY, a.as_str(), b.as_str()));
    }
    Ok(ids)
}

/// Worker count of the download queue.
pub const WORKERS: usize = 3;

/// Round-robin split of the queue over the workers: item `i` goes to worker `i % 3`, each keeping
/// (position, id) in input order.
pub fn shard_ids(ids: &[u64]) -> (r: Vec<Vec<(usize, u64)>>)
    ensures
        r@.len() == WORKERS,
        forall|w: int| 0 <= w < WORKERS ==> (#[trigger] r@[w])@.len() == (ids@.len() + WORKERS - 1 - w) / WORKERS as int,
        forall|w: int, k: int| 0 <= w < WORKERS && 0 <= k < r@[w]@.len() ==>
            (#[trigger] r@[w]@[k]).0 == k * WORKERS + w && r@[w]@[k].1 == ids@[k * WORKERS + w],
{
    let mut r: Vec<Vec<(usize, u64)>> = Vec::new();
    let mut w: usize = 0;
    while w < WORKERS
        invariant
            w <= WORKERS,
            r@.len() == w,
            forall|x: int| 0 <= x < w ==> (#[trigger] r@[x])@.len() == (ids@.len() + WORKERS - 1 - x) / WORKERS as int,
            forall|x: int, k: int| 0 <= x < w && 0 <= k < r@[x]@.len() ==>
                (#[trigger] r@[x]@[k]).0 == k * WORKERS + x && r@[x]@[k].1 == ids@[k * WORKERS + x],
        decreases WORKERS - w,
    {
        let mut shard: Vec<(usize, u64)> = Vec::new();
        let mut i: usize = 0;
        while i < ids.len()
            invariant
                w < WORKERS,
                i <= ids.len(),
                shard@.len() == (i + WORKERS - 1 - w) / WORKERS as int,
                forall|k: int| 0 <= k < shard@.len() ==>
                    (#[trigger] shard@[k]).0 == k * WORKERS + w && shard@[k].1 == ids@[k * WORKERS + w],
            decreases ids.len() - i,
        {
            let ghost n0 = shard@.len();
            if i % WORKERS == w {
                assert(n0 * 3 + w == i) by (nonlinear_arith)
                    requires n0 == (i + 2 - w) / 3, i % 3 == w, w < 3;
                shard.push((i, ids[i]));
                assert((i + 1 + 2 - w) / 3 == n0 + 1) by (nonlinear_arith)
                    requires n0 == (i + 2 - w) / 3, i % 3 == w, w < 3;
            } else {
                assert((i + 1 + 2 - w) / 3 == n0) by (nonlinear_arith)
                    requires n0 == (i + 2 - w) / 3, i % 3 != w, w < 3;
            }
            i += 1;
        }
        r.push(shard);
        w += 1;
    }
    r
}

} // verus!

verus! {

/// The error an attempt returns when the run was cancelled while reading.
pub const CANCELLED_MARK: &'static str = "__cancelled__";

/// A progress event with a state, the mirror label and byte counts.
fn progress_at(id: u64, state: DownloadState, mirror: &str, received: u64, total: u64) -> (p: DownloadProgress)
    ensures
        p.set_id == id,
        p.state == state,
        p.mirror matches Some(m) && m@ == mirror@,
        p.received == received,
        p.total == total,
        p.error is None,
{
    let mut p = base_progress(id);
    p.state = state;
    let mut m = String::new();
    push_str(&mut m, mirror);
    p.mirror = Some(m);
    p.received = received;
    p.total = total;
    p
}

/// `m` is mirror `i` of the chain.
pub open spec fn chain_mirror(m: Mirror, i: int) -> bool {
    m.id@ == chain_spec()[i].0 && m.label@ == chain_spec()[i].1
}

pub open spec fn opt_view(t: Option<String>) -> Option<Seq<char>> {
    match t {
        Some(x) => Some(x@),
        None => None,
    }
}

/// How mirror `m` failed set `id`: not run (`ran` false) when its lane reported cooling;
/// otherwise its lane was free, and either its attempt failed with the error `err` (not the
/// cancel mark), or the archive it delivered could not be put in place and `err` is
/// `{label}: {error}`.
pub open spec fn step_failed<FP, FA, FF>(paused: FP, attempt: FA, place: FF, id: u64, m: Mirror, ran: bool, err: Seq<char>) -> bool where
    FP: Fn(&str) -> bool,
    FA: Fn(Mirror) -> Result<Option<String>, String>,
    FF: Fn(&String) -> Result<(String, u64), String>,
{
    if !ran {
        paused.ensures((m.id,), true)
    } else {
        paused.ensures((m.id,), false) && (
            (exists|e: String| #[trigger] attempt.ensures((m,), Err(e)) && e@ == err && e@ != CANCELLED_MARK@)
            || (exists|t: Option<String>, n: String, e: String| #[trigger] attempt.ensures((m,), Ok(t))
                && #[trigger] place.ensures((&n,), Err(e)) && n@ == final_name_spec(id, opt_view(t))
                && err == m.label@ + ": "@ + e@))
    }
}

/// Mirror `i` of the chain failed set `id` (`step_failed`).
pub open spec fn mirror_failed<FP, FA, FF>(paused: FP, attempt: FA, place: FF, id: u64, i: int, ran: bool, err: Seq<char>) -> bool where
    FP: Fn(&str) -> bool,
    FA: Fn(Mirror) -> Result<Option<String>, String>,
    FF: Fn(&String) -> Result<(String, u64), String>,
{
    exists|m: Mirror| #[trigger] chain_mirror(m, i) && step_failed(paused, attempt, place, id, m, ran, err)
}

/// The first `k` mirrors of the chain failed set `id`, in order, mirror `i` run when `ran[i]`
/// and then with the error `errs[i]`.
pub open spec fn chain_failed<FP, FA, FF>(paused: FP, attempt: FA, place: FF, id: u64, ran: Seq<bool>, errs: Seq<Seq<char>>, k: int) -> bool where
    FP: Fn(&str) -> bool,
    FA: Fn(Mirror) -> Result<Option<String>, String>,
    FF: Fn(&String) -> Result<(String, u64), String>,
{
    &&& ran.len() >= k
    &&& errs.len() >= k
    &&& forall|i: int| 0 <= i < k ==> #[trigger] mirror_failed(paused, attempt, place, id, i, ran[i], errs[i])
}

/// The errors of the mirrors among the first `k` that ran, in chain order.
pub open spec fn run_errors(ran: Seq<bool>, errs: Seq<Seq<char>>, k: int) -> Seq<Seq<char>>
    decreases k,
{
    if k <= 0 {
        Seq::empty()
    } else if ran[k - 1] {
        run_errors(ran, errs, k - 1).push(errs[k - 1])
    } else {
        run_errors(ran, errs, k - 1)
    }
}

/// Some mirror among the first `k` ran.
pub open spec fn any_ran(ran: Seq<bool>, k: int) -> bool
    decreases k,
{
    if k <= 0 { false } else { any_ran(ran, k - 1) || ran[k - 1] }
}

/// Mirror `k` delivered set `id` after the mirrors before it failed: its lane was free, its
/// attempt gave a title `t`, and `place` put the archive in place under `t`'s final name.
pub open spec fn delivered<FP, FA, FF>(paused: FP, attempt: FA, place: FF, id: u64, k: int, r: DownloadResult) -> bool where
    FP: Fn(&str) -> bool,
    FA: Fn(Mirror) -> Result<Option<String>, String>,
    FF: Fn(&String) -> Result<(String, u64), String>,
{
    exists|m: Mirror, t: Option<String>, n: String, o: (String, u64)|
        #[trigger] chain_mirror(m, k) && paused.ensures((m.id,), false)
        && #[trigger] attempt.ensures((m,), Ok(t)) && #[trigger] place.ensures((&n,), Ok(o))
        && n@ == final_name_spec(id, opt_view(t))
        && (r.mirror matches Some(l) && l@ == m.label@) && r.path == Some(o.0) && r.bytes == o.1
}

/// A download event as values: (set id, state, mirror label, bytes received, bytes in all, error).
pub open spec fn dl_view(p: DownloadProgress) -> (u64, DownloadState, Option<Seq<char>>, u64, u64, Option<Seq<char>>) {
    (p.set_id, p.state, opt_view(p.mirror), p.received, p.total, opt_view(p.error))
}

pub open spec fn dl_views(v: Seq<DownloadProgress>) -> Seq<(u64, DownloadState, Option<Seq<char>>, u64, u64, Option<Seq<char>>)> {
    v.map_values(|p: DownloadProgress| dl_view(p))
}

/// `Downloading` from mirror `label`, nothing received yet.
pub open spec fn ev_down(id: u64, label: Seq<char>) -> (u64, DownloadState, Option<Seq<char>>, u64, u64, Option<Seq<char>>) {
    (id, DownloadState::Downloading, Some(label), 0u64, 0u64, None)
}

/// `Done` from mirror `label` with `bytes` bytes.
pub open spec fn ev_done(id: u64, label: Seq<char>, bytes: u64) -> (u64, DownloadState, Option<Seq<char>>, u64, u64, Option<Seq<char>>) {
    (id, DownloadState::Done, Some(label), bytes, bytes, None)
}

/// `Cancelled` with the cancel code.
pub open spec fn ev_cancel(id: u64) -> (u64, DownloadState, Option<Seq<char>>, u64, u64, Option<Seq<char>>) {
    (id, DownloadState::Cancelled, None, 0u64, 0u64, Some(crate::errcode::CANCELLED@))
}

/// `Failed` with the message `err`.
pub open spec fn ev_failed(id: u64, err: Seq<char>) -> (u64, DownloadState, Option<Seq<char>>, u64, u64, Option<Seq<char>>) {
    (id, DownloadState::Failed, None, 0u64, 0u64, Some(err))
}

/// The events of the first `k` mirrors: one `Downloading` for each that ran.
pub open spec fn tried_events(id: u64, ran: Seq<bool>, k: int) -> Seq<(u64, DownloadState, Option<Seq<char>>, u64, u64, Option<Seq<char>>)>
    decreases k,
{
    if k <= 0 {
        Seq::empty()
    } else if ran[k - 1] {
        tried_events(id, ran, k - 1).push(ev_down(id, chain_spec()[k - 1].1))
    } else {
        tried_events(id, ran, k - 1)
    }
}

/// The result of a cancelled download.
pub open spec fn is_cancelled_result(r: DownloadResult) -> bool {
    !r.ok && r.path is None && r.mirror is None && r.bytes == 0 && (r.error matches Some(e) && e@ == crate::errcode::CANCELLED@)
}

/// How a download went: the first `k` mirrors failed (`chain_failed`), each that ran having
/// reported `Downloading`, and then one of: mirror `k` delivered (`Downloading`, `Done`); the cancel
/// check said so before mirror `k` (`Cancelled`); mirror `k` ran and its attempt returned the
/// cancel mark (`Downloading`, `Cancelled`); or, with `k` = 4, every mirror failed and the set
/// failed with `failure_spec` of their errors (`Failed`). `evs` is what the events became, from `e0`.
pub open spec fn dl_outcome<FC, FP, FA, FF>(
    cancelled: FC,
    paused: FP,
    attempt: FA,
    place: FF,
    id: u64,
    r: DownloadResult,
    e0: Seq<(u64, DownloadState, Option<Seq<char>>, u64, u64, Option<Seq<char>>)>,
    evs: Seq<(u64, DownloadState, Option<Seq<char>>, u64, u64, Option<Seq<char>>)>,
    k: int,
    ran: Seq<bool>,
    errs: Seq<Seq<char>>,
) -> bool where
    FC: Fn() -> bool,
    FP: Fn(&str) -> bool,
    FA: Fn(Mirror) -> Result<Option<String>, String>,
    FF: Fn(&String) -> Result<(String, u64), String>,
{
    &&& 0 <= k <= 4
    &&& chain_failed(paused, attempt, place, id, ran, errs, k)
    &&& {
        let pre = e0 + tried_events(id, ran, k);
        ||| (k < 4 && r.ok && r.error is None && delivered(paused, attempt, place, id, k, r)
            && evs == pre + seq![ev_down(id, chain_spec()[k].1), ev_done(id, chain_spec()[k].1, r.bytes)])
        ||| (k < 4 && is_cancelled_result(r) && cancelled.ensures((), true) && evs == pre.push(ev_cancel(id)))
        ||| (k < 4 && is_cancelled_result(r)
            && (exists|m: Mirror, e: String| #[trigger] chain_mirror(m, k) && paused.ensures((m.id,), false)
                && #[trigger] attempt.ensures((m,), Err(e)) && e@ == CANCELLED_MARK@)
            && evs == pre + seq![ev_down(id, chain_spec()[k].1), ev_cancel(id)])
        ||| (k == 4 && !r.ok && r.path is None && r.mirror is None && r.bytes == 0
            && opt_view(r.error) == Some(failure_spec(run_errors(ran, errs, 4), any_ran(ran, 4)))
            && evs == pre.push(ev_failed(id, failure_spec(run_errors(ran, errs, 4), any_ran(ran, 4)))))
    }
}

/// Downloads set `id` through the mirror chain, in chain order (hinai, osu.direct, nerinyan,
/// sayobot): cooled lanes are skipped, each other mirror is tried until one delivers an archive,
/// which `place` moves to its final name. Without a delivery and without a cancel, the message
/// is the errors of the mirrors tried, joined with `; ` (`failure_spec`), and the
/// all-mirrors-cooling code exactly when no mirror was tried. Every event goes to `emit` and, in
/// the same order, onto `events` (`dl_outcome`). `cancelled`, `paused`, `attempt`, `place`,
/// `discard` (removes the partial file) and `emit` are the outside work.
pub fn download_one<FC, FP, FA, FF, FD, FE>(
    id: u64,
    cancelled: &FC,
    paused: &FP,
    attempt: &FA,
    place: &FF,
    discard: &FD,
    emit: &FE,
    events: &mut Vec<DownloadProgress>,
) -> (r: DownloadResult) where
    FC: Fn() -> bool,
    FP: Fn(&str) -> bool,
    FA: Fn(Mirror) -> Result<Option<String>, String>,
    FF: Fn(&String) -> Result<(String, u64), String>,
    FD: Fn(),
    FE: Fn(&DownloadProgress),

    requires
        cancelled.requires(()),
        forall|s: &str| paused.requires((s,)),
        forall|m: Mirror| attempt.requires((m,)),
        forall|n: &String| place.requires((n,)),
        discard.requires(()),
        forall|p: &DownloadProgress| emit.requires((p,)),
    ensures
        r.set_id == id,
        r.ok ==> r.error is None && r.path is Some,
        !r.ok ==> r.path is None && r.mirror is None && r.bytes == 0,
        exists|k: int, ran: Seq<bool>, errs: Seq<Seq<char>>|
            #[trigger] dl_outcome(*cancelled, *paused, *attempt, *place, id, r, dl_views(old(events)@), dl_views(final(events)@), k, ran, errs),
{
    let ghost e0 = dl_views(events@);
    let mirrors = chain();
    let mut errors: Vec<String> = Vec::new();
    let mut ran_any = false;
    let ghost mut ran: Seq<bool> = Seq::empty();
    let ghost mut errs: Seq<Seq<char>> = Seq::empty();
    let mut i: usize = 0;
    while i < mirrors.len()
        invariant
            i <= mirrors.len() == 4,
            forall|k: int| 0 <= k < 4 ==> chain_mirror(#[trigger] mirrors@[k], k),
            cancelled.requires(()),
            forall|s: &str| paused.requires((s,)),
            forall|m: Mirror| attempt.requires((m,)),
            forall|n: &String| place.requires((n,)),
            discard.requires(()),
            forall|p: &DownloadProgress| emit.requires((p,)),
            ran.len() == i,
            errs.len() == i,
            chain_failed(*paused, *attempt, *place, id, ran, errs, i as int),
            string_views(errors@) == run_errors(ran, errs, i as int),
            ran_any == any_ran(ran, i as int),
            e0 == dl_views(old(events)@),
            dl_views(events@) == e0 + tried_events(id, ran, i as int),
        decreases mirrors.len() - i,
    {
        let m = mirrors[i];
        assert(chain_mirror(m, i as int));
        let ghost ran0 = ran;
        let ghost errs0 = errs;
        let ghost ev0 = string_views(errors@);
        let ghost evb = events@;
        if cancelled() {
            discard();
            let p = cancelled_progress(id);
            emit(&p);
            events.push(p);
            let r = cancelled_result(id);
            proof {
                assert(dl_views(events@) =~= dl_views(evb).push(dl_view(events@.last())));
                assert(dl_outcome(*cancelled, *paused, *attempt, *place, id, r, e0, dl_views(events@), i as int, ran, errs));
            }
            return r;
        }
        if paused(m.id) {
            proof {
                ran = ran.push(false);
                errs = errs.push(Seq::empty());
                assert(step_failed(*paused, *attempt, *place, id, m, ran[i as int], errs[i as int]));
                assert(mirror_failed(*paused, *attempt, *place, id, i as int, ran[i as int], errs[i as int]));
                lemma_chain_extends(*paused, *attempt, *place, id, ran, errs, ran0, errs0, i as int);
            }
            i += 1;
            continue;
        }
        ran_any = true;
        let p = progress_at(id, DownloadState::Downloading, m.label, 0, 0);
        emit(&p);
        events.push(p);
        let ghost evd = events@;
        proof {
            assert(dl_views(evd) =~= dl_views(evb).push(ev_down(id, chain_spec()[i as int].1)));
        }
        match attempt(m) {
            Ok(title) => {
                let ghost tv = title;
                let name = match &title {
                    Some(t) => final_name(id, Some(t.as_str())),
                    None => final_name(id, None),
                };
                assert(name@ == final_name_spec(id, opt_view(tv)));
                match place(&name) {
                    Ok((path, bytes)) => {
                        let p = progress_at(id, DownloadState::Done, m.label, bytes, bytes);
                        emit(&p);
                        events.push(p);
                        let mut label = String::new();
                        push_str(&mut label, m.label);
                        let r = DownloadResult {
                            set_id: id,
                            ok: true,
                            path: Some(path),
                            mirror: Some(label),
                            bytes,
                            error: None,
                        };
                        proof {
                            assert(dl_views(events@) =~= dl_views(evd).push(dl_view(events@.last())));
                            assert(delivered(*paused, *attempt, *place, id, i as int, r));
                            assert(dl_views(events@) =~= e0 + tried_events(id, ran, i as int)
                                + seq![ev_down(id, chain_spec()[i as int].1), ev_done(id, chain_spec()[i as int].1, r.bytes)]);
                            assert(dl_outcome(*cancelled, *paused, *attempt, *place, id, r, e0, dl_views(events@), i as int, ran, errs));
                        }
                        return r;
                    },
                    Err(e) => {
                        discard();
                        let msg = http_error(e.as_str(), m.label);
                        proof {
                            ran = ran.push(true);
                            errs = errs.push(msg@);
                            assert(step_failed(*paused, *attempt, *place, id, m, ran[i as int], errs[i as int]));
                            assert(mirror_failed(*paused, *attempt, *place, id, i as int, ran[i as int], errs[i as int]));
                            lemma_chain_extends(*paused, *attempt, *place, id, ran, errs, ran0, errs0, i as int);
                        }
                        errors.push(msg);
                    },
                }
            },
            Err(e) => {
                if str_eq(e.as_str(), CANCELLED_MARK) {
                    let p = cancelled_progress(id);
                    emit(&p);
                    events.push(p);
                    let r = cancelled_result(id);
                    proof {
                        assert(dl_views(events@) =~= dl_views(evd).push(dl_view(events@.last())));
                        assert(dl_views(events@) =~= e0 + tried_events(id, ran, i as int)
                            + seq![ev_down(id, chain_spec()[i as int].1), ev_cancel(id)]);
                        assert(dl_outcome(*cancelled, *paused, *attempt, *place, id, r, e0, dl_views(events@), i as int, ran, errs));
                    }
                    return r;
                }
                proof {
                    ran = ran.push(true);
                    errs = errs.push(e@);
                    assert(step_failed(*paused, *attempt, *place, id, m, ran[i as int], errs[i as int]));
                    assert(mirror_failed(*paused, *attempt, *place, id, i as int, ran[i as int], errs[i as int]));
                    lemma_chain_extends(*paused, *attempt, *place, id, ran, errs, ran0, errs0, i as int);
                }
                errors.push(e);
                discard();
            },
        }
        assert(string_views(errors@) =~= ev0.push(errs[i as int]));
        i += 1;
    }
    let err = failure_message(errors.as_slice(), ran_any);
    let mut p = base_progress(id);
    p.state = DownloadState::Failed;
    p.error = Some(err.clone());
    emit(&p);
    let ghost evb = events@;
    events.push(p);
    let r = DownloadResult { set_id: id, ok: false, path: None, mirror: None, bytes: 0, error: Some(err) };
    proof {
        assert(dl_views(events@) =~= dl_views(evb).push(dl_view(events@.last())));
        assert(dl_outcome(*cancelled, *paused, *attempt, *place, id, r, e0, dl_views(events@), 4, ran, errs));
    }
    r
}

/// When no lane is free and no cancel is asked, a download sends no request: it fails with the
/// all-mirrors-cooling code, and its one event is that failure.
pub proof fn all_lanes_cooling_fails<FC, FP, FA, FF>(
    cancelled: FC,
    paused: FP,
    attempt: FA,
    place: FF,
    id: u64,
    r: DownloadResult,
    e0: Seq<(u64, DownloadState, Option<Seq<char>>, u64, u64, Option<Seq<char>>)>,
    evs: Seq<(u64, DownloadState, Option<Seq<char>>, u64, u64, Option<Seq<char>>)>,
    k: int,
    ran: Seq<bool>,
    errs: Seq<Seq<char>>,
) where
    FC: Fn() -> bool,
    FP: Fn(&str) -> bool,
    FA: Fn(Mirror) -> Result<Option<String>, String>,
    FF: Fn(&String) -> Result<(String, u64), String>,

    requires
        forall|b: bool| #[trigger] cancelled.ensures((), b) ==> !b,
        forall|s: &str, b: bool| #[trigger] paused.ensures((s,), b) ==> b,
        dl_outcome(cancelled, paused, attempt, place, id, r, e0, evs, k, ran, errs),
    ensures
        k == 4,
        forall|i: int| 0 <= i < 4 ==> !ran[i],
        !r.ok && r.path is None && r.mirror is None && r.bytes == 0,
        opt_view(r.error) == Some(crate::errcode::ALL_MIRRORS_COOLING@),
        evs == e0.push(ev_failed(id, crate::errcode::ALL_MIRRORS_COOLING@)),
{
    assert forall|i: int| 0 <= i < k implies !ran[i] by {
        assert(mirror_failed(paused, attempt, place, id, i, ran[i], errs[i]));
    }
    if k < 4 {
        if delivered(paused, attempt, place, id, k, r) {
            let (m, t, n, o) = choose|m: Mirror, t: Option<String>, n: String, o: (String, u64)|
                #[trigger] chain_mirror(m, k) && paused.ensures((m.id,), false)
                && #[trigger] attempt.ensures((m,), Ok(t)) && #[trigger] place.ensures((&n,), Ok(o))
                && n@ == final_name_spec(id, opt_view(t))
                && (r.mirror matches Some(l) && l@ == m.label@) && r.path == Some(o.0) && r.bytes == o.1;
            assert(paused.ensures((m.id,), false));
        }
        assert(!cancelled.ensures((), true));
    }
    lemma_none_ran(id, ran, errs, k);
}

proof fn lemma_none_ran(id: u64, ran: Seq<bool>, errs: Seq<Seq<char>>, k: int)
    requires
        0 <= k <= ran.len(),
        forall|i: int| 0 <= i < k ==> !ran[i],
    ensures
        tried_events(id, ran, k) == Seq::<(u64, DownloadState, Option<Seq<char>>, u64, u64, Option<Seq<char>>)>::empty(),
        !any_ran(ran, k),
        run_errors(ran, errs, k) == Seq::<Seq<char>>::empty(),
    decreases k,
{
    if k > 0 {
        lemma_none_ran(id, ran, errs, k - 1);
    }
}

proof fn lemma_chain_extends<FP, FA, FF>(
    paused: FP,
    attempt: FA,
    place: FF,
    id: u64,
    ran: Seq<bool>,
    errs: Seq<Seq<char>>,
    ran0: Seq<bool>,
    errs0: Seq<Seq<char>>,
    i: int,
) where
    FP: Fn(&str) -> bool,
    FA: Fn(Mirror) -> Result<Option<String>, String>,
    FF: Fn(&String) -> Result<(String, u64), String>,

    requires
        0 <= i,
        ran0.len() == i,
        errs0.len() == i,
        ran == ran0.push(ran[i]),
        errs == errs0.push(errs[i]),
        chain_failed(paused, attempt, place, id, ran0, errs0, i),
        mirror_failed(paused, attempt, place, id, i, ran[i], errs[i]),
    ensures
        chain_failed(paused, attempt, place, id, ran, errs, i + 1),
        run_errors(ran, errs, i + 1) == if ran[i] { run_errors(ran0, errs0, i).push(errs[i]) } else { run_errors(ran0, errs0, i) },
        any_ran(ran, i + 1) == (any_ran(ran0, i) || ran[i]),
        tried_events(id, ran, i + 1) == if ran[i] { tried_events(id, ran0, i).push(ev_down(id, chain_spec()[i].1)) } else { tried_events(id, ran0, i) },
{
    assert forall|k: int| 0 <= k < i + 1 implies #[trigger] mirror_failed(paused, attempt, place, id, k, ran[k], errs[k]) by {
        if k < i {
            assert(ran[k] == ran0[k] && errs[k] == errs0[k]);
        }
    }
    lemma_run_prefix(ran, errs, ran0, errs0, i);
    lemma_tried_prefix(id, ran, ran0, i);
}

proof fn lemma_tried_prefix(id: u64, ran: Seq<bool>, ran0: Seq<bool>, k: int)
    requires
        0 <= k,
        ran.len() >= k,
        ran0.len() >= k,
        forall|j: int| 0 <= j < k ==> ran[j] == ran0[j],
    ensures
        tried_events(id, ran, k) == tried_events(id, ran0, k),
    decreases k,
{
    if k > 0 {
        lemma_tried_prefix(id, ran, ran0, k - 1);
    }
}

proof fn lemma_run_prefix(ran: Seq<bool>, errs: Seq<Seq<char>>, ran0: Seq<bool>, errs0: Seq<Seq<char>>, k: int)
    requires
        0 <= k,
        ran.len() >= k,
        errs.len() >= k,
        ran0.len() >= k,
        errs0.len() >= k,
        forall|j: int| 0 <= j < k ==> ran[j] == ran0[j] && errs[j] == errs0[j],
    ensures
        run_errors(ran, errs, k) == run_errors(ran0, errs0, k),
        any_ran(ran, k) == any_ran(ran0, k),
    decreases k,
{
    if k > 0 {
        lemma_run_prefix(ran, errs, ran0, errs0, k - 1);
    }
}

} // verus!

verus! {

/// An archive entry name counts as a difficulty when, lower-cased, it ends with `.osu`.
pub open spec fn osu_entry(name: Seq<char>) -> bool {
    crate::text::ends_with(crate::text::lowercase(name), ".osu"@)
}

/// A downloaded archive is accepted only when some entry is a `.osu` file (any case).
pub fn archive_has_osu(names: &[String]) -> (b: bool)
    ensures
        b == exists|i: int| 0 <= i < names@.len() && osu_entry(#[trigger] names@[i]@),
{
    proof {
        reveal_strlit(".osu");
    }
    let p = chars_of(".osu");
    let mut i: usize = 0;
    while i < names.len()
        invariant
            i <= names@.len(),
            p@ == ".osu"@,
            forall|j: int| 0 <= j < i ==> !osu_entry(#[trigger] names@[j]@),
        decreases names@.len() - i,
    {
        let lower = crate::text::to_lower(names[i].as_str());
        let v = chars_of(lower.as_str());
        assert(v@.subrange(0, v.len() as int) =~= v@);
        if crate::text::has_suffix(&v, 0, v.len(), &p) {
            assert(osu_entry(names@[i as int]@));
            return true;
        }
        i += 1;
    }
    false
}

} // verus!

verus! {

/// A download whose title is its own decimal id (a bare `<id>.osz` disposition) is named
/// `<id>.osz`, the id written once; so is one without a title.
pub proof fn bare_id_title_names_id_once(id: u64, title: Seq<char>)
    requires
        title == crate::text::dec_digits(id as nat),
    ensures
        final_name_spec(id, Some(title)) == crate::text::dec_digits(id as nat) + ".osz"@,
        final_name_spec(id, None) == crate::text::dec_digits(id as nat) + ".osz"@,
{
}

/// A download with any other title is named `<id> <title>.osz`, the title sanitised.
pub proof fn titled_download_name(id: u64, title: Seq<char>)
    requires
        title != crate::text::dec_digits(id as nat),
    ensures
        final_name_spec(id, Some(title)) == crate::text::dec_digits(id as nat) + seq![' '] + crate::thumbs::sanitized(title) + ".osz"@,
{
}

} // verus!
