//! lazer-to-stable conversion: output names, entry paths, media warnings, the request checks
//! and the batch loop; the `.osu` rewriting itself is done outside the library.
use vstd::prelude::*;
use crate::text::string_views;
use crate::text::{chars_of, str_eq, push_char, push_dec, push_i64, push_str, push_range, string_of_range, trim, trim_range, first_index, first_index_of, last_index, last_index_of, starts_with, ends_with, has_prefix, has_suffix, int_text, dec_digits, lowercase, to_lower, parse_i64_range, parse_i64_spec, dedup_seq, dedup_i64};
use crate::thumbs::{sanitize_filename, sanitized};
use crate::downloader::{CancelFlag, RunHandle};

verus! {

broadcast use vstd::string::group_string_axioms;

/// Most sets one conversion call accepts.
pub const MAX_SETS_PER_CALL: usize = 2000;

/// Output form: set folders for a stable Songs directory, or `.osz` archives.
#[derive(Debug, Clone, Copy, PartialEq, Eq, Structural)]
pub enum ConvertMode {
    Songs,
    Osz,
}

/// Run and cancel state of the conversion batch, apart from the downloads'.
pub struct ConvertRunGuard {
    handle: RunHandle,
}

impl ConvertRunGuard {
    /// Starts a batch when none is running; the cancel request is cleared first either way.
    pub fn begin(flag: &mut CancelFlag) -> (r: Option<ConvertRunGuard>)
        ensures
            r is Some <==> !old(flag).running(),
            final(flag).running(),
            !final(flag).cancel_requested(),
    {
        match RunHandle::begin(flag) {
            Some(handle) => Some(ConvertRunGuard { handle }),
            None => None,
        }
    }

    /// A cancel was requested for the current batch.
    pub fn cancelled(flag: &CancelFlag) -> (b: bool)
        ensures
            b == flag.cancel_requested(),
    {
        RunHandle::is_cancelled(flag)
    }

    /// Ends the batch the guard started.
    pub fn end(self, flag: &mut CancelFlag)
        ensures
            !final(flag).running(),
            final(flag).cancel_requested() == old(flag).cancel_requested(),
    {
        RunHandle::end(flag, self.handle);
    }
}

/// Requests cancelling the current conversion batch; nothing happens when none is running.
pub fn request_cancel(flag: &mut CancelFlag)
    ensures
        final(flag).running() == old(flag).running(),
        final(flag).cancel_requested() == (old(flag).cancel_requested() || old(flag).running()),
{
    RunHandle::request(flag);
}

/// Leading byte-order marks removed.
pub open spec fn strip_boms(s: Seq<char>) -> Seq<char>
    decreases s.len(),
{
    if s.len() > 0 && s[0] == '\u{feff}' { strip_boms(s.drop_first()) } else { s }
}

/// Format version on the first line of a `.osu` file (`osu file format v<N>`, a BOM allowed).
pub open spec fn osu_version_spec(content: Seq<char>) -> Option<i64> {
    let nl = first_index_of(content, '\n');
    let first = if nl < 0 { content } else { content.take(nl) };
    let t = strip_boms(trim(first));
    if starts_with(t, "osu file format v"@) { parse_i64_spec(t.skip(17)) } else { None }
}

/// Format version on the first line of a `.osu` file; a leading BOM is tolerated. `None` when
/// the line is not a version line or the number does not parse.
pub fn osu_format_version(content: &str) -> (r: Option<i64>)
    ensures
        r == osu_version_spec(content@),
{
    let v = chars_of(content);
    let end: usize = match first_index(&v, 0, v.len(), '\n') {
        Some(i) => i,
        None => v.len(),
    };
    assert(v@.subrange(0, v.len() as int) =~= v@);
    assert(v@.subrange(0, end as int) =~= (if first_index_of(v@, '\n') < 0 { v@ } else { v@.take(first_index_of(v@, '\n')) }));
    let (a, b) = trim_range(&v, 0, end);
    let mut s = a;
    while s < b && v[s] == '\u{feff}'
        invariant
            a <= s <= b <= v.len(),
            strip_boms(v@.subrange(a as int, b as int)) == strip_boms(v@.subrange(s as int, b as int)),
        decreases b - s,
    {
        assert(v@.subrange(s as int, b as int).drop_first() =~= v@.subrange(s + 1, b as int));
        s += 1;
    }
    let ghost t = v@.subrange(s as int, b as int);
    assert(t == strip_boms(t));
    let head = chars_of("osu file format v");
    proof {
        reveal_strlit("osu file format v");
    }
    if !has_prefix(&v, s, b, &head) {
        return None;
    }
    assert(v@.subrange(s + 17, b as int) =~= t.skip(17));
    parse_i64_range(&v, s + 17, b)
}

/// A name part made Windows-safe; empty stays empty.
pub open spec fn name_part(s: Seq<char>) -> Seq<char> {
    if s.len() == 0 { Seq::empty() } else { sanitized(s) }
}

/// `x y`, or `y` alone when `x` is empty.
pub open spec fn after_space(x: Seq<char>, y: Seq<char>) -> Seq<char> {
    if x.len() > 0 { x + seq![' '] + y } else { y }
}

/// Output name `{id} {artist} - {title}`: empty parts and a non-positive id left out,
/// `untitled` when nothing is left, at most 100 characters.
pub open spec fn base_name_spec(set_id: i64, artist: Seq<char>, title: Seq<char>) -> Seq<char> {
    let a = name_part(artist);
    let t = name_part(title);
    let id = if set_id > 0 { int_text(set_id as int) } else { Seq::<char>::empty() };
    let name = if a.len() > 0 {
        after_space(id, if t.len() > 0 { a + " - "@ + t } else { a })
    } else if t.len() > 0 {
        after_space(id, t)
    } else {
        id
    };
    let name = if name.len() == 0 { "untitled"@ } else { name };
    if name.len() > 100 { name.take(100) } else { name }
}

fn name_part_exec(s: &str) -> (r: String)
    ensures
        r@ == name_part(s@),
{
    if s.is_empty() {
        String::new()
    } else {
        sanitize_filename(s)
    }
}

/// Output base name `{id} {artist} - {title}` (the stable Songs folder habit), each part made
/// Windows-safe; empty parts are left out, `untitled` when nothing is left, cut to 100
/// characters.
pub fn output_base_name(set_id: i64, artist: &str, title: &str) -> (r: String)
    ensures
        r@ == base_name_spec(set_id, artist@, title@),
{
    let a = name_part_exec(artist);
    let t = name_part_exec(title);
    let mut name = String::new();
    if set_id > 0 {
        push_i64(&mut name, set_id);
    }
    let ghost id = name@;
    if !a.as_str().is_empty() {
        if !name.as_str().is_empty() {
            push_char(&mut name, ' ');
        }
        push_str(&mut name, a.as_str());
        if !t.as_str().is_empty() {
            push_str(&mut name, " - ");
            push_str(&mut name, t.as_str());
        }
    } else if !t.as_str().is_empty() {
        if !name.as_str().is_empty() {
            push_char(&mut name, ' ');
        }
        push_str(&mut name, t.as_str());
    }
    if name.as_str().is_empty() {
        push_str(&mut name, "untitled");
    }
    let v = chars_of(name.as_str());
    if v.len() > 100 {
        assert(v@.subrange(0, 100) =~= v@.take(100));
        string_of_range(&v, 0, 100)
    } else {
        name
    }
}

} // verus!

verus! {

pub open spec fn is_sep(c: char) -> bool {
    c == '/' || c == '\\'
}

/// The pieces of `s` between `/` and `\` separators (`str::split`), empty ones included.
pub open spec fn segments(s: Seq<char>) -> Seq<Seq<char>>
    decreases s.len(),
{
    if s.len() == 0 {
        seq![Seq::<char>::empty()]
    } else if is_sep(s.last()) {
        segments(s.drop_last()).push(Seq::empty())
    } else {
        let p = segments(s.drop_last());
        p.update(p.len() - 1, p.last().push(s.last()))
    }
}

pub proof fn lemma_segments_nonempty(s: Seq<char>)
    ensures
        segments(s).len() >= 1,
    decreases s.len(),
{
    if s.len() > 0 {
        lemma_segments_nonempty(s.drop_last());
    }
}

/// A path piece kept in an output path: not empty, `.` or `..`.
pub open spec fn kept_segment(s: Seq<char>) -> bool {
    s.len() > 0 && s != "."@ && s != ".."@
}

/// The kept pieces, each made Windows-safe, in order.
pub open spec fn safe_parts(segs: Seq<Seq<char>>) -> Seq<Seq<char>>
    decreases segs.len(),
{
    if segs.len() == 0 {
        Seq::empty()
    } else if kept_segment(segs.last()) {
        safe_parts(segs.drop_last()).push(sanitized(segs.last()))
    } else {
        safe_parts(segs.drop_last())
    }
}


fn push_part(out: &mut Vec<String>, cur: &Vec<char>)
    ensures
        string_views(final(out)@) == if kept_segment(cur@) {
            string_views(old(out)@).push(sanitized(cur@))
        } else {
            string_views(old(out)@)
        },
{
    proof {
        reveal_strlit(".");
        reveal_strlit("..");
    }
    let n = cur.len();
    let dot = n == 1 && cur[0] == '.';
    let dotdot = n == 2 && cur[0] == '.' && cur[1] == '.';
    if dot {
        assert(cur@ =~= "."@);
    }
    if dotdot {
        assert(cur@ =~= ".."@);
    }
    assert(cur@ == "."@ ==> dot) by {
        if cur@ == "."@ {
            assert(cur@.len() == 1 && cur@[0] == '.');
        }
    }
    assert(cur@ == ".."@ ==> dotdot) by {
        if cur@ == ".."@ {
            assert(cur@.len() == 2 && cur@[0] == '.' && cur@[1] == '.');
        }
    }
    if n > 0 && !dot && !dotdot {
        let s = string_of_range(cur, 0, n);
        assert(cur@.subrange(0, n as int) =~= cur@);
        let safe = sanitize_filename(s.as_str());
        out.push(safe);
        assert(string_views(out@) =~= string_views(old(out)@).push(sanitized(cur@)));
    }
}

/// Path pieces of a file name inside a set: split at `/` and `\`, empty, `.` and `..` pieces
/// dropped, each piece made Windows-safe.
pub fn sanitize_rel_path(name: &str) -> (r: Vec<String>)
    ensures
        string_views(r@) == safe_parts(segments(name@)),
{
    let v = chars_of(name);
    let mut out: Vec<String> = Vec::new();
    let mut cur: Vec<char> = Vec::new();
    let mut i: usize = 0;
    assert(v@.take(0) =~= Seq::<char>::empty());
    while i < v.len()
        invariant
            i <= v.len(),
            segments(v@.take(i as int)).len() >= 1,
            cur@ == segments(v@.take(i as int)).last(),
            string_views(out@) == safe_parts(segments(v@.take(i as int)).drop_last()),
        decreases v.len() - i,
    {
        let ghost p = segments(v@.take(i as int));
        assert(v@.take(i + 1).drop_last() =~= v@.take(i as int));
        let c = v[i];
        if c == '/' || c == '\\' {
            push_part(&mut out, &cur);
            cur = Vec::new();
            assert(segments(v@.take(i + 1)) == p.push(Seq::<char>::empty()));
            assert(segments(v@.take(i + 1)).drop_last() =~= p);
            assert(p =~= p.drop_last().push(p.last()));
        } else {
            cur.push(c);
            assert(segments(v@.take(i + 1)) == p.update(p.len() - 1, p.last().push(c)));
            assert(segments(v@.take(i + 1)).drop_last() =~= p.drop_last());
        }
        i += 1;
    }
    assert(v@.take(v.len() as int) =~= v@);
    let ghost p = segments(v@);
    push_part(&mut out, &cur);
    assert(p =~= p.drop_last().push(p.last()));
    out
}

/// Extension of a name: what follows its last `.` (the whole name without one), lower-cased.
pub open spec fn ext_lower(name: Seq<char>) -> Seq<char> {
    let d = last_index_of(name, '.');
    lowercase(if d < 0 { name } else { name.skip(d + 1) })
}

/// Warning code for an extension stable cannot play: flac, opus, m4a, aac and wma audio;
/// webm, mov and mkv video.
pub open spec fn media_key(ext: Seq<char>) -> Option<Seq<char>> {
    if ext == "flac"@ || ext == "opus"@ || ext == "m4a"@ || ext == "aac"@ || ext == "wma"@ {
        Some("err.convertWarnAudio"@)
    } else if ext == "webm"@ || ext == "mov"@ || ext == "mkv"@ {
        Some("err.convertWarnVideo"@)
    } else {
        None
    }
}

/// `key|name` for each file stable cannot play, at most 8, in file order.
pub open spec fn warnings_spec(names: Seq<Seq<char>>) -> Seq<Seq<char>>
    decreases names.len(),
{
    if names.len() == 0 {
        Seq::empty()
    } else {
        let w = warnings_spec(names.drop_last());
        match media_key(ext_lower(names.last())) {
            Some(k) => if w.len() < 8 { w.push(k + seq!['|'] + names.last()) } else { w },
            None => w,
        }
    }
}

fn media_key_exec(ext: &str) -> (r: Option<&'static str>)
    ensures
        match media_key(ext@) {
            Some(k) => r matches Some(s) && s@ == k,
            None => r is None,
        },
{
    if str_eq(ext, "flac") || str_eq(ext, "opus") || str_eq(ext, "m4a") || str_eq(ext, "aac") || str_eq(ext, "wma") {
        Some("err.convertWarnAudio")
    } else if str_eq(ext, "webm") || str_eq(ext, "mov") || str_eq(ext, "mkv") {
        Some("err.convertWarnVideo")
    } else {
        None
    }
}

/// `err.convertWarnAudio|name` / `err.convertWarnVideo|name` for each file whose extension
/// stable cannot play, at most 8.
pub fn media_warnings(names: &[String]) -> (r: Vec<String>)
    ensures
        string_views(r@) == warnings_spec(string_views(names@)),
{
    let mut out: Vec<String> = Vec::new();
    let mut i: usize = 0;
    while i < names.len()
        invariant
            i <= names.len(),
            string_views(out@) == warnings_spec(string_views(names@).take(i as int)),
        decreases names.len() - i,
    {
        let ghost sv = string_views(names@);
        assert(sv.take(i + 1).drop_last() =~= sv.take(i as int));
        assert(sv.take(i + 1).last() == names@[i as int]@);
        let v = chars_of(names[i].as_str());
        let tail = match last_index(&v, 0, v.len(), '.') {
            Some(d) => d + 1,
            None => 0,
        };
        assert(v@.subrange(0, v.len() as int) =~= v@);
        assert(v@.subrange(tail as int, v.len() as int) =~= (if last_index_of(v@, '.') < 0 { v@ } else { v@.skip(last_index_of(v@, '.') + 1) }));
        let raw = string_of_range(&v, tail, v.len());
        let ext = to_lower(raw.as_str());
        let ghost w0 = string_views(out@);
        assert(w0.len() == out.len());
        assert(w0 == warnings_spec(sv.take(i as int)));
        assert(ext@ == ext_lower(sv.take(i + 1).last()));
        match media_key_exec(ext.as_str()) {
            Some(k) => {
                if out.len() < 8 {
                    let mut w = String::new();
                    push_str(&mut w, k);
                    push_char(&mut w, '|');
                    push_str(&mut w, names[i].as_str());
                    assert(w@ =~= k@ + seq!['|'] + names@[i as int]@);
                    let ghost wv = w@;
                    out.push(w);
                    assert(out@.last()@ == wv);
                    assert(string_views(out@) =~= w0.push(k@ + seq!['|'] + names@[i as int]@));
                }
            },
            None => {},
        }
        i += 1;
    }
    assert(string_views(names@).take(names.len() as int) =~= string_views(names@));
    out
}

/// Media stored without compression in `.osz` output.
pub open spec fn precompressed_spec(name: Seq<char>) -> bool {
    let l = lowercase(name);
    ends_with(l, ".mp3"@) || ends_with(l, ".ogg"@) || ends_with(l, ".m4a"@) || ends_with(l, ".mp4"@)
        || ends_with(l, ".jpg"@) || ends_with(l, ".jpeg"@) || ends_with(l, ".png"@) || ends_with(l, ".webp"@)
}

fn ends_with_str(v: &Vec<char>, suffix: &str) -> (b: bool)
    ensures
        b == ends_with(v@, suffix@),
{
    let s = chars_of(suffix);
    assert(v@.subrange(0, v.len() as int) =~= v@);
    has_suffix(v, 0, v.len(), &s)
}

/// Already-compressed media (mp3, ogg, m4a, mp4, jpg, jpeg, png, webp), stored as they are.
pub fn is_precompressed(entry_name: &str) -> (b: bool)
    ensures
        b == precompressed_spec(entry_name@),
{
    let lower = to_lower(entry_name);
    let v = chars_of(lower.as_str());
    ends_with_str(&v, ".mp3") || ends_with_str(&v, ".ogg") || ends_with_str(&v, ".m4a")
        || ends_with_str(&v, ".mp4") || ends_with_str(&v, ".jpg") || ends_with_str(&v, ".jpeg")
        || ends_with_str(&v, ".png") || ends_with_str(&v, ".webp")
}

} // verus!

verus! {

use crate::model::{ConvertProgress, ConvertReport, ConvertSetResult, ConvertState};

/// One set to convert: its files as (original name, source path).
#[derive(Debug)]
pub struct SetSource {
    pub set_id: i64,
    pub title: String,
    pub artist: String,
    pub files: Vec<(String, String)>,
}

/// Number of `false` among the first `n` flags.
pub open spec fn count_missing(present: Seq<bool>, n: int) -> nat
    decreases n,
{
    if n <= 0 { 0 } else { count_missing(present, n - 1) + if present[n - 1] { 0nat } else { 1nat } }
}

/// Index of the first `false` flag, -1 when all are set.
pub open spec fn first_missing(present: Seq<bool>, n: int) -> int
    decreases n,
{
    if n <= 0 {
        -1
    } else if first_missing(present, n - 1) >= 0 {
        first_missing(present, n - 1)
    } else if !present[n - 1] {
        n - 1
    } else {
        -1
    }
}

/// A set with source files missing fails whole: `err.convertSourceMissing|missing|total|first`.
pub open spec fn missing_error_spec(names: Seq<Seq<char>>, present: Seq<bool>) -> Option<Seq<char>> {
    let m = count_missing(present, present.len() as int);
    if m == 0 {
        None
    } else {
        Some(crate::errcode::CONVERT_SOURCE_MISSING@ + seq!['|'] + dec_digits(m) + seq!['|']
            + dec_digits(names.len()) + seq!['|'] + names[first_missing(present, present.len() as int)])
    }
}

proof fn lemma_first_missing(present: Seq<bool>, n: int)
    requires
        0 <= n <= present.len(),
    ensures
        count_missing(present, n) == 0 <==> first_missing(present, n) < 0,
        first_missing(present, n) < n,
        count_missing(present, n) <= n,
    decreases n,
{
    if n > 0 {
        lemma_first_missing(present, n - 1);
    }
}

/// The error of a set whose source files are not all present (`present[i]` tells whether
/// file `i` exists), `None` when all are.
pub fn source_missing_error(names: &[String], present: &[bool]) -> (r: Option<String>)
    requires
        names.len() == present.len(),
    ensures
        match missing_error_spec(string_views(names@), present@) {
            Some(e) => r matches Some(s) && s@ == e,
            None => r is None,
        },
{
    let mut missing: u64 = 0;
    let mut first: Option<usize> = None;
    let mut i: usize = 0;
    while i < present.len()
        invariant
            i <= present.len() == names.len(),
            missing as nat == count_missing(present@, i as int),
            missing <= i,
            match first {
                Some(f) => f as int == first_missing(present@, i as int) && f < i,
                None => first_missing(present@, i as int) < 0,
            },
        decreases present.len() - i,
    {
        proof {
            lemma_first_missing(present@, i as int);
        }
        if !present[i] {
            missing += 1;
            if first.is_none() {
                first = Some(i);
            }
        }
        i += 1;
    }
    proof {
        lemma_first_missing(present@, present.len() as int);
    }
    match first {
        None => None,
        Some(f) => {
            let mut a = String::new();
            push_dec(&mut a, missing);
            let mut b = String::new();
            push_dec(&mut b, names.len() as u64);
            assert(string_views(names@)[f as int] == names@[f as int]@);
            Some(crate::errcode::ec3(crate::errcode::CONVERT_SOURCE_MISSING, a.as_str(), b.as_str(), names[f].as_str()))
        },
    }
}

/// A conversion progress event.
pub fn progress(done: u32, total: u32, set_id: i64, state: ConvertState, current: &str, error: Option<String>) -> (p: ConvertProgress)
    ensures
        p.done == done,
        p.total == total,
        p.set_id == set_id,
        p.state == state,
        p.current@ == current@,
        p.error == error,
{
    let mut c = String::new();
    push_str(&mut c, current);
    ConvertProgress { done, total, set_id, state, current: c, error }
}

/// Number of successful results.
pub open spec fn count_ok(r: Seq<ConvertSetResult>) -> nat
    decreases r.len(),
{
    if r.len() == 0 { 0 } else { count_ok(r.drop_last()) + if r.last().ok { 1nat } else { 0nat } }
}

/// What a result says of its set: a success names an output and carries no error; any other
/// result has an error and no output, files, bytes or warnings.
pub open spec fn result_well_formed(r: ConvertSetResult) -> bool {
    if r.ok {
        r.error is None && r.output is Some
    } else {
        r.error is Some && r.output is None && r.files == 0 && r.bytes == 0 && r.warnings@.len() == 0
    }
}

/// What the conversion of `s` returned, recorded as its result: a success carries the output,
/// file and byte counts and warnings; a failure carries the error.
pub open spec fn result_from<FV>(r: ConvertSetResult, convert: FV, mode: ConvertMode, s: SetSource) -> bool where
    FV: Fn(ConvertMode, &SetSource) -> Result<(String, u32, u64, Vec<String>), String>,
 {
    if r.ok {
        exists|o: (String, u32, u64, Vec<String>)|
            #[trigger] convert.ensures((mode, &s), Ok(o)) && r.output == Some(o.0) && r.files == o.1 && r.bytes == o.2
                && r.warnings == o.3
    } else {
        exists|e: String| #[trigger] convert.ensures((mode, &s), Err(e)) && r.error == Some(e)
    }
}

/// The result of a set skipped because a cancel was seen: failed with the cancel code.
pub open spec fn cancelled_result_of(r: ConvertSetResult) -> bool {
    !r.ok && (r.error matches Some(e) && e@ == crate::errcode::CANCELLED@) && r.output is None && r.files == 0
        && r.bytes == 0 && r.warnings@.len() == 0
}

/// Number of the first `k` sets that were converted and failed (not cancelled).
pub open spec fn count_failed(r: Seq<ConvertSetResult>, skipped: Seq<bool>, k: int) -> nat
    decreases k,
{
    if k <= 0 { 0 } else { count_failed(r, skipped, k - 1) + if !skipped[k - 1] && !r[k - 1].ok { 1nat } else { 0nat } }
}

/// Number of the first `k` sets that were skipped for a cancel.
pub open spec fn count_skipped(skipped: Seq<bool>, k: int) -> nat
    decreases k,
{
    if k <= 0 { 0 } else { count_skipped(skipped, k - 1) + if skipped[k - 1] { 1nat } else { 0nat } }
}

/// A progress event as values: (done, total, set id, state, current name, error).
pub open spec fn prog_view(p: ConvertProgress) -> (u32, u32, i64, ConvertState, Seq<char>, Option<Seq<char>>) {
    (p.done, p.total, p.set_id, p.state, p.current@, match p.error { Some(e) => Some(e@), None => None })
}

pub open spec fn prog_views(v: Seq<ConvertProgress>) -> Seq<(u32, u32, i64, ConvertState, Seq<char>, Option<Seq<char>>)> {
    v.map_values(|p: ConvertProgress| prog_view(p))
}

/// The name shown for a set while it converts.
pub open spec fn source_name(s: SetSource) -> Seq<char> {
    base_name_spec(s.set_id, s.artist@, s.title@)
}

/// The `Queued` events of the first `k` sets.
pub open spec fn queued_events(sources: Seq<SetSource>, total: u32, k: int) -> Seq<(u32, u32, i64, ConvertState, Seq<char>, Option<Seq<char>>)>
    decreases k,
{
    if k <= 0 {
        Seq::empty()
    } else {
        queued_events(sources, total, k - 1).push((0u32, total, sources[k - 1].set_id, ConvertState::Queued, source_name(sources[k - 1]), None))
    }
}

/// The events of the first `k` sets after queueing: a skipped set gives one `Cancelled` event
/// (done `i`); a converted one `Converting` (done `i`), then `Done` or `Failed` with its error
/// (done `i + 1`).
pub open spec fn run_events(sources: Seq<SetSource>, results: Seq<ConvertSetResult>, skipped: Seq<bool>, total: u32, k: int) -> Seq<(u32, u32, i64, ConvertState, Seq<char>, Option<Seq<char>>)>
    decreases k,
{
    if k <= 0 {
        Seq::empty()
    } else {
        let i = k - 1;
        let s = sources[i];
        let prev = run_events(sources, results, skipped, total, i);
        if skipped[i] {
            prev.push((i as u32, total, s.set_id, ConvertState::Cancelled, source_name(s), None))
        } else {
            let r = results[i];
            prev.push((i as u32, total, s.set_id, ConvertState::Converting, source_name(s), None)).push((
                (i + 1) as u32,
                total,
                s.set_id,
                if r.ok { ConvertState::Done } else { ConvertState::Failed },
                source_name(s),
                match r.error { Some(e) => Some(e@), None => None },
            ))
        }
    }
}

/// How the first `k` sets of a batch went: set `i` was skipped (`skipped[i]`) exactly when the
/// cancel check said so before it, and then holds the cancel result; otherwise the check said no,
/// the set was handed to `convert`, and its result is what `convert` returned.
pub open spec fn batch_ok<FC, FV>(results: Seq<ConvertSetResult>, skipped: Seq<bool>, sources: Seq<SetSource>, cancelled: FC, convert: FV, mode: ConvertMode, k: int) -> bool where
    FC: Fn() -> bool,
    FV: Fn(ConvertMode, &SetSource) -> Result<(String, u32, u64, Vec<String>), String>,
{
    &&& skipped.len() >= k
    &&& forall|i: int| 0 <= i < k && #[trigger] skipped[i] ==> cancelled.ensures((), true) && cancelled_result_of(results[i])
    &&& forall|i: int| 0 <= i < k && !#[trigger] skipped[i] ==> cancelled.ensures((), false) && result_from(results[i], convert, mode, sources[i])
}

/// Converts the sets in order, one at a time: before each set the cancel check is asked; a set
/// is marked cancelled when it says so, else it is converted by `convert`, and a failing set does
/// not stop the batch. Every progress event goes to `emit` and, in the same order, onto `events`:
/// first `Queued` for every set, then per set `Cancelled`, or `Converting` and `Done`/`Failed`.
pub fn convert_core<FE, FC, FV>(
    mode: ConvertMode,
    target_dir: &str,
    sources: &[SetSource],
    emit: &FE,
    cancelled: &FC,
    convert: &FV,
    events: &mut Vec<ConvertProgress>,
) -> (r: ConvertReport) where
    FE: Fn(ConvertProgress),
    FC: Fn() -> bool,
    FV: Fn(ConvertMode, &SetSource) -> Result<(String, u32, u64, Vec<String>), String>,

    requires
        sources@.len() < u32::MAX,
        forall|p: ConvertProgress| emit.requires((p,)),
        cancelled.requires(()),
        forall|m: ConvertMode, s: &SetSource| convert.requires((m, s)),
    ensures
        r.total as int == sources@.len(),
        r.output_dir@ == target_dir@,
        r.results@.len() == sources@.len(),
        forall|i: int| 0 <= i < sources@.len() ==> (#[trigger] r.results@[i]).set_id == sources@[i].set_id,
        forall|i: int| 0 <= i < sources@.len() ==> result_well_formed(#[trigger] r.results@[i]),
        r.converted as int == count_ok(r.results@),
        exists|skipped: Seq<bool>| #[trigger] batch_ok(r.results@, skipped, sources@, *cancelled, *convert, mode, sources@.len() as int)
            && r.failed as int == count_failed(r.results@, skipped, sources@.len() as int)
            && (r.cancelled <==> count_skipped(skipped, sources@.len() as int) > 0)
            && r.converted + r.failed + count_skipped(skipped, sources@.len() as int) == sources@.len()
            && prog_views(final(events)@) == prog_views(old(events)@) + queued_events(sources@, r.total, sources@.len() as int)
                + run_events(sources@, r.results@, skipped, r.total, sources@.len() as int),
{
    let total = sources.len() as u32;
    let ghost ev0 = prog_views(events@);
    let mut q: usize = 0;
    while q < sources.len()
        invariant
            q <= sources.len() < u32::MAX,
            total as int == sources@.len(),
            forall|p: ConvertProgress| emit.requires((p,)),
            prog_views(events@) == ev0 + queued_events(sources@, total, q as int),
        decreases sources.len() - q,
    {
        let s = &sources[q];
        let name = output_base_name(s.set_id, s.artist.as_str(), s.title.as_str());
        emit(progress(0, total, s.set_id, ConvertState::Queued, name.as_str(), None));
        let ghost before = events@;
        events.push(progress(0, total, s.set_id, ConvertState::Queued, name.as_str(), None));
        assert(prog_views(events@) =~= prog_views(before).push(prog_view(events@.last())));
        q += 1;
    }
    let ghost ev1 = prog_views(events@);
    let mut out_dir = String::new();
    push_str(&mut out_dir, target_dir);
    let mut report = ConvertReport {
        total,
        converted: 0,
        failed: 0,
        cancelled: false,
        output_dir: out_dir,
        results: Vec::new(),
    };
    let mut cancels: u32 = 0;
    let ghost mut skipped: Seq<bool> = Seq::empty();
    let mut i: usize = 0;
    while i < sources.len()
        invariant
            i <= sources.len() < u32::MAX,
            total as int == sources@.len(),
            report.total == total,
            report.output_dir@ == target_dir@,
            report.results@.len() == i,
            skipped.len() == i,
            forall|k: int| 0 <= k < i ==> (#[trigger] report.results@[k]).set_id == sources@[k].set_id,
            forall|k: int| 0 <= k < i ==> result_well_formed(#[trigger] report.results@[k]),
            batch_ok(report.results@, skipped, sources@, *cancelled, *convert, mode, i as int),
            report.converted as int == count_ok(report.results@),
            report.failed as int == count_failed(report.results@, skipped, i as int),
            cancels as int == count_skipped(skipped, i as int),
            report.converted + report.failed + cancels == i,
            report.cancelled <==> cancels > 0,
            prog_views(events@) == ev1 + run_events(sources@, report.results@, skipped, total, i as int),
            ev1 == ev0 + queued_events(sources@, total, sources@.len() as int),
            forall|p: ConvertProgress| emit.requires((p,)),
            cancelled.requires(()),
            forall|m: ConvertMode, s: &SetSource| convert.requires((m, s)),
        decreases sources.len() - i,
    {
        let s = &sources[i];
        let current = output_base_name(s.set_id, s.artist.as_str(), s.title.as_str());
        let ghost before = report.results@;
        let ghost sk0 = skipped;
        let ghost evb = events@;
        if cancelled() {
            report.cancelled = true;
            cancels += 1;
            emit(progress(i as u32, total, s.set_id, ConvertState::Cancelled, current.as_str(), None));
            events.push(progress(i as u32, total, s.set_id, ConvertState::Cancelled, current.as_str(), None));
            report.results.push(ConvertSetResult {
                set_id: s.set_id,
                ok: false,
                output: None,
                files: 0,
                bytes: 0,
                error: Some(crate::errcode::ec(crate::errcode::CANCELLED)),
                warnings: Vec::new(),
            });
            proof {
                skipped = skipped.push(true);
                assert(report.results@.drop_last() =~= before);
                assert(skipped.drop_last() =~= sk0);
                lemma_batch_extends(report.results@, before, skipped, sk0, sources@, *cancelled, *convert, mode, i as int);
                assert(prog_views(events@) =~= prog_views(evb).push(prog_view(events@.last())));
                lemma_run_events_prefix(sources@, report.results@, before, skipped, sk0, total, i as int);
            }
            i += 1;
            continue;
        }
        emit(progress(i as u32, total, s.set_id, ConvertState::Converting, current.as_str(), None));
        events.push(progress(i as u32, total, s.set_id, ConvertState::Converting, current.as_str(), None));
        let ghost evc = events@;
        match convert(mode, s) {
            Ok((path, files, bytes, warnings)) => {
                report.converted += 1;
                emit(progress(i as u32 + 1, total, s.set_id, ConvertState::Done, current.as_str(), None));
                events.push(progress(i as u32 + 1, total, s.set_id, ConvertState::Done, current.as_str(), None));
                report.results.push(ConvertSetResult {
                    set_id: s.set_id,
                    ok: true,
                    output: Some(path),
                    files,
                    bytes,
                    error: None,
                    warnings,
                });
            },
            Err(e) => {
                report.failed += 1;
                emit(progress(i as u32 + 1, total, s.set_id, ConvertState::Failed, current.as_str(), Some(e.clone())));
                let ev = progress(i as u32 + 1, total, s.set_id, ConvertState::Failed, current.as_str(), Some(e.clone()));
                events.push(ev);
                report.results.push(ConvertSetResult {
                    set_id: s.set_id,
                    ok: false,
                    output: None,
                    files: 0,
                    bytes: 0,
                    error: Some(e),
                    warnings: Vec::new(),
                });
            },
        }
        proof {
            skipped = skipped.push(false);
            assert(report.results@.drop_last() =~= before);
            assert(skipped.drop_last() =~= sk0);
            lemma_batch_extends(report.results@, before, skipped, sk0, sources@, *cancelled, *convert, mode, i as int);
            assert(prog_views(evc) =~= prog_views(evb).push(prog_view(evc.last())));
            assert(prog_views(events@) =~= prog_views(evc).push(prog_view(events@.last())));
            lemma_run_events_prefix(sources@, report.results@, before, skipped, sk0, total, i as int);
        }
        i += 1;
    }
    report
}

proof fn lemma_batch_extends<FC, FV>(
    results: Seq<ConvertSetResult>,
    before: Seq<ConvertSetResult>,
    skipped: Seq<bool>,
    sk0: Seq<bool>,
    sources: Seq<SetSource>,
    cancelled: FC,
    convert: FV,
    mode: ConvertMode,
    i: int,
) where
    FC: Fn() -> bool,
    FV: Fn(ConvertMode, &SetSource) -> Result<(String, u32, u64, Vec<String>), String>,

    requires
        0 <= i,
        before.len() == i,
        results.len() == i + 1,
        results.drop_last() == before,
        skipped.len() == i + 1,
        skipped.drop_last() == sk0,
        batch_ok(before, sk0, sources, cancelled, convert, mode, i),
        skipped[i] ==> cancelled.ensures((), true) && cancelled_result_of(results[i]),
        !skipped[i] ==> cancelled.ensures((), false) && result_from(results[i], convert, mode, sources[i]),
    ensures
        batch_ok(results, skipped, sources, cancelled, convert, mode, i + 1),
        count_failed(results, skipped, i) == count_failed(before, sk0, i),
        count_skipped(skipped, i) == count_skipped(sk0, i),
{
    assert forall|k: int| 0 <= k < i implies results[k] == before[k] && skipped[k] == sk0[k] by {
        assert(results.drop_last()[k] == results[k]);
        assert(skipped.drop_last()[k] == skipped[k]);
    }
    lemma_counts_same(results, before, skipped, sk0, i);
}

proof fn lemma_counts_same(a: Seq<ConvertSetResult>, b: Seq<ConvertSetResult>, sa: Seq<bool>, sb: Seq<bool>, k: int)
    requires
        0 <= k,
        a.len() >= k,
        b.len() >= k,
        sa.len() >= k,
        sb.len() >= k,
        forall|j: int| 0 <= j < k ==> a[j] == b[j] && sa[j] == sb[j],
    ensures
        count_failed(a, sa, k) == count_failed(b, sb, k),
        count_skipped(sa, k) == count_skipped(sb, k),
    decreases k,
{
    if k > 0 {
        lemma_counts_same(a, b, sa, sb, k - 1);
    }
}

proof fn lemma_run_events_prefix(
    sources: Seq<SetSource>,
    results: Seq<ConvertSetResult>,
    before: Seq<ConvertSetResult>,
    skipped: Seq<bool>,
    sk0: Seq<bool>,
    total: u32,
    i: int,
)
    requires
        0 <= i,
        before.len() >= i,
        results.len() >= i,
        skipped.len() >= i,
        sk0.len() >= i,
        forall|j: int| 0 <= j < i ==> results[j] == before[j] && skipped[j] == sk0[j],
    ensures
        run_events(sources, results, skipped, total, i) == run_events(sources, before, sk0, total, i),
    decreases i,
{
    if i > 0 {
        lemma_run_events_prefix(sources, results, before, skipped, sk0, total, i - 1);
    }
}

} // verus!

verus! {

/// The requested set ids without repeats, in first-seen order; none is refused, as are more
/// than 2000.
pub fn convert_request_ids(set_ids: &[i64]) -> (r: Result<Vec<i64>, String>)
    ensures
        dedup_seq(set_ids@).len() == 0 ==> (r matches Err(e) && e@ == crate::errcode::CONVERT_NO_SETS@),
        dedup_seq(set_ids@).len() > MAX_SETS_PER_CALL ==> (r matches Err(e)
            && e@ == crate::errcode::CONVERT_TOO_MANY@ + seq!['|'] + dec_digits(MAX_SETS_PER_CALL as nat) + seq!['|'] + dec_digits(dedup_seq(set_ids@).len())),
        1 <= dedup_seq(set_ids@).len() <= MAX_SETS_PER_CALL ==> (r matches Ok(v) && v@ == dedup_seq(set_ids@)),
{
    let ids = dedup_i64(set_ids);
    if ids.len() == 0 {
        return Err(crate::errcode::ec(crate::errcode::CONVERT_NO_SETS));
    }
    if ids.len() > MAX_SETS_PER_CALL {
        let mut a = String::new();
        push_dec(&mut a, MAX_SETS_PER_CALL as u64);
        let mut b = String::new();
        push_dec(&mut b, ids.len() as u64);
        return Err(crate::errcode::ec2(crate::errcode::CONVERT_TOO_MANY, a.as_str(), b.as_str()));
    }
    Ok(ids)
}

} // verus!

verus! {

use crate::realm_db::{LazerSetFileIndex, pair_views};

/// Position of the first index entry (among the first `n`) with online id `id`, -1 when none.
pub open spec fn first_with_id(index: Seq<LazerSetFileIndex>, id: i64, n: int) -> int
    decreases n,
{
    if n <= 0 {
        -1
    } else if first_with_id(index, id, n - 1) >= 0 {
        first_with_id(index, id, n - 1)
    } else if index[n - 1].online_id == id {
        n - 1
    } else {
        -1
    }
}

/// The index entry a requested id converts from, -1 when it has none.
pub open spec fn entry_of(index: Seq<LazerSetFileIndex>, id: i64) -> int {
    if id <= 0 { -1 } else { first_with_id(index, id, index.len() as int) }
}

/// Index entries the first `n` requested ids convert from, in request order.
pub open spec fn planned_sources(ids: Seq<i64>, index: Seq<LazerSetFileIndex>, n: int) -> Seq<int>
    decreases n,
{
    if n <= 0 {
        Seq::empty()
    } else {
        let prev = planned_sources(ids, index, n - 1);
        if entry_of(index, ids[n - 1]) >= 0 { prev.push(entry_of(index, ids[n - 1])) } else { prev }
    }
}

/// The error a requested id fails with before conversion: local sets (id <= 0) cannot be
/// addressed, other ids missing from the index are not found.
pub open spec fn plan_error(id: i64) -> Seq<char> {
    if id <= 0 { crate::errcode::CONVERT_LOCAL_UNSUPPORTED@ } else { crate::errcode::CONVERT_SET_NOT_FOUND@ }
}

/// (id, error) of the first `n` requested ids that fail before conversion, in request order.
pub open spec fn planned_failures(ids: Seq<i64>, index: Seq<LazerSetFileIndex>, n: int) -> Seq<(i64, Seq<char>)>
    decreases n,
{
    if n <= 0 {
        Seq::empty()
    } else {
        let prev = planned_failures(ids, index, n - 1);
        if entry_of(index, ids[n - 1]) < 0 { prev.push((ids[n - 1], plan_error(ids[n - 1]))) } else { prev }
    }
}

/// A conversion source made from an index entry.
pub open spec fn source_from(s: SetSource, e: LazerSetFileIndex) -> bool {
    &&& s.set_id == e.online_id
    &&& s.title@ == e.title@
    &&& s.artist@ == e.artist@
    &&& pair_views(s.files@) == pair_views(e.files@)
}

/// A failed result carrying only an error.
pub open spec fn failure_of(r: ConvertSetResult, id: i64, err: Seq<char>) -> bool {
    &&& r.set_id == id
    &&& !r.ok
    &&& r.output is None
    &&& r.files == 0
    &&& r.bytes == 0
    &&& (r.error matches Some(e) && e@ == err)
    &&& r.warnings@.len() == 0
}

proof fn lemma_first_with_id_stays(index: Seq<LazerSetFileIndex>, id: i64, m: int, n: int)
    requires
        first_with_id(index, id, m) >= 0,
        m <= n,
    ensures
        first_with_id(index, id, n) == first_with_id(index, id, m),
    decreases n - m,
{
    if n > m {
        lemma_first_with_id_stays(index, id, m, n - 1);
    }
}

fn entry_index(index: &Vec<LazerSetFileIndex>, id: i64) -> (r: Option<usize>)
    ensures
        match r {
            Some(k) => k as int == first_with_id(index@, id, index@.len() as int) && k < index@.len(),
            None => first_with_id(index@, id, index@.len() as int) < 0,
        },
{
    let mut k: usize = 0;
    while k < index.len()
        invariant
            k <= index.len(),
            first_with_id(index@, id, k as int) < 0,
        decreases index.len() - k,
    {
        if index[k].online_id == id {
            proof {
                lemma_first_with_id_stays(index@, id, k + 1, index@.len() as int);
            }
            return Some(k);
        }
        k += 1;
    }
    None
}

fn clone_files(files: &Vec<(String, String)>) -> (r: Vec<(String, String)>)
    ensures
        pair_views(r@) == pair_views(files@),
{
    let mut out: Vec<(String, String)> = Vec::new();
    let mut i: usize = 0;
    while i < files.len()
        invariant
            i <= files.len(),
            pair_views(out@) == pair_views(files@).take(i as int),
        decreases files.len() - i,
    {
        let a = files[i].0.clone();
        let b = files[i].1.clone();
        let ghost before = pair_views(out@);
        out.push((a, b));
        assert(pair_views(out@) =~= before.push((files@[i as int].0@, files@[i as int].1@)));
        assert(pair_views(files@).take(i + 1) =~= pair_views(files@).take(i as int).push((files@[i as int].0@, files@[i as int].1@)));
        i += 1;
    }
    assert(pair_views(files@).take(files.len() as int) =~= pair_views(files@));
    out
}

/// Splits the requested ids, in order, into the sources to convert (from the first index
/// entry with that id) and results that fail at once (local or unknown sets).
pub fn plan_sources(ids: &[i64], index: &Vec<LazerSetFileIndex>) -> (r: (Vec<SetSource>, Vec<ConvertSetResult>))
    ensures
        r.0@.len() == planned_sources(ids@, index@, ids@.len() as int).len(),
        forall|k: int| 0 <= k < r.0@.len() ==> source_from(#[trigger] r.0@[k], index@[planned_sources(ids@, index@, ids@.len() as int)[k]]),
        r.1@.len() == planned_failures(ids@, index@, ids@.len() as int).len(),
        forall|k: int| 0 <= k < r.1@.len() ==> failure_of(#[trigger] r.1@[k], planned_failures(ids@, index@, ids@.len() as int)[k].0, planned_failures(ids@, index@, ids@.len() as int)[k].1),
{
    let mut sources: Vec<SetSource> = Vec::new();
    let mut failures: Vec<ConvertSetResult> = Vec::new();
    let mut i: usize = 0;
    while i < ids.len()
        invariant
            i <= ids.len(),
            sources@.len() == planned_sources(ids@, index@, i as int).len(),
            forall|k: int| 0 <= k < sources@.len() ==> source_from(#[trigger] sources@[k], index@[planned_sources(ids@, index@, i as int)[k]]),
            forall|k: int| 0 <= k < planned_sources(ids@, index@, i as int).len() ==> 0 <= #[trigger] planned_sources(ids@, index@, i as int)[k] < index@.len(),
            failures@.len() == planned_failures(ids@, index@, i as int).len(),
            forall|k: int| 0 <= k < failures@.len() ==> failure_of(#[trigger] failures@[k], planned_failures(ids@, index@, i as int)[k].0, planned_failures(ids@, index@, i as int)[k].1),
        decreases ids.len() - i,
    {
        let id = ids[i];
        let ghost sb = sources@;
        let ghost fb = failures@;
        if id <= 0 {
            failures.push(ConvertSetResult {
                set_id: id,
                ok: false,
                output: None,
                files: 0,
                bytes: 0,
                error: Some(crate::errcode::ec(crate::errcode::CONVERT_LOCAL_UNSUPPORTED)),
                warnings: Vec::new(),
            });
            assert forall|k: int| 0 <= k < failures@.len() implies failure_of(#[trigger] failures@[k], planned_failures(ids@, index@, i + 1)[k].0, planned_failures(ids@, index@, i + 1)[k].1) by {
                if k < fb.len() {
                    assert(failures@[k] == fb[k]);
                }
            }
        } else {
            match entry_index(index, id) {
                Some(k) => {
                    let e = &index[k];
                    sources.push(SetSource {
                        set_id: e.online_id,
                        title: e.title.clone(),
                        artist: e.artist.clone(),
                        files: clone_files(&e.files),
                    });
                    assert forall|j: int| 0 <= j < sources@.len() implies source_from(#[trigger] sources@[j], index@[planned_sources(ids@, index@, i + 1)[j]]) by {
                        if j < sb.len() {
                            assert(sources@[j] == sb[j]);
                        }
                    }
                },
                None => {
                    failures.push(ConvertSetResult {
                        set_id: id,
                        ok: false,
                        output: None,
                        files: 0,
                        bytes: 0,
                        error: Some(crate::errcode::ec(crate::errcode::CONVERT_SET_NOT_FOUND)),
                        warnings: Vec::new(),
                    });
                    assert forall|j: int| 0 <= j < failures@.len() implies failure_of(#[trigger] failures@[j], planned_failures(ids@, index@, i + 1)[j].0, planned_failures(ids@, index@, i + 1)[j].1) by {
                        if j < fb.len() {
                            assert(failures@[j] == fb[j]);
                        }
                    }
                },
            }
        }
        i += 1;
    }
    (sources, failures)
}

} // verus!

verus! {

use crate::thumbs::{windows_safe, sanitized_names_are_safe};

/// Entry paths inside a converted set cannot leave it: every piece is a Windows-safe name
/// (never empty, no separator, not `.` or `..`, as none ends in a dot).
pub proof fn rel_path_pieces_are_safe(name: Seq<char>)
    ensures
        forall|k: int| 0 <= k < safe_parts(segments(name)).len() ==> windows_safe(#[trigger] safe_parts(segments(name))[k]),
{
    lemma_safe_parts(segments(name));
}

proof fn lemma_safe_parts(segs: Seq<Seq<char>>)
    ensures
        forall|k: int| 0 <= k < safe_parts(segs).len() ==> windows_safe(#[trigger] safe_parts(segs)[k]),
    decreases segs.len(),
{
    if segs.len() > 0 {
        lemma_safe_parts(segs.drop_last());
        let p = safe_parts(segs.drop_last());
        if kept_segment(segs.last()) {
            sanitized_names_are_safe(segs.last());
            assert forall|k: int| 0 <= k < safe_parts(segs).len() implies windows_safe(#[trigger] safe_parts(segs)[k]) by {
                if k < p.len() {
                    assert(safe_parts(segs)[k] == p[k]);
                }
            }
        }
    }
}

} // verus!
