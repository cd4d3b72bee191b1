//! `.osu` beatmap text: sections, `key:value` metadata, the background event, uninherited
//! timing points and hit objects. Floating-point values are kept as their text.
use vstd::prelude::*;
use crate::text::{chars_of, string_of_range, trim, trim_range, starts_with, ends_with, has_prefix, has_suffix, first_index, first_index_of, split_char, split_ranges, parse_u64_range, parse_u64_spec, parse_i64_range, parse_i64_spec};

verus! {

/// The trimmed lines of a text (split at `\n`; a `\r` before it is white space).
pub open spec fn osu_lines(content: Seq<char>) -> Seq<Seq<char>> {
    split_char(content, '\n').map_values(|l: Seq<char>| trim(l))
}

/// Empty lines and `//` comments carry nothing.
pub open spec fn is_skip(l: Seq<char>) -> bool {
    l.len() == 0 || starts_with(l, "//"@)
}

/// A section header `[Name]`.
pub open spec fn is_header(l: Seq<char>) -> bool {
    starts_with(l, "["@) && ends_with(l, "]"@)
}

pub open spec fn header_name(l: Seq<char>) -> Seq<char> {
    l.subrange(1, l.len() - 1)
}

/// The section in effect after the first `n` lines (empty before any header).
pub open spec fn section_after(lines: Seq<Seq<char>>, n: int) -> Seq<char>
    decreases n,
{
    if n <= 0 {
        Seq::empty()
    } else if !is_skip(lines[n - 1]) && is_header(lines[n - 1]) {
        header_name(lines[n - 1])
    } else {
        section_after(lines, n - 1)
    }
}

/// Line `i` is a content line of section `sect`.
pub open spec fn in_section(lines: Seq<Seq<char>>, i: int, sect: Seq<char>) -> bool {
    !is_skip(lines[i]) && !is_header(lines[i]) && section_after(lines, i) == sect
}

/// `key:value` split at the first `:`, both trimmed.
pub open spec fn kv_of(l: Seq<char>) -> Option<(Seq<char>, Seq<char>)> {
    let k = first_index_of(l, ':');
    if k < 0 { None } else { Some((trim(l.take(k)), trim(l.skip(k + 1)))) }
}

/// Whether line `i` is a `key:` line of section `sect`.
pub open spec fn kv_line(lines: Seq<Seq<char>>, i: int, sect: Seq<char>, key: Seq<char>) -> bool {
    in_section(lines, i, sect) && (match kv_of(lines[i]) {
        Some(kv) => kv.0 == key,
        None => false,
    })
}

/// Value of the last `key:` line of section `sect` among the first `n` lines.
pub open spec fn last_kv(lines: Seq<Seq<char>>, n: int, sect: Seq<char>, key: Seq<char>) -> Option<Seq<char>>
    decreases n,
{
    if n <= 0 {
        None
    } else if kv_line(lines, n - 1, sect, key) {
        Some(kv_of(lines[n - 1]).unwrap().1)
    } else {
        last_kv(lines, n - 1, sect, key)
    }
}

/// A text value, empty when absent.
pub open spec fn kv_text(lines: Seq<Seq<char>>, n: int, sect: Seq<char>, key: Seq<char>) -> Seq<char> {
    match last_kv(lines, n, sect, key) {
        Some(v) => v,
        None => Seq::empty(),
    }
}

/// A `u8` value, 0 when absent or unreadable.
pub open spec fn u8_of(o: Option<Seq<char>>) -> u8 {
    match o {
        Some(s) => match parse_u64_spec(s) {
            Some(x) => if x <= 255 { x as u8 } else { 0 },
            None => 0,
        },
        None => 0,
    }
}

/// An `i64` value, 0 when absent or unreadable.
pub open spec fn i64_of(o: Option<Seq<char>>) -> i64 {
    match o {
        Some(s) => match parse_i64_spec(s) {
            Some(x) => x,
            None => 0,
        },
        None => 0,
    }
}

/// The background of an `[Events]` line `0,0,"name",...`.
pub open spec fn bg_of_line(l: Seq<char>) -> Option<Seq<char>> {
    if starts_with(l, "0,0,\""@) {
        let rest = l.skip(5);
        let q = first_index_of(rest, '"');
        if q >= 0 { Some(rest.take(q)) } else { None }
    } else {
        None
    }
}

/// The background of the last `[Events]` line naming one, among the first `n` lines.
pub open spec fn last_bg(lines: Seq<Seq<char>>, n: int) -> Option<Seq<char>>
    decreases n,
{
    if n <= 0 {
        None
    } else if in_section(lines, n - 1, "Events"@) && bg_of_line(lines[n - 1]) is Some {
        bg_of_line(lines[n - 1])
    } else {
        last_bg(lines, n - 1)
    }
}

/// The (offset, beat length) texts of the uninherited `[TimingPoints]` lines (seven or more
/// fields, the seventh reading 1), among the first `n` lines.
pub open spec fn timing_upto(lines: Seq<Seq<char>>, n: int) -> Seq<(Seq<char>, Seq<char>)>
    decreases n,
{
    if n <= 0 {
        Seq::empty()
    } else {
        let prev = timing_upto(lines, n - 1);
        let parts = split_char(lines[n - 1], ',');
        if in_section(lines, n - 1, "TimingPoints"@) && parts.len() >= 7 && parse_i64_spec(parts[6]) == Some(1i64) {
            prev.push((parts[0], parts[1]))
        } else {
            prev
        }
    }
}

/// Number of `[HitObjects]` lines among the first `n`.
pub open spec fn hit_count(lines: Seq<Seq<char>>, n: int) -> nat
    decreases n,
{
    if n <= 0 {
        0
    } else {
        hit_count(lines, n - 1) + if in_section(lines, n - 1, "HitObjects"@) { 1nat } else { 0nat }
    }
}

/// Latest hit-object time (third field) among the first `n` lines, at least 0.
pub open spec fn max_time(lines: Seq<Seq<char>>, n: int) -> i64
    decreases n,
{
    if n <= 0 {
        0
    } else {
        let prev = max_time(lines, n - 1);
        let parts = split_char(lines[n - 1], ',');
        if in_section(lines, n - 1, "HitObjects"@) && parts.len() >= 3 {
            match parse_i64_spec(parts[2]) {
                Some(t) => if t > prev { t } else { prev },
                None => prev,
            }
        } else {
            prev
        }
    }
}

} // verus!

verus! {

/// What a `.osu` text declares. `cs`, `ar`, `od` and `hp` are the texts of the
/// `[Difficulty]` values (empty when absent); `timing` holds the uninherited timing points'
/// offset and beat-length texts; `total_ms` is the latest hit-object time plus 600.
#[derive(Debug)]
pub struct OsuText {
    pub audio_filename: String,
    pub mode: u8,
    pub title: String,
    pub title_unicode: String,
    pub artist: String,
    pub artist_unicode: String,
    pub creator: String,
    pub version: String,
    pub source: String,
    pub tags: String,
    pub beatmap_id: i64,
    pub beatmapset_id: i64,
    pub cs: String,
    pub ar: String,
    pub od: String,
    pub hp: String,
    pub timing: Vec<(String, String)>,
    pub total_ms: i64,
    pub object_count: u32,
    pub background: Option<String>,
}

pub open spec fn timing_views(v: Seq<(String, String)>) -> Seq<(Seq<char>, Seq<char>)> {
    v.map_values(|e: (String, String)| (e.0@, e.1@))
}

/// The fields that the first `n` lines set.
pub open spec fn text_upto(t: OsuText, lines: Seq<Seq<char>>, n: int) -> bool {
    &&& t.audio_filename@ == kv_text(lines, n, "General"@, "AudioFilename"@)
    &&& t.mode == u8_of(last_kv(lines, n, "General"@, "Mode"@))
    &&& t.title@ == kv_text(lines, n, "Metadata"@, "Title"@)
    &&& t.title_unicode@ == kv_text(lines, n, "Metadata"@, "TitleUnicode"@)
    &&& t.artist@ == kv_text(lines, n, "Metadata"@, "Artist"@)
    &&& t.artist_unicode@ == kv_text(lines, n, "Metadata"@, "ArtistUnicode"@)
    &&& t.creator@ == kv_text(lines, n, "Metadata"@, "Creator"@)
    &&& t.version@ == kv_text(lines, n, "Metadata"@, "Version"@)
    &&& t.source@ == kv_text(lines, n, "Metadata"@, "Source"@)
    &&& t.tags@ == kv_text(lines, n, "Metadata"@, "Tags"@)
    &&& t.beatmap_id == i64_of(last_kv(lines, n, "Metadata"@, "BeatmapID"@))
    &&& t.beatmapset_id == i64_of(last_kv(lines, n, "Metadata"@, "BeatmapSetID"@))
    &&& t.cs@ == kv_text(lines, n, "Difficulty"@, "CircleSize"@)
    &&& t.ar@ == kv_text(lines, n, "Difficulty"@, "ApproachRate"@)
    &&& t.od@ == kv_text(lines, n, "Difficulty"@, "OverallDifficulty"@)
    &&& t.hp@ == kv_text(lines, n, "Difficulty"@, "HPDrainRate"@)
    &&& timing_views(t.timing@) == timing_upto(lines, n)
    &&& (match last_bg(lines, n) {
        Some(b) => t.background matches Some(s) && s@ == b,
        None => t.background is None,
    })
}

/// `v[lo..hi]` is exactly `p`.
fn range_is(v: &Vec<char>, lo: usize, hi: usize, p: &str) -> (b: bool)
    requires
        lo <= hi <= v@.len(),
    ensures
        b == (v@.subrange(lo as int, hi as int) == p@),
{
    let pv = chars_of(p);
    if hi - lo != pv.len() {
        return false;
    }
    let r = has_prefix(v.as_slice(), lo, hi, pv.as_slice());
    assert(v@.subrange(lo as int, hi as int).subrange(0, pv@.len() as int) =~= v@.subrange(lo as int, hi as int));
    r
}

fn kv_ranges(v: &Vec<char>, a: usize, b: usize) -> (r: Option<(usize, usize, usize, usize)>)
    requires
        a <= b <= v@.len(),
    ensures
        match kv_of(v@.subrange(a as int, b as int)) {
            Some(kv) => r matches Some((ka, kb, va, vb)) && ka <= kb <= v@.len() && va <= vb <= v@.len()
                && v@.subrange(ka as int, kb as int) == kv.0 && v@.subrange(va as int, vb as int) == kv.1,
            None => r is None,
        },
{
    let ghost l = v@.subrange(a as int, b as int);
    match first_index(v.as_slice(), a, b, ':') {
        None => None,
        Some(k) => {
            let c = a + k;
            let (ka, kb) = trim_range(v.as_slice(), a, c);
            let (va, vb) = trim_range(v.as_slice(), c + 1, b);
            assert(l.take(k as int) =~= v@.subrange(a as int, c as int));
            assert(l.skip(k + 1) =~= v@.subrange(c + 1, b as int));
            Some((ka, kb, va, vb))
        },
    }
}

} // verus!

verus! {

fn empty_text(Ghost(lines): Ghost<Seq<Seq<char>>>) -> (t: OsuText)
    ensures
        text_upto(t, lines, 0),
{
    let t = OsuText {
        audio_filename: String::new(),
        mode: 0,
        title: String::new(),
        title_unicode: String::new(),
        artist: String::new(),
        artist_unicode: String::new(),
        creator: String::new(),
        version: String::new(),
        source: String::new(),
        tags: String::new(),
        beatmap_id: 0,
        beatmapset_id: 0,
        cs: String::new(),
        ar: String::new(),
        od: String::new(),
        hp: String::new(),
        timing: Vec::new(),
        total_ms: 0,
        object_count: 0,
        background: None,
    };
    assert(timing_views(t.timing@) =~= timing_upto(lines, 0));
    t
}

proof fn lemma_section_literals()
    ensures
        "General"@.len() == 7 && "General"@[0] == 'G',
        "Metadata"@.len() == 8 && "Metadata"@[0] == 'M',
        "Difficulty"@.len() == 10 && "Difficulty"@[0] == 'D',
        "Events"@.len() == 6 && "Events"@[0] == 'E',
        "TimingPoints"@.len() == 12 && "TimingPoints"@[0] == 'T',
        "HitObjects"@.len() == 10 && "HitObjects"@[0] == 'H',
{
    reveal_strlit("General");
    reveal_strlit("Metadata");
    reveal_strlit("Difficulty");
    reveal_strlit("Events");
    reveal_strlit("TimingPoints");
    reveal_strlit("HitObjects");
}

proof fn lemma_key_literals()
    ensures
        "AudioFilename"@.len() == 13,
        "Mode"@.len() == 4,
        "Title"@.len() == 5,
        "TitleUnicode"@.len() == 12 && "TitleUnicode"@[0] == 'T',
        "Artist"@.len() == 6 && "Artist"@[0] == 'A',
        "ArtistUnicode"@.len() == 13,
        "Creator"@.len() == 7 && "Creator"@[0] == 'C',
        "Version"@.len() == 7 && "Version"@[0] == 'V',
        "Source"@.len() == 6 && "Source"@[0] == 'S',
        "Tags"@.len() == 4,
        "BeatmapID"@.len() == 9,
        "BeatmapSetID"@.len() == 12 && "BeatmapSetID"@[0] == 'B',
        "CircleSize"@.len() == 10,
        "ApproachRate"@.len() == 12,
        "OverallDifficulty"@.len() == 17,
        "HPDrainRate"@.len() == 11,
{
    reveal_strlit("AudioFilename");
    reveal_strlit("Mode");
    reveal_strlit("Title");
    reveal_strlit("TitleUnicode");
    reveal_strlit("Artist");
    reveal_strlit("ArtistUnicode");
    reveal_strlit("Creator");
    reveal_strlit("Version");
    reveal_strlit("Source");
    reveal_strlit("Tags");
    reveal_strlit("BeatmapID");
    reveal_strlit("BeatmapSetID");
    reveal_strlit("CircleSize");
    reveal_strlit("ApproachRate");
    reveal_strlit("OverallDifficulty");
    reveal_strlit("HPDrainRate");
}

} // verus!

verus! {

fn general_line(t: &mut OsuText, v: &Vec<char>, a: usize, b: usize, Ghost(lines): Ghost<Seq<Seq<char>>>, Ghost(k): Ghost<int>)
    requires
        a <= b <= v@.len(),
        0 <= k < lines.len(),
        lines[k] == v@.subrange(a as int, b as int),
        in_section(lines, k, "General"@),
        text_upto(*old(t), lines, k),
    ensures
        text_upto(*final(t), lines, k + 1),
{
    proof {
        lemma_section_literals();
        lemma_key_literals();
    }
    match kv_ranges(v, a, b) {
        Some((ka, kb, va, vb)) => {
            if range_is(v, ka, kb, "AudioFilename") {
                t.audio_filename = string_of_range(v.as_slice(), va, vb);
            } else if range_is(v, ka, kb, "Mode") {
                t.mode = match parse_u64_range(v.as_slice(), va, vb) {
                    Some(x) => if x <= 255 { x as u8 } else { 0 },
                    None => 0,
                };
            }
        },
        None => {},
    }
}

fn metadata_line(t: &mut OsuText, v: &Vec<char>, a: usize, b: usize, Ghost(lines): Ghost<Seq<Seq<char>>>, Ghost(k): Ghost<int>)
    requires
        a <= b <= v@.len(),
        0 <= k < lines.len(),
        lines[k] == v@.subrange(a as int, b as int),
        in_section(lines, k, "Metadata"@),
        text_upto(*old(t), lines, k),
    ensures
        text_upto(*final(t), lines, k + 1),
{
    proof {
        lemma_section_literals();
        lemma_key_literals();
    }
    match kv_ranges(v, a, b) {
        Some((ka, kb, va, vb)) => {
            if range_is(v, ka, kb, "Title") {
                t.title = string_of_range(v.as_slice(), va, vb);
            } else if range_is(v, ka, kb, "TitleUnicode") {
                t.title_unicode = string_of_range(v.as_slice(), va, vb);
            } else if range_is(v, ka, kb, "Artist") {
                t.artist = string_of_range(v.as_slice(), va, vb);
            } else if range_is(v, ka, kb, "ArtistUnicode") {
                t.artist_unicode = string_of_range(v.as_slice(), va, vb);
            } else if range_is(v, ka, kb, "Creator") {
                t.creator = string_of_range(v.as_slice(), va, vb);
            } else if range_is(v, ka, kb, "Version") {
                t.version = string_of_range(v.as_slice(), va, vb);
            } else if range_is(v, ka, kb, "Source") {
                t.source = string_of_range(v.as_slice(), va, vb);
            } else if range_is(v, ka, kb, "Tags") {
                t.tags = string_of_range(v.as_slice(), va, vb);
            } else if range_is(v, ka, kb, "BeatmapID") {
                t.beatmap_id = match parse_i64_range(v.as_slice(), va, vb) {
                    Some(x) => x,
                    None => 0,
                };
            } else if range_is(v, ka, kb, "BeatmapSetID") {
                t.beatmapset_id = match parse_i64_range(v.as_slice(), va, vb) {
                    Some(x) => x,
                    None => 0,
                };
            }
        },
        None => {},
    }
}

fn difficulty_line(t: &mut OsuText, v: &Vec<char>, a: usize, b: usize, Ghost(lines): Ghost<Seq<Seq<char>>>, Ghost(k): Ghost<int>)
    requires
        a <= b <= v@.len(),
        0 <= k < lines.len(),
        lines[k] == v@.subrange(a as int, b as int),
        in_section(lines, k, "Difficulty"@),
        text_upto(*old(t), lines, k),
    ensures
        text_upto(*final(t), lines, k + 1),
{
    proof {
        lemma_section_literals();
        lemma_key_literals();
    }
    match kv_ranges(v, a, b) {
        Some((ka, kb, va, vb)) => {
            if range_is(v, ka, kb, "CircleSize") {
                t.cs = string_of_range(v.as_slice(), va, vb);
            } else if range_is(v, ka, kb, "ApproachRate") {
                t.ar = string_of_range(v.as_slice(), va, vb);
            } else if range_is(v, ka, kb, "OverallDifficulty") {
                t.od = string_of_range(v.as_slice(), va, vb);
            } else if range_is(v, ka, kb, "HPDrainRate") {
                t.hp = string_of_range(v.as_slice(), va, vb);
            }
        },
        None => {},
    }
}

} // verus!

verus! {

fn events_line(t: &mut OsuText, v: &Vec<char>, a: usize, b: usize, Ghost(lines): Ghost<Seq<Seq<char>>>, Ghost(k): Ghost<int>)
    requires
        a <= b <= v@.len(),
        0 <= k < lines.len(),
        lines[k] == v@.subrange(a as int, b as int),
        in_section(lines, k, "Events"@),
        text_upto(*old(t), lines, k),
    ensures
        text_upto(*final(t), lines, k + 1),
{
    proof {
        lemma_section_literals();
        reveal_strlit("0,0,\"");
    }
    let p = chars_of("0,0,\"");
    if has_prefix(v.as_slice(), a, b, p.as_slice()) {
        let r0 = a + 5;
        let ghost l = v@.subrange(a as int, b as int);
        assert(l.skip(5) =~= v@.subrange(r0 as int, b as int));
        match first_index(v.as_slice(), r0, b, '"') {
            Some(q) => {
                assert(l.skip(5).take(q as int) =~= v@.subrange(r0 as int, (r0 + q) as int));
                t.background = Some(string_of_range(v.as_slice(), r0, r0 + q));
            },
            None => {},
        }
    }
}

fn timing_line(t: &mut OsuText, v: &Vec<char>, a: usize, b: usize, Ghost(lines): Ghost<Seq<Seq<char>>>, Ghost(k): Ghost<int>)
    requires
        a <= b <= v@.len(),
        0 <= k < lines.len(),
        lines[k] == v@.subrange(a as int, b as int),
        in_section(lines, k, "TimingPoints"@),
        text_upto(*old(t), lines, k),
    ensures
        text_upto(*final(t), lines, k + 1),
{
    proof {
        lemma_section_literals();
    }
    let parts = split_ranges(v.as_slice(), a, b, ',');
    if parts.len() >= 7 {
        let (s6, e6) = parts[6];
        if parse_i64_range(v.as_slice(), s6, e6) == Some(1i64) {
            let (s0, e0) = parts[0];
            let (s1, e1) = parts[1];
            let ghost before = timing_views(t.timing@);
            let x = string_of_range(v.as_slice(), s0, e0);
            let y = string_of_range(v.as_slice(), s1, e1);
            t.timing.push((x, y));
            assert(timing_views(t.timing@) =~= before.push((x@, y@)));
        }
    }
}

fn hit_line(cnt: &mut u64, maxt: &mut i64, v: &Vec<char>, a: usize, b: usize, Ghost(lines): Ghost<Seq<Seq<char>>>, Ghost(k): Ghost<int>)
    requires
        a <= b <= v@.len(),
        0 <= k < lines.len(),
        lines[k] == v@.subrange(a as int, b as int),
        in_section(lines, k, "HitObjects"@),
        *old(cnt) == hit_count(lines, k),
        *old(cnt) < u64::MAX,
        *old(maxt) == max_time(lines, k),
    ensures
        *final(cnt) == hit_count(lines, k + 1),
        *final(maxt) == max_time(lines, k + 1),
{
    *cnt = *cnt + 1;
    let parts = split_ranges(v.as_slice(), a, b, ',');
    if parts.len() >= 3 {
        let (s2, e2) = parts[2];
        match parse_i64_range(v.as_slice(), s2, e2) {
            Some(x) => {
                if x > *maxt {
                    *maxt = x;
                }
            },
            None => {},
        }
    }
}

} // verus!

verus! {

/// A line that sets no field leaves them all as they were.
proof fn lemma_text_step_quiet(t: OsuText, lines: Seq<Seq<char>>, k: int)
    requires
        0 <= k < lines.len(),
        text_upto(t, lines, k),
        !in_section(lines, k, "General"@),
        !in_section(lines, k, "Metadata"@),
        !in_section(lines, k, "Difficulty"@),
        !in_section(lines, k, "Events"@),
        !in_section(lines, k, "TimingPoints"@),
    ensures
        text_upto(t, lines, k + 1),
{
}

proof fn lemma_header_len(l: Seq<char>)
    requires
        is_header(l),
    ensures
        l.len() >= 2,
{
    reveal_strlit("[");
    reveal_strlit("]");
    if l.len() == 1 {
        assert(l.subrange(0, 1)[0] == '[');
        assert(l.subrange(0, 1)[0] == ']');
    }
}

fn line_is_skip(v: &Vec<char>, a: usize, b: usize) -> (r: bool)
    requires
        a <= b <= v@.len(),
    ensures
        r == is_skip(v@.subrange(a as int, b as int)),
{
    let p = chars_of("//");
    a == b || has_prefix(v.as_slice(), a, b, p.as_slice())
}

fn line_is_header(v: &Vec<char>, a: usize, b: usize) -> (r: bool)
    requires
        a <= b <= v@.len(),
    ensures
        r == is_header(v@.subrange(a as int, b as int)),
{
    let p = chars_of("[");
    let q = chars_of("]");
    has_prefix(v.as_slice(), a, b, p.as_slice()) && has_suffix(v.as_slice(), a, b, q.as_slice())
}

/// Reads a `.osu` text (see `OsuText`): lines are trimmed; empty lines and `//` comments are
/// skipped; `[Name]` opens a section; `[General]`, `[Metadata]` and `[Difficulty]` hold
/// `key:value` lines (the last of a key wins; numbers that do not read are 0); the last
/// `[Events]` line `0,0,"name"` names the background; `[TimingPoints]` lines with seven or more
/// fields whose seventh reads 1 are uninherited points; each `[HitObjects]` line counts, and
/// the third field is its time.
pub fn parse_osu(content: &str) -> (t: OsuText)
    ensures
        text_upto(t, osu_lines(content@), osu_lines(content@).len() as int),
        t.object_count == hit_count(osu_lines(content@), osu_lines(content@).len() as int) as u32,
        t.total_ms == vstd::wrapping::i64_specs::wrapping_add(max_time(osu_lines(content@), osu_lines(content@).len() as int), 600),
{
    let v = chars_of(content);
    let ghost lines = osu_lines(content@);
    let ghost pieces = split_char(v@, '\n');
    assert(v@.subrange(0, v@.len() as int) =~= v@);
    let rs = split_ranges(v.as_slice(), 0, v.len(), '\n');
    let mut t = empty_text(Ghost(lines));
    let mut sa: usize = 0;
    let mut sb: usize = 0;
    let mut cnt: u64 = 0;
    let mut maxt: i64 = 0;
    let mut k: usize = 0;
    assert(v@.subrange(0, 0) =~= Seq::<char>::empty());
    while k < rs.len()
        invariant
            v@ == content@,
            lines == osu_lines(content@),
            pieces == split_char(v@, '\n'),
            rs@.len() == pieces.len() == lines.len(),
            forall|j: int| 0 <= j < rs@.len() ==> (#[trigger] rs@[j]).0 <= rs@[j].1 <= v@.len()
                && v@.subrange(rs@[j].0 as int, rs@[j].1 as int) == pieces[j],
            k <= rs@.len(),
            sa <= sb <= v@.len(),
            v@.subrange(sa as int, sb as int) == section_after(lines, k as int),
            text_upto(t, lines, k as int),
            cnt == hit_count(lines, k as int),
            cnt <= k,
            maxt == max_time(lines, k as int),
        decreases rs@.len() - k,
    {
        let (lo, hi) = rs[k];
        let (a, b) = trim_range(v.as_slice(), lo, hi);
        assert(lines[k as int] == trim(pieces[k as int]));
        assert(lines[k as int] == v@.subrange(a as int, b as int));
        proof {
            lemma_section_literals();
        }
        if line_is_skip(&v, a, b) {
            proof {
                lemma_text_step_quiet(t, lines, k as int);
            }
        } else if line_is_header(&v, a, b) {
            proof {
                lemma_header_len(v@.subrange(a as int, b as int));
                lemma_text_step_quiet(t, lines, k as int);
            }
            sa = a + 1;
            sb = b - 1;
            assert(v@.subrange(sa as int, sb as int) =~= header_name(v@.subrange(a as int, b as int)));
        } else if range_is(&v, sa, sb, "General") {
            general_line(&mut t, &v, a, b, Ghost(lines), Ghost(k as int));
        } else if range_is(&v, sa, sb, "Metadata") {
            metadata_line(&mut t, &v, a, b, Ghost(lines), Ghost(k as int));
        } else if range_is(&v, sa, sb, "Difficulty") {
            difficulty_line(&mut t, &v, a, b, Ghost(lines), Ghost(k as int));
        } else if range_is(&v, sa, sb, "Events") {
            events_line(&mut t, &v, a, b, Ghost(lines), Ghost(k as int));
        } else if range_is(&v, sa, sb, "TimingPoints") {
            timing_line(&mut t, &v, a, b, Ghost(lines), Ghost(k as int));
        } else {
            proof {
                lemma_text_step_quiet(t, lines, k as int);
            }
            if range_is(&v, sa, sb, "HitObjects") {
                hit_line(&mut cnt, &mut maxt, &v, a, b, Ghost(lines), Ghost(k as int));
            }
        }
        k += 1;
    }
    t.object_count = cnt as u32;
    t.total_ms = maxt.wrapping_add(600);
    t
}

} // verus!

verus! {

/// A `key:value` line splits at its first `:`: the key is the trimmed text before it (so it
/// holds no `:`), and the value is the trimmed rest of the line, `:` included. A line without
/// `:` is no `key:value` line.
pub proof fn kv_splits_at_first_colon(l: Seq<char>, k: int)
    requires
        0 <= k < l.len(),
        l[k] == ':',
        forall|j: int| 0 <= j < k ==> l[j] != ':',
    ensures
        kv_of(l) == Some((trim(l.take(k)), trim(l.skip(k + 1)))),
        kv_of(l) matches Some(kv) && kv.1 == trim(l.subrange(k + 1, l.len() as int)),
{
    crate::text::lemma_first_index_of(l, ':', k);
    assert(l.skip(k + 1) =~= l.subrange(k + 1, l.len() as int));
}

/// A line without `:` gives no `key:value` pair.
pub proof fn kv_needs_colon(l: Seq<char>)
    requires
        forall|j: int| 0 <= j < l.len() ==> l[j] != ':',
    ensures
        kv_of(l) is None,
{
    crate::text::lemma_first_index_of(l, ':', -1);
}

} // verus!
