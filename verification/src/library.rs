//! Local libraries (a stable Songs folder, a folder of `.osz` archives): what a set folder or
//! archive declares through its `.osu` files, and the names the scan looks for.
use vstd::prelude::*;
use md5::Digest;
use crate::osu_parser::OsuText;
use crate::thumbs::{hex_text, push_hex};
use crate::text::{chars_of, lowercase, to_lower, str_eq, push_char, ends_with, eq_ignore_ascii_case, eq_ignore_case_range};

verus! {

/// MD5 digest of a byte string.
pub uninterp spec fn md5_of(data: Seq<u8>) -> Seq<u8>;

/// `md5::Md5::digest`: the 16-byte MD5 digest of `data`.
#[verifier::external_body]
fn md5_digest(data: &[u8]) -> (r: Vec<u8>)
    ensures
        r@ == md5_of(data@),
        r@.len() == 16,
{
    md5::Md5::digest(data).to_vec()
}

/// MD5 of a `.osu` file's bytes as 32 lower-case hex digits (how osu! identifies a
/// difficulty).
pub fn bytes_md5(bytes: &[u8]) -> (r: String)
    ensures
        r@ == hex_text(md5_of(bytes@)),
{
    let d = md5_digest(bytes);
    let mut s = String::new();
    push_hex(&mut s, d.as_slice());
    s
}

/// `\` turned into `/`.
pub open spec fn slash_path(s: Seq<char>) -> Seq<char> {
    s.map_values(|c: char| if c == '\\' { '/' } else { c })
}

/// An archive entry name with `\` separators turned into `/`.
pub fn slash_name(name: &str) -> (r: String)
    ensures
        r@ == slash_path(name@),
{
    let v = chars_of(name);
    let mut s = String::new();
    let mut i: usize = 0;
    while i < v.len()
        invariant
            i <= v@.len(),
            v@ == name@,
            s@ == slash_path(v@.take(i as int)),
        decreases v@.len() - i,
    {
        let c = if v[i] == '\\' { '/' } else { v[i] };
        push_char(&mut s, c);
        assert(slash_path(v@.take(i + 1)) =~= slash_path(v@.take(i as int)).push(c));
        i += 1;
    }
    assert(v@.take(v@.len() as int) =~= v@);
    s
}

/// A `.osu` at the root of an archive: its lower-cased name ends with `.osu` and has no `/`.
pub open spec fn root_osu_spec(name: Seq<char>) -> bool {
    ends_with(lowercase(name), ".osu"@) && !name.contains('/')
}

/// Whether an archive entry is a difficulty the scan reads.
pub fn is_root_osu(name: &str) -> (b: bool)
    ensures
        b == root_osu_spec(name@),
{
    let l = to_lower(name);
    let lv = chars_of(l.as_str());
    let p = chars_of(".osu");
    assert(lv@.subrange(0, lv@.len() as int) =~= lv@);
    if !crate::text::has_suffix(lv.as_slice(), 0, lv.len(), p.as_slice()) {
        return false;
    }
    let v = chars_of(name);
    let mut i: usize = 0;
    while i < v.len()
        invariant
            i <= v@.len(),
            v@ == name@,
            forall|j: int| 0 <= j < i ==> v@[j] != '/',
        decreases v@.len() - i,
    {
        if v[i] == '/' {
            assert(name@.contains('/')) by {
                assert(name@[i as int] == '/');
            }
            return false;
        }
        i += 1;
    }
    true
}

} // verus!

verus! {

/// What a local set takes from its difficulties' texts; the background file is an index into
/// the names the folder or archive holds.
#[derive(Debug)]
pub struct LocalSet {
    pub beatmapset_id: i64,
    pub title: String,
    pub title_unicode: String,
    pub artist: String,
    pub artist_unicode: String,
    pub creator: String,
    pub source: String,
    pub tags: String,
    pub background: Option<String>,
    pub background_file: Option<usize>,
    pub audio_filename: Option<String>,
}

/// The first background any difficulty names.
pub open spec fn first_bg(metas: Seq<OsuText>) -> Option<Seq<char>>
    decreases metas.len(),
{
    if metas.len() == 0 {
        None
    } else {
        match metas[0].background {
            Some(b) => Some(b@),
            None => first_bg(metas.drop_first()),
        }
    }
}

/// A folder file matches the background name ignoring ASCII case; an archive entry matches
/// it lower-cased, with the name's `\` turned into `/`.
pub open spec fn name_matches(file: Seq<char>, bg: Seq<char>, osz: bool) -> bool {
    if osz { lowercase(file) == lowercase(slash_path(bg)) } else { eq_ignore_ascii_case(file, bg) }
}

/// Index of the first name matching `bg`, -1 when none does.
pub open spec fn first_match(names: Seq<Seq<char>>, bg: Seq<char>, osz: bool, n: int) -> int
    decreases n,
{
    if n <= 0 {
        -1
    } else if first_match(names, bg, osz, n - 1) >= 0 {
        first_match(names, bg, osz, n - 1)
    } else if name_matches(names[n - 1], bg, osz) {
        n - 1
    } else {
        -1
    }
}

/// A local set: identity and metadata from the first difficulty, the first background named,
/// the file holding it, and the first difficulty's audio file (none when empty).
pub open spec fn local_matches(s: LocalSet, metas: Seq<OsuText>, names: Seq<Seq<char>>, osz: bool) -> bool {
    let m = metas[0];
    &&& s.beatmapset_id == m.beatmapset_id
    &&& s.title@ == m.title@
    &&& s.title_unicode@ == m.title_unicode@
    &&& s.artist@ == m.artist@
    &&& s.artist_unicode@ == m.artist_unicode@
    &&& s.creator@ == m.creator@
    &&& s.source@ == m.source@
    &&& s.tags@ == m.tags@
    &&& (match first_bg(metas) {
        Some(b) => s.background matches Some(x) && x@ == b && (match s.background_file {
            Some(i) => i as int == first_match(names, b, osz, names.len() as int) && i < names.len(),
            None => first_match(names, b, osz, names.len() as int) < 0,
        }),
        None => s.background is None && s.background_file is None,
    })
    &&& (if m.audio_filename@.len() == 0 { s.audio_filename is None } else { s.audio_filename matches Some(a) && a@ == m.audio_filename@ })
}

pub open spec fn name_views(v: Seq<String>) -> Seq<Seq<char>> {
    v.map_values(|s: String| s@)
}

fn find_bg(metas: &Vec<OsuText>) -> (r: Option<String>)
    ensures
        match first_bg(metas@) {
            Some(b) => r matches Some(x) && x@ == b,
            None => r is None,
        },
{
    let mut i: usize = 0;
    assert(metas@.skip(0) =~= metas@);
    while i < metas.len()
        invariant
            i <= metas@.len(),
            first_bg(metas@) == first_bg(metas@.skip(i as int)),
        decreases metas@.len() - i,
    {
        assert(metas@.skip(i as int).drop_first() =~= metas@.skip(i + 1));
        match &metas[i].background {
            Some(b) => {
                return Some(b.clone());
            },
            None => {},
        }
        i += 1;
    }
    None
}

fn matches_name(file: &String, bg: &String, osz: bool) -> (b: bool)
    ensures
        b == name_matches(file@, bg@, osz),
{
    if osz {
        let a = to_lower(file.as_str());
        let s = slash_name(bg.as_str());
        let c = to_lower(s.as_str());
        str_eq(a.as_str(), c.as_str())
    } else {
        let f = chars_of(file.as_str());
        let g = chars_of(bg.as_str());
        assert(f@.subrange(0, f@.len() as int) =~= f@);
        eq_ignore_case_range(f.as_slice(), 0, f.len(), g.as_slice())
    }
}

fn find_match(names: &Vec<String>, b: &String, osz: bool) -> (r: Option<usize>)
    ensures
        match r {
            Some(i) => i as int == first_match(name_views(names@), b@, osz, names@.len() as int) && i < names@.len(),
            None => first_match(name_views(names@), b@, osz, names@.len() as int) < 0,
        },
{
    let mut i: usize = 0;
    while i < names.len()
        invariant
            i <= names@.len(),
            first_match(name_views(names@), b@, osz, i as int) < 0,
        decreases names@.len() - i,
    {
        if matches_name(&names[i], b, osz) {
            proof {
                lemma_first_match_stays(name_views(names@), b@, osz, i + 1, names@.len() as int);
            }
            return Some(i);
        }
        i += 1;
    }
    None
}

/// The set a folder or archive holds, from its difficulties' texts (in scan order) and the
/// names of its files (`osz`: archive entries); none without difficulties.
pub fn local_set(metas: &Vec<OsuText>, names: &Vec<String>, osz: bool) -> (r: Option<LocalSet>)
    ensures
        metas@.len() == 0 ==> r is None,
        metas@.len() > 0 ==> (r matches Some(s) && local_matches(s, metas@, name_views(names@), osz)),
{
    if metas.len() == 0 {
        return None;
    }
    let m = &metas[0];
    let background = find_bg(metas);
    let background_file: Option<usize> = match &background {
        Some(b) => find_match(names, b, osz),
        None => None,
    };
    let audio_filename = if m.audio_filename.as_str().is_empty() { None } else { Some(m.audio_filename.clone()) };
    Some(LocalSet {
        beatmapset_id: m.beatmapset_id,
        title: m.title.clone(),
        title_unicode: m.title_unicode.clone(),
        artist: m.artist.clone(),
        artist_unicode: m.artist_unicode.clone(),
        creator: m.creator.clone(),
        source: m.source.clone(),
        tags: m.tags.clone(),
        background,
        background_file,
        audio_filename,
    })
}

proof fn lemma_first_match_stays(names: Seq<Seq<char>>, bg: Seq<char>, osz: bool, m: int, n: int)
    requires
        first_match(names, bg, osz, m) >= 0,
        m <= n,
    ensures
        first_match(names, bg, osz, n) == first_match(names, bg, osz, m),
    decreases n - m,
{
    if n > m {
        lemma_first_match_stays(names, bg, osz, m, n - 1);
    }
}

} // verus!
