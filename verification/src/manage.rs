//! Library maintenance: the lazer read-only guard, collision-free names and duplicate detection.
use vstd::prelude::*;
use crate::text::string_views;
use crate::model::{DupMember, DuplicateGroup, SourceKind};
use crate::text::{chars_of, string_of, compare_chars, lex_order, lex_le, lemma_lex_props, lemma_lex_trans, push_char, push_range, push_str, push_i64, push_dec, int_text, dec_digits, string_of_range, to_lower, lowercase, starts_with, has_prefix, last_index, last_index_of, str_eq, eq_ignore_ascii_case, eq_ignore_case_range};
use crate::model::{FailedPath, LibraryCandidate, TrashReport, MoveReport, PackReport};

verus! {

/// What duplicate detection reads of a scanned beatmap set.
#[derive(Debug)]
pub struct SetRecord {
    pub beatmapset_id: i64,
    pub title: String,
    pub title_unicode: String,
    pub artist: String,
    pub artist_unicode: String,
    pub creator: String,
    /// One entry per difficulty: that `.osu` file's MD5 when known.
    pub md5s: Vec<Option<String>>,
    pub location: String,
    pub source_kind: SourceKind,
    pub date_added: Option<i64>,
}

impl SetRecord {
    pub open spec fn spec_display_title(&self) -> Seq<char> {
        if self.title@.len() > 0 { self.title@ } else { self.title_unicode@ }
    }

    pub open spec fn spec_display_artist(&self) -> Seq<char> {
        if self.artist@.len() > 0 { self.artist@ } else { self.artist_unicode@ }
    }

    /// Title, falling back to the Unicode title when the romanised one is empty.
    pub fn display_title(&self) -> (r: String)
        ensures
            r@ == self.spec_display_title(),
    {
        if !self.title.as_str().is_empty() {
            self.title.clone()
        } else {
            self.title_unicode.clone()
        }
    }

    /// Artist, falling back to the Unicode artist when the romanised one is empty.
    pub fn display_artist(&self) -> (r: String)
        ensures
            r@ == self.spec_display_artist(),
    {
        if !self.artist.as_str().is_empty() {
            self.artist.clone()
        } else {
            self.artist_unicode.clone()
        }
    }
}

/// The known MD5s of a set's difficulties, in difficulty order.
pub open spec fn present(m: Seq<Option<String>>) -> Seq<Seq<char>>
    decreases m.len(),
{
    if m.len() == 0 {
        Seq::empty()
    } else {
        let p = present(m.drop_last());
        match m.last() {
            Some(h) => p.push(h@),
            None => p,
        }
    }
}

// ── ordered collections as specs ────────────────────────────────────────────

/// The character views of a sequence of character vectors.
pub open spec fn views(v: Seq<Vec<char>>) -> Seq<Seq<char>> {
    v.map_values(|x: Vec<char>| x@)
}

/// `x` inserted into a strictly ascending sequence, unless already present.
pub open spec fn ins_unique(v: Seq<Seq<char>>, x: Seq<char>) -> Seq<Seq<char>>
    decreases v.len(),
{
    if v.len() == 0 {
        seq![x]
    } else if lex_order(x, v[0]) < 0 {
        seq![x] + v
    } else if lex_order(x, v[0]) == 0 {
        v
    } else {
        seq![v[0]] + ins_unique(v.drop_first(), x)
    }
}

/// The distinct strings of `s` in ascending order.
pub open spec fn sorted_unique(s: Seq<Seq<char>>) -> Seq<Seq<char>>
    decreases s.len(),
{
    if s.len() == 0 {
        Seq::empty()
    } else {
        ins_unique(sorted_unique(s.drop_last()), s.last())
    }
}

/// `x` inserted into an ascending sequence after every element not greater than it.
pub open spec fn ins_sorted(v: Seq<Seq<char>>, x: Seq<char>) -> Seq<Seq<char>>
    decreases v.len(),
{
    if v.len() == 0 {
        seq![x]
    } else if lex_order(x, v[0]) < 0 {
        seq![x] + v
    } else {
        seq![v[0]] + ins_sorted(v.drop_first(), x)
    }
}

/// The strings of `s` in ascending order, duplicates kept (a stable sort).
pub open spec fn sort_strs(s: Seq<Seq<char>>) -> Seq<Seq<char>>
    decreases s.len(),
{
    if s.len() == 0 {
        Seq::empty()
    } else {
        ins_sorted(sort_strs(s.drop_last()), s.last())
    }
}

/// `x` inserted into a strictly ascending sequence of integers, unless already present.
pub open spec fn ins_unique_int(v: Seq<i64>, x: i64) -> Seq<i64>
    decreases v.len(),
{
    if v.len() == 0 {
        seq![x]
    } else if x < v[0] {
        seq![x] + v
    } else if x == v[0] {
        v
    } else {
        seq![v[0]] + ins_unique_int(v.drop_first(), x)
    }
}

pub open spec fn sorted_unique_int(s: Seq<i64>) -> Seq<i64>
    decreases s.len(),
{
    if s.len() == 0 {
        Seq::empty()
    } else {
        ins_unique_int(sorted_unique_int(s.drop_last()), s.last())
    }
}

proof fn lemma_ins_unique_at(v: Seq<Seq<char>>, x: Seq<char>, p: int)
    requires
        0 <= p <= v.len(),
        forall|j: int| 0 <= j < p ==> lex_order(x, #[trigger] v[j]) > 0,
        p == v.len() || lex_order(x, v[p]) <= 0,
    ensures
        ins_unique(v, x) == if p < v.len() && lex_order(x, v[p]) == 0 {
            v
        } else {
            v.take(p) + seq![x] + v.skip(p)
        },
    decreases p,
{
    if p > 0 {
        lemma_ins_unique_at(v.drop_first(), x, p - 1);
        assert(v.drop_first().take(p - 1) =~= v.take(p).drop_first());
        assert(v.drop_first().skip(p - 1) =~= v.skip(p));
        assert(v.take(p) =~= seq![v[0]] + v.take(p).drop_first());
        assert(v =~= seq![v[0]] + v.drop_first());
        assert((seq![v[0]] + (v.drop_first().take(p - 1) + seq![x] + v.drop_first().skip(p - 1)))
            =~= v.take(p) + seq![x] + v.skip(p));
    } else {
        assert(v.take(0) + seq![x] + v.skip(0) =~= seq![x] + v);
    }
}

proof fn lemma_ins_sorted_at(v: Seq<Seq<char>>, x: Seq<char>, p: int)
    requires
        0 <= p <= v.len(),
        forall|j: int| 0 <= j < p ==> lex_order(x, #[trigger] v[j]) >= 0,
        p == v.len() || lex_order(x, v[p]) < 0,
    ensures
        ins_sorted(v, x) == v.take(p) + seq![x] + v.skip(p),
    decreases p,
{
    if p > 0 {
        lemma_ins_sorted_at(v.drop_first(), x, p - 1);
        assert(v.drop_first().take(p - 1) =~= v.take(p).drop_first());
        assert(v.drop_first().skip(p - 1) =~= v.skip(p));
        assert(v.take(p) =~= seq![v[0]] + v.take(p).drop_first());
        assert((seq![v[0]] + (v.drop_first().take(p - 1) + seq![x] + v.drop_first().skip(p - 1)))
            =~= v.take(p) + seq![x] + v.skip(p));
    } else {
        assert(v.take(0) + seq![x] + v.skip(0) =~= seq![x] + v);
    }
}

proof fn lemma_ins_unique_int_at(v: Seq<i64>, x: i64, p: int)
    requires
        0 <= p <= v.len(),
        forall|j: int| 0 <= j < p ==> x > #[trigger] v[j],
        p == v.len() || x <= v[p],
    ensures
        ins_unique_int(v, x) == if p < v.len() && x == v[p] {
            v
        } else {
            v.take(p) + seq![x] + v.skip(p)
        },
    decreases p,
{
    if p > 0 {
        lemma_ins_unique_int_at(v.drop_first(), x, p - 1);
        assert(v.drop_first().take(p - 1) =~= v.take(p).drop_first());
        assert(v.drop_first().skip(p - 1) =~= v.skip(p));
        assert(v.take(p) =~= seq![v[0]] + v.take(p).drop_first());
        assert(v =~= seq![v[0]] + v.drop_first());
        assert((seq![v[0]] + (v.drop_first().take(p - 1) + seq![x] + v.drop_first().skip(p - 1)))
            =~= v.take(p) + seq![x] + v.skip(p));
    } else {
        assert(v.take(0) + seq![x] + v.skip(0) =~= seq![x] + v);
    }
}

/// Inserts `x` into the strictly ascending `v` unless present (`ins_unique`).
fn insert_unique(v: &mut Vec<Vec<char>>, x: Vec<char>)
    ensures
        views(final(v)@) == ins_unique(views(old(v)@), x@),
{
    let mut p: usize = 0;
    while p < v.len() && compare_chars(&x, &v[p]) > 0
        invariant
            p <= v.len(),
            views(v@) == views(old(v)@),
            forall|j: int| 0 <= j < p ==> lex_order(x@, #[trigger] views(v@)[j]) > 0,
        decreases v.len() - p,
    {
        p += 1;
    }
    proof {
        lemma_ins_unique_at(views(v@), x@, p as int);
    }
    if p < v.len() && compare_chars(&x, &v[p]) == 0 {
        return;
    }
    let ghost x_view = x@;
    v.insert(p, x);
    assert(views(v@) =~= views(old(v)@).take(p as int) + seq![x_view] + views(old(v)@).skip(p as int));
}

/// Inserts `x` into the ascending `v` after every element not greater than it (`ins_sorted`).
fn insert_sorted(v: &mut Vec<Vec<char>>, x: Vec<char>)
    ensures
        views(final(v)@) == ins_sorted(views(old(v)@), x@),
{
    let mut p: usize = 0;
    while p < v.len() && compare_chars(&x, &v[p]) >= 0
        invariant
            p <= v.len(),
            views(v@) == views(old(v)@),
            forall|j: int| 0 <= j < p ==> lex_order(x@, #[trigger] views(v@)[j]) >= 0,
        decreases v.len() - p,
    {
        p += 1;
    }
    proof {
        lemma_ins_sorted_at(views(v@), x@, p as int);
    }
    let ghost x_view = x@;
    v.insert(p, x);
    assert(views(v@) =~= views(old(v)@).take(p as int) + seq![x_view] + views(old(v)@).skip(p as int));
}

/// Inserts `x` into the strictly ascending `v` unless present (`ins_unique_int`).
pub(crate) fn insert_unique_int(v: &mut Vec<i64>, x: i64)
    ensures
        final(v)@ == ins_unique_int(old(v)@, x),
{
    let mut p: usize = 0;
    while p < v.len() && x > v[p]
        invariant
            p <= v.len(),
            v@ == old(v)@,
            forall|j: int| 0 <= j < p ==> x > #[trigger] v@[j],
        decreases v.len() - p,
    {
        p += 1;
    }
    proof {
        lemma_ins_unique_int_at(v@, x, p as int);
    }
    if p < v.len() && x == v[p] {
        return;
    }
    v.insert(p, x);
    assert(v@ =~= old(v)@.take(p as int) + seq![x] + old(v)@.skip(p as int));
}

} // verus!

verus! {

pub open spec fn ints(v: Seq<usize>) -> Seq<int> {
    v.map_values(|i: usize| i as int)
}

/// Indices `< n` of the sets whose online id is `id`, ascending.
pub open spec fn holders_id(sets: Seq<SetRecord>, id: i64, n: int) -> Seq<int>
    decreases n,
{
    if n <= 0 {
        Seq::empty()
    } else {
        let h = holders_id(sets, id, n - 1);
        if sets[n - 1].beatmapset_id == id { h.push(n - 1) } else { h }
    }
}

/// Online ids `> 0` of the first `n` sets, in set order.
pub open spec fn positive_ids(sets: Seq<SetRecord>, n: int) -> Seq<i64>
    decreases n,
{
    if n <= 0 {
        Seq::empty()
    } else {
        let p = positive_ids(sets, n - 1);
        if sets[n - 1].beatmapset_id > 0 { p.push(sets[n - 1].beatmapset_id) } else { p }
    }
}

/// Indices `< n` of the sets having a difficulty with MD5 `h`, ascending.
pub open spec fn holders_md5(sets: Seq<SetRecord>, h: Seq<char>, n: int) -> Seq<int>
    decreases n,
{
    if n <= 0 {
        Seq::empty()
    } else {
        let p = holders_md5(sets, h, n - 1);
        if present(sets[n - 1].md5s@).contains(h) { p.push(n - 1) } else { p }
    }
}

/// Every known MD5 of the first `n` sets, in order.
pub open spec fn all_md5(sets: Seq<SetRecord>, n: int) -> Seq<Seq<char>>
    decreases n,
{
    if n <= 0 {
        Seq::empty()
    } else {
        all_md5(sets, n - 1) + present(sets[n - 1].md5s@)
    }
}

/// Parts joined with `|`.
pub open spec fn join_bar(parts: Seq<Seq<char>>) -> Seq<char>
    decreases parts.len(),
{
    if parts.len() == 0 {
        Seq::empty()
    } else if parts.len() == 1 {
        parts[0]
    } else {
        join_bar(parts.drop_last()) + seq!['|'] + parts.last()
    }
}

/// Fingerprint of a set: its known difficulty MD5s sorted and joined with `|`; none when
/// no MD5 is known.
pub open spec fn fingerprint_of(s: SetRecord) -> Option<Seq<char>> {
    if present(s.md5s@).len() == 0 {
        None
    } else {
        Some(join_bar(sort_strs(present(s.md5s@))))
    }
}

/// Indices `< n` of the local imports (online id `<= 0`) whose fingerprint is `fp`.
pub open spec fn holders_fp(sets: Seq<SetRecord>, fp: Seq<char>, n: int) -> Seq<int>
    decreases n,
{
    if n <= 0 {
        Seq::empty()
    } else {
        let p = holders_fp(sets, fp, n - 1);
        if sets[n - 1].beatmapset_id <= 0 && fingerprint_of(sets[n - 1]) == Some(fp) {
            p.push(n - 1)
        } else {
            p
        }
    }
}

/// Fingerprints of the local imports among the first `n` sets, in order.
pub open spec fn local_fps(sets: Seq<SetRecord>, n: int) -> Seq<Seq<char>>
    decreases n,
{
    if n <= 0 {
        Seq::empty()
    } else {
        let p = local_fps(sets, n - 1);
        if sets[n - 1].beatmapset_id <= 0 && fingerprint_of(sets[n - 1]) is Some {
            p.push(fingerprint_of(sets[n - 1])->0)
        } else {
            p
        }
    }
}

pub open spec fn online_dup(sets: Seq<SetRecord>) -> spec_fn(i64) -> bool {
    |id: i64| holders_id(sets, id, sets.len() as int).len() >= 2
}

pub open spec fn md5_dup(sets: Seq<SetRecord>) -> spec_fn(Seq<char>) -> bool {
    |h: Seq<char>| holders_md5(sets, h, sets.len() as int).len() >= 2
}

pub open spec fn fp_dup(sets: Seq<SetRecord>) -> spec_fn(Seq<char>) -> bool {
    |fp: Seq<char>| holders_fp(sets, fp, sets.len() as int).len() >= 2
}

/// Ids held by two or more sets, ascending.
pub open spec fn online_keys(sets: Seq<SetRecord>) -> Seq<i64> {
    sorted_unique_int(positive_ids(sets, sets.len() as int)).filter(online_dup(sets))
}

/// MD5s found in two or more sets, ascending.
pub open spec fn md5_keys(sets: Seq<SetRecord>) -> Seq<Seq<char>> {
    sorted_unique(all_md5(sets, sets.len() as int)).filter(md5_dup(sets))
}

/// Fingerprints shared by two or more local imports, ascending.
pub open spec fn fp_keys(sets: Seq<SetRecord>) -> Seq<Seq<char>> {
    sorted_unique(local_fps(sets, sets.len() as int)).filter(fp_dup(sets))
}

pub open spec fn online_plan(sets: Seq<SetRecord>) -> spec_fn(i64) -> GroupSpec {
    |id: i64| ("setOnlineId"@, "Online ID "@ + int_text(id as int), holders_id(sets, id, sets.len() as int))
}

pub open spec fn md5_plan(sets: Seq<SetRecord>) -> spec_fn(Seq<char>) -> GroupSpec {
    |h: Seq<char>| ("md5"@, "MD5 "@ + first8(h), holders_md5(sets, h, sets.len() as int))
}

pub open spec fn fp_plan(sets: Seq<SetRecord>) -> spec_fn(Seq<char>) -> GroupSpec {
    |fp: Seq<char>|
        (
            "identicalSet"@,
            sets[holders_fp(sets, fp, sets.len() as int)[0]].spec_display_title(),
            holders_fp(sets, fp, sets.len() as int),
        )
}

/// A planned group: (reason, label, member set indices).
pub type GroupSpec = (Seq<char>, Seq<char>, Seq<int>);

pub open spec fn first8(h: Seq<char>) -> Seq<char> {
    if h.len() < 8 { h } else { h.take(8) }
}

/// Groups before sorting: online-id groups, then MD5 groups, then identical local sets,
/// each in ascending key order.
pub open spec fn planned_groups(sets: Seq<SetRecord>) -> Seq<GroupSpec> {
    online_keys(sets).map_values(online_plan(sets)) + md5_keys(sets).map_values(md5_plan(sets))
        + fp_keys(sets).map_values(fp_plan(sets))
}

/// `g` sorts strictly before `h`: more members first, then label ascending.
pub open spec fn group_before(g: GroupSpec, h: GroupSpec) -> bool {
    g.2.len() > h.2.len() || (g.2.len() == h.2.len() && lex_order(g.1, h.1) < 0)
}

pub open spec fn ins_group(v: Seq<GroupSpec>, g: GroupSpec) -> Seq<GroupSpec>
    decreases v.len(),
{
    if v.len() == 0 {
        seq![g]
    } else if group_before(g, v[0]) {
        seq![g] + v
    } else {
        seq![v[0]] + ins_group(v.drop_first(), g)
    }
}

/// Stable sort by member count descending, then label ascending.
pub open spec fn sort_groups(v: Seq<GroupSpec>) -> Seq<GroupSpec>
    decreases v.len(),
{
    if v.len() == 0 {
        Seq::empty()
    } else {
        ins_group(sort_groups(v.drop_last()), v.last())
    }
}

/// The result of duplicate detection, as group plans.
pub open spec fn expected_groups(sets: Seq<SetRecord>) -> Seq<GroupSpec> {
    sort_groups(planned_groups(sets))
}

/// Oldest `date_added` among the sets at `idxs` (none when none has one).
pub open spec fn oldest(sets: Seq<SetRecord>, idxs: Seq<int>) -> Option<i64>
    decreases idxs.len(),
{
    if idxs.len() == 0 {
        None
    } else {
        let o = oldest(sets, idxs.drop_last());
        match sets[idxs.last()].date_added {
            None => o,
            Some(d) => match o {
                None => Some(d),
                Some(m) => Some(if d < m { d } else { m }),
            },
        }
    }
}

} // verus!

verus! {

/// The known MD5s of a set's difficulties as character vectors.
fn present_md5s(s: &SetRecord) -> (r: Vec<Vec<char>>)
    ensures
        views(r@) == present(s.md5s@),
{
    let mut r: Vec<Vec<char>> = Vec::new();
    let mut i: usize = 0;
    while i < s.md5s.len()
        invariant
            i <= s.md5s.len(),
            views(r@) == present(s.md5s@.take(i as int)),
        decreases s.md5s.len() - i,
    {
        assert(s.md5s@.take(i + 1).drop_last() =~= s.md5s@.take(i as int));
        match &s.md5s[i] {
            Some(h) => {
                let c = chars_of(h.as_str());
                r.push(c);
            },
            None => {},
        }
        i += 1;
        assert(views(r@) =~= present(s.md5s@.take(i as int)));
    }
    assert(s.md5s@.take(s.md5s.len() as int) =~= s.md5s@);
    r
}

/// `parts` joined with `|`.
fn join_with_bar(parts: &Vec<Vec<char>>) -> (r: Vec<char>)
    ensures
        r@ == join_bar(views(parts@)),
{
    let mut r: Vec<char> = Vec::new();
    let mut i: usize = 0;
    while i < parts.len()
        invariant
            i <= parts.len(),
            r@ == join_bar(views(parts@).take(i as int)),
        decreases parts.len() - i,
    {
        assert(views(parts@).take(i + 1).drop_last() =~= views(parts@).take(i as int));
        if i > 0 {
            r.push('|');
        }
        let mut j: usize = 0;
        let ghost before = r@;
        while j < parts[i].len()
            invariant
                i < parts.len(),
                j <= parts[i as int]@.len(),
                r@ == before + parts[i as int]@.take(j as int),
            decreases parts[i as int]@.len() - j,
        {
            r.push(parts[i][j]);
            j += 1;
            assert(r@ =~= before + parts[i as int]@.take(j as int));
        }
        assert(parts[i as int]@.take(j as int) =~= parts[i as int]@);
        i += 1;
        if i == 1 {
            assert(r@ =~= join_bar(views(parts@).take(i as int)));
        } else {
            assert(r@ =~= join_bar(views(parts@).take(i as int)));
        }
    }
    assert(views(parts@).take(parts.len() as int) =~= views(parts@));
    r
}

/// Fingerprint as characters (see `fingerprint_of`).
fn fingerprint_chars(s: &SetRecord) -> (r: Option<Vec<char>>)
    ensures
        match fingerprint_of(*s) {
            None => r is None,
            Some(fp) => r matches Some(v) && v@ == fp,
        },
{
    let md5s = present_md5s(s);
    if md5s.len() == 0 {
        return None;
    }
    let mut sorted: Vec<Vec<char>> = Vec::new();
    let mut j: usize = 0;
    while j < md5s.len()
        invariant
            j <= md5s.len(),
            views(sorted@) == sort_strs(views(md5s@).take(j as int)),
        decreases md5s.len() - j,
    {
        assert(views(md5s@).take(j + 1).drop_last() =~= views(md5s@).take(j as int));
        insert_sorted(&mut sorted, md5s[j].clone());
        j += 1;
    }
    assert(views(md5s@).take(md5s.len() as int) =~= views(md5s@));
    Some(join_with_bar(&sorted))
}

/// Fingerprint of a set: its known difficulty MD5s sorted and joined with `|`; `None` when no
/// MD5 is known.
pub fn fingerprint(s: &SetRecord) -> (r: Option<String>)
    ensures
        match fingerprint_of(*s) {
            None => r is None,
            Some(fp) => r matches Some(t) && t@ == fp,
        },
{
    match fingerprint_chars(s) {
        None => None,
        Some(v) => Some(string_of_range(&v, 0, v.len())),
    }
}

/// `views(v).contains(h)`.
fn contains_chars(v: &Vec<Vec<char>>, h: &[char]) -> (b: bool)
    ensures
        b == views(v@).contains(h@),
{
    let mut i: usize = 0;
    while i < v.len()
        invariant
            i <= v.len(),
            forall|j: int| 0 <= j < i ==> views(v@)[j] != h@,
        decreases v.len() - i,
    {
        if compare_chars(&v[i], h) == 0 {
            proof {
                lemma_lex_props(v[i as int]@, h@);
            }
            assert(views(v@)[i as int] == h@);
            return true;
        }
        proof {
            lemma_lex_props(v[i as int]@, h@);
        }
        i += 1;
    }
    false
}

/// `holders_id(sets, id, n)` as a vector.
fn holders_of_id(sets: &[SetRecord], id: i64) -> (r: Vec<usize>)
    ensures
        ints(r@) == holders_id(sets@, id, sets@.len() as int),
{
    let mut r: Vec<usize> = Vec::new();
    let mut i: usize = 0;
    while i < sets.len()
        invariant
            i <= sets.len(),
            ints(r@) == holders_id(sets@, id, i as int),
        decreases sets.len() - i,
    {
        if sets[i].beatmapset_id == id {
            r.push(i);
        }
        i += 1;
        assert(ints(r@) =~= holders_id(sets@, id, i as int));
    }
    r
}

/// `holders_md5(sets, h, n)` as a vector, given each set's known MD5s.
fn holders_of_md5(sets: &[SetRecord], md5c: &Vec<Vec<Vec<char>>>, h: &[char]) -> (r: Vec<usize>)
    requires
        md5c.len() == sets.len(),
        forall|i: int| 0 <= i < sets.len() ==> views(#[trigger] md5c[i]@) == present(sets[i].md5s@),
    ensures
        ints(r@) == holders_md5(sets@, h@, sets@.len() as int),
{
    let mut r: Vec<usize> = Vec::new();
    let mut i: usize = 0;
    while i < sets.len()
        invariant
            i <= sets.len(),
            md5c.len() == sets.len(),
            forall|i: int| 0 <= i < sets.len() ==> views(#[trigger] md5c[i]@) == present(sets[i].md5s@),
            ints(r@) == holders_md5(sets@, h@, i as int),
        decreases sets.len() - i,
    {
        if contains_chars(&md5c[i], h) {
            r.push(i);
        }
        i += 1;
        assert(ints(r@) =~= holders_md5(sets@, h@, i as int));
    }
    r
}

/// `holders_fp(sets, fp, n)` as a vector, given each set's fingerprint.
fn holders_of_fp(sets: &[SetRecord], fps: &Vec<Option<Vec<char>>>, fp: &[char]) -> (r: Vec<usize>)
    requires
        fps.len() == sets.len(),
        forall|i: int| 0 <= i < sets.len() ==> fp_matches(#[trigger] fps[i], sets[i]),
    ensures
        ints(r@) == holders_fp(sets@, fp@, sets@.len() as int),
{
    let mut r: Vec<usize> = Vec::new();
    let mut i: usize = 0;
    while i < sets.len()
        invariant
            i <= sets.len(),
            fps.len() == sets.len(),
            forall|i: int| 0 <= i < sets.len() ==> fp_matches(#[trigger] fps[i], sets[i]),
            ints(r@) == holders_fp(sets@, fp@, i as int),
        decreases sets.len() - i,
    {
        if sets[i].beatmapset_id <= 0 {
            match &fps[i] {
                Some(f) => {
                    if compare_chars(f, fp) == 0 {
                        r.push(i);
                    }
                    proof {
                        lemma_lex_props(f@, fp@);
                    }
                },
                None => {},
            }
        }
        i += 1;
        assert(ints(r@) =~= holders_fp(sets@, fp@, i as int));
    }
    r
}

pub open spec fn fp_matches(f: Option<Vec<char>>, s: SetRecord) -> bool {
    match fingerprint_of(s) {
        None => f is None,
        Some(fp) => f matches Some(v) && v@ == fp,
    }
}

/// Oldest `date_added` among the sets at `idxs`.
pub fn oldest_added(sets: &[SetRecord], idxs: &[usize]) -> (r: Option<i64>)
    requires
        forall|k: int| 0 <= k < idxs.len() ==> #[trigger] idxs[k] < sets.len(),
    ensures
        r == oldest(sets@, ints(idxs@)),
{
    let mut o: Option<i64> = None;
    let mut k: usize = 0;
    while k < idxs.len()
        invariant
            k <= idxs.len(),
            forall|k: int| 0 <= k < idxs.len() ==> #[trigger] idxs[k] < sets.len(),
            o == oldest(sets@, ints(idxs@).take(k as int)),
        decreases idxs.len() - k,
    {
        assert(ints(idxs@).take(k + 1).drop_last() =~= ints(idxs@).take(k as int));
        match sets[idxs[k]].date_added {
            None => {},
            Some(d) => {
                o = match o {
                    None => Some(d),
                    Some(m) => Some(if d < m { d } else { m }),
                };
            },
        }
        k += 1;
    }
    assert(ints(idxs@).take(idxs.len() as int) =~= ints(idxs@));
    o
}

} // verus!

verus! {

/// A group under construction.
struct GroupPlan {
    reason: String,
    label: Vec<char>,
    members: Vec<usize>,
}

spec fn plan_view(p: GroupPlan) -> GroupSpec {
    (p.reason@, p.label@, ints(p.members@))
}

spec fn plan_views(v: Seq<GroupPlan>) -> Seq<GroupSpec> {
    v.map_values(|p: GroupPlan| plan_view(p))
}

fn string_from(t: &str) -> (r: String)
    ensures
        r@ == t@,
{
    let mut s = String::new();
    push_str(&mut s, t);
    s
}

/// Online-id groups, ascending by id.
fn online_plans(sets: &[SetRecord]) -> (r: Vec<GroupPlan>)
    ensures
        plan_views(r@) == online_keys(sets@).map_values(online_plan(sets@)),
{
    let ghost n = sets@.len() as int;
    let ghost f = online_plan(sets@);
    let ghost pred = online_dup(sets@);
    let mut ids: Vec<i64> = Vec::new();
    let mut i: usize = 0;
    while i < sets.len()
        invariant
            i <= sets.len(),
            ids@ == sorted_unique_int(positive_ids(sets@, i as int)),
        decreases sets.len() - i,
    {
        let id = sets[i].beatmapset_id;
        if id > 0 {
            insert_unique_int(&mut ids, id);
            assert(positive_ids(sets@, i + 1) == positive_ids(sets@, i as int).push(id));
            assert(positive_ids(sets@, i as int).push(id).drop_last() =~= positive_ids(sets@, i as int));
        }
        i += 1;
    }
    let mut r: Vec<GroupPlan> = Vec::new();
    let mut k: usize = 0;
    while k < ids.len()
        invariant
            k <= ids.len(),
            n == sets@.len(),
            f == online_plan(sets@),
            pred == online_dup(sets@),
            ids@ == sorted_unique_int(positive_ids(sets@, n)),
            plan_views(r@) == ids@.take(k as int).filter(pred).map_values(f),
        decreases ids.len() - k,
    {
        let id = ids[k];
        let holders = holders_of_id(sets, id);
        assert(ids@.take(k + 1) =~= ids@.take(k as int).push(id));
        proof {
            ids@.take(k as int).lemma_filter_push(id, pred);
        }
        let ghost old_f = ids@.take(k as int).filter(pred);
        let ghost old_r = plan_views(r@);
        assert(ints(holders@).len() == holders@.len());
        assert(pred(id) == (holders.len() >= 2));
        if holders.len() >= 2 {
            let mut label = String::new();
            push_str(&mut label, "Online ID ");
            push_i64(&mut label, id);
            let lc = chars_of(label.as_str());
            let reason = string_from("setOnlineId");
            let g = GroupPlan { reason, label: lc, members: holders };
            assert(g.reason@ == "setOnlineId"@);
            assert(g.label@ == "Online ID "@ + int_text(id as int));
            assert(ints(g.members@) == holders_id(sets@, id, n));
            assert(plan_view(g) == f(id));
            r.push(g);
            assert(ids@.take(k + 1).filter(pred) == old_f.push(id));
            assert(old_f.push(id).map_values(f) =~= old_f.map_values(f).push(f(id)));
            assert(plan_views(r@) =~= old_r.push(plan_view(g)));
        } else {
            assert(ids@.take(k + 1).filter(pred) == old_f);
        }
        k += 1;
    }
    assert(ids@.take(ids.len() as int) =~= ids@);
    r
}

} // verus!

verus! {

proof fn lemma_holders_id_bound(sets: Seq<SetRecord>, id: i64, n: int)
    ensures
        forall|k: int| 0 <= k < holders_id(sets, id, n).len() ==> 0 <= #[trigger] holders_id(sets, id, n)[k] < n,
    decreases n,
{
    if n > 0 {
        lemma_holders_id_bound(sets, id, n - 1);
        let p = holders_id(sets, id, n - 1);
        assert forall|k: int| 0 <= k < holders_id(sets, id, n).len() implies 0 <= #[trigger] holders_id(sets, id, n)[k] < n by {
            if k < p.len() {
                assert(holders_id(sets, id, n)[k] == p[k]);
            }
        }
    }
}

proof fn lemma_holders_md5_bound(sets: Seq<SetRecord>, h: Seq<char>, n: int)
    ensures
        forall|k: int| 0 <= k < holders_md5(sets, h, n).len() ==> 0 <= #[trigger] holders_md5(sets, h, n)[k] < n,
    decreases n,
{
    if n > 0 {
        lemma_holders_md5_bound(sets, h, n - 1);
        let p = holders_md5(sets, h, n - 1);
        assert forall|k: int| 0 <= k < holders_md5(sets, h, n).len() implies 0 <= #[trigger] holders_md5(sets, h, n)[k] < n by {
            if k < p.len() {
                assert(holders_md5(sets, h, n)[k] == p[k]);
            }
        }
    }
}

proof fn lemma_holders_fp_bound(sets: Seq<SetRecord>, fp: Seq<char>, n: int)
    ensures
        forall|k: int| 0 <= k < holders_fp(sets, fp, n).len() ==> 0 <= #[trigger] holders_fp(sets, fp, n)[k] < n,
    decreases n,
{
    if n > 0 {
        lemma_holders_fp_bound(sets, fp, n - 1);
        let p = holders_fp(sets, fp, n - 1);
        assert forall|k: int| 0 <= k < holders_fp(sets, fp, n).len() implies 0 <= #[trigger] holders_fp(sets, fp, n)[k] < n by {
            if k < p.len() {
                assert(holders_fp(sets, fp, n)[k] == p[k]);
            }
        }
    }
}

/// Every planned group lists indices of `sets`.
proof fn lemma_planned_bounds(sets: Seq<SetRecord>)
    ensures
        forall|g: int, k: int|
            0 <= g < planned_groups(sets).len() && 0 <= k < planned_groups(sets)[g].2.len()
                ==> 0 <= #[trigger] planned_groups(sets)[g].2[k] < sets.len(),
{
    let n = sets.len() as int;
    let a = online_keys(sets).map_values(online_plan(sets));
    let b = md5_keys(sets).map_values(md5_plan(sets));
    let c = fp_keys(sets).map_values(fp_plan(sets));
    assert forall|g: int, k: int|
        0 <= g < planned_groups(sets).len() && 0 <= k < planned_groups(sets)[g].2.len()
            implies 0 <= #[trigger] planned_groups(sets)[g].2[k] < sets.len() by {
        if g < a.len() {
            let id = online_keys(sets)[g];
            lemma_holders_id_bound(sets, id, n);
            assert(planned_groups(sets)[g] == a[g]);
            assert(holders_id(sets, id, n)[k] < n);
        } else if g < a.len() + b.len() {
            let h = md5_keys(sets)[g - a.len()];
            lemma_holders_md5_bound(sets, h, n);
            assert(planned_groups(sets)[g] == b[g - a.len()]);
            assert(holders_md5(sets, h, n)[k] < n);
        } else {
            let fp = fp_keys(sets)[g - a.len() - b.len()];
            lemma_holders_fp_bound(sets, fp, n);
            assert(planned_groups(sets)[g] == c[g - a.len() - b.len()]);
            assert(holders_fp(sets, fp, n)[k] < n);
        }
    }
}

/// MD5 groups, ascending by MD5.
fn md5_plans(sets: &[SetRecord], md5c: &Vec<Vec<Vec<char>>>) -> (r: Vec<GroupPlan>)
    requires
        md5c.len() == sets.len(),
        forall|i: int| 0 <= i < sets.len() ==> views(#[trigger] md5c[i]@) == present(sets[i].md5s@),
    ensures
        plan_views(r@) == md5_keys(sets@).map_values(md5_plan(sets@)),
{
    let ghost n = sets@.len() as int;
    let ghost f = md5_plan(sets@);
    let ghost pred = md5_dup(sets@);
    let mut keys: Vec<Vec<char>> = Vec::new();
    let mut i: usize = 0;
    while i < sets.len()
        invariant
            i <= sets.len(),
            md5c.len() == sets.len(),
            forall|i: int| 0 <= i < sets.len() ==> views(#[trigger] md5c[i]@) == present(sets[i].md5s@),
            views(keys@) == sorted_unique(all_md5(sets@, i as int)),
        decreases sets.len() - i,
    {
        let ghost base = all_md5(sets@, i as int);
        let ghost mine = views(md5c[i as int]@);
        let mut j: usize = 0;
        assert(base + mine.take(0) =~= base);
        while j < md5c[i].len()
            invariant
                i < sets.len(),
                md5c.len() == sets.len(),
                mine == views(md5c[i as int]@),
                j <= mine.len(),
                views(keys@) == sorted_unique(base + mine.take(j as int)),
            decreases md5c[i as int].len() - j,
        {
            assert((base + mine.take(j + 1)).drop_last() =~= base + mine.take(j as int));
            assert((base + mine.take(j + 1)).last() == mine[j as int]);
            insert_unique(&mut keys, md5c[i][j].clone());
            j += 1;
        }
        assert(mine.take(mine.len() as int) =~= mine);
        assert(all_md5(sets@, i + 1) == base + present(sets@[i as int].md5s@));
        i += 1;
    }
    let ghost kv = views(keys@);
    let mut r: Vec<GroupPlan> = Vec::new();
    let mut k: usize = 0;
    while k < keys.len()
        invariant
            k <= keys.len(),
            n == sets@.len(),
            md5c.len() == sets.len(),
            forall|i: int| 0 <= i < sets.len() ==> views(#[trigger] md5c[i]@) == present(sets[i].md5s@),
            f == md5_plan(sets@),
            pred == md5_dup(sets@),
            kv == views(keys@),
            kv == sorted_unique(all_md5(sets@, n)),
            plan_views(r@) == kv.take(k as int).filter(pred).map_values(f),
        decreases keys.len() - k,
    {
        let h = &keys[k];
        let ghost hv = h@;
        assert(kv[k as int] == hv);
        let holders = holders_of_md5(sets, md5c, h.as_slice());
        assert(kv.take(k + 1) =~= kv.take(k as int).push(hv));
        proof {
            kv.take(k as int).lemma_filter_push(hv, pred);
        }
        let ghost old_f = kv.take(k as int).filter(pred);
        let ghost old_r = plan_views(r@);
        assert(ints(holders@).len() == holders@.len());
        assert(pred(hv) == (holders.len() >= 2));
        if holders.len() >= 2 {
            let mut label = String::new();
            push_str(&mut label, "MD5 ");
            let cut: usize = if h.len() < 8 { h.len() } else { 8 };
            push_range(&mut label, h.as_slice(), 0, cut);
            assert(h@.subrange(0, cut as int) == first8(hv));
            let lc = chars_of(label.as_str());
            let reason = string_from("md5");
            let g = GroupPlan { reason, label: lc, members: holders };
            assert(plan_view(g) == f(hv));
            r.push(g);
            assert(kv.take(k + 1).filter(pred) == old_f.push(hv));
            assert(old_f.push(hv).map_values(f) =~= old_f.map_values(f).push(f(hv)));
            assert(plan_views(r@) =~= old_r.push(plan_view(g)));
        } else {
            assert(kv.take(k + 1).filter(pred) == old_f);
        }
        k += 1;
    }
    assert(kv.take(keys.len() as int) =~= kv);
    r
}

/// Identical-local-set groups, ascending by fingerprint.
fn fp_plans(sets: &[SetRecord], fps: &Vec<Option<Vec<char>>>) -> (r: Vec<GroupPlan>)
    requires
        fps.len() == sets.len(),
        forall|i: int| 0 <= i < sets.len() ==> fp_matches(#[trigger] fps[i], sets[i]),
    ensures
        plan_views(r@) == fp_keys(sets@).map_values(fp_plan(sets@)),
{
    let ghost n = sets@.len() as int;
    let ghost f = fp_plan(sets@);
    let ghost pred = fp_dup(sets@);
    let mut keys: Vec<Vec<char>> = Vec::new();
    let mut i: usize = 0;
    while i < sets.len()
        invariant
            i <= sets.len(),
            fps.len() == sets.len(),
            forall|i: int| 0 <= i < sets.len() ==> fp_matches(#[trigger] fps[i], sets[i]),
            views(keys@) == sorted_unique(local_fps(sets@, i as int)),
        decreases sets.len() - i,
    {
        let ghost prev = local_fps(sets@, i as int);
        assert(fp_matches(fps[i as int], sets[i as int]));
        if sets[i].beatmapset_id <= 0 {
            match &fps[i] {
                Some(fc) => {
                    assert(local_fps(sets@, i + 1) == prev.push(fc@));
                    assert(prev.push(fc@).drop_last() =~= prev);
                    insert_unique(&mut keys, fc.clone());
                },
                None => {},
            }
        }
        i += 1;
    }
    let ghost kv = views(keys@);
    let mut r: Vec<GroupPlan> = Vec::new();
    let mut k: usize = 0;
    while k < keys.len()
        invariant
            k <= keys.len(),
            n == sets@.len(),
            fps.len() == sets.len(),
            forall|i: int| 0 <= i < sets.len() ==> fp_matches(#[trigger] fps[i], sets[i]),
            f == fp_plan(sets@),
            pred == fp_dup(sets@),
            kv == views(keys@),
            kv == sorted_unique(local_fps(sets@, n)),
            plan_views(r@) == kv.take(k as int).filter(pred).map_values(f),
        decreases keys.len() - k,
    {
        let fp = &keys[k];
        let ghost fv = fp@;
        assert(kv[k as int] == fv);
        let holders = holders_of_fp(sets, fps, fp.as_slice());
        assert(kv.take(k + 1) =~= kv.take(k as int).push(fv));
        proof {
            kv.take(k as int).lemma_filter_push(fv, pred);
        }
        let ghost old_f = kv.take(k as int).filter(pred);
        let ghost old_r = plan_views(r@);
        assert(ints(holders@).len() == holders@.len());
        assert(pred(fv) == (holders.len() >= 2));
        if holders.len() >= 2 {
            proof {
                lemma_holders_fp_bound(sets@, fv, n);
            }
            assert(ints(holders@)[0] == holders@[0] as int);
            let first = holders[0];
            let title = sets[first].display_title();
            let lc = chars_of(title.as_str());
            let reason = string_from("identicalSet");
            let g = GroupPlan { reason, label: lc, members: holders };
            assert(plan_view(g) == f(fv));
            r.push(g);
            assert(kv.take(k + 1).filter(pred) == old_f.push(fv));
            assert(old_f.push(fv).map_values(f) =~= old_f.map_values(f).push(f(fv)));
            assert(plan_views(r@) =~= old_r.push(plan_view(g)));
        } else {
            assert(kv.take(k + 1).filter(pred) == old_f);
        }
        k += 1;
    }
    assert(kv.take(keys.len() as int) =~= kv);
    r
}

} // verus!

verus! {

proof fn lemma_ins_group_at(v: Seq<GroupSpec>, g: GroupSpec, p: int)
    requires
        0 <= p <= v.len(),
        forall|j: int| 0 <= j < p ==> !group_before(g, #[trigger] v[j]),
        p == v.len() || group_before(g, v[p]),
    ensures
        ins_group(v, g) == v.take(p) + seq![g] + v.skip(p),
    decreases p,
{
    if p > 0 {
        lemma_ins_group_at(v.drop_first(), g, p - 1);
        assert(v.drop_first().take(p - 1) =~= v.take(p).drop_first());
        assert(v.drop_first().skip(p - 1) =~= v.skip(p));
        assert(v.take(p) =~= seq![v[0]] + v.take(p).drop_first());
        assert((seq![v[0]] + (v.drop_first().take(p - 1) + seq![g] + v.drop_first().skip(p - 1)))
            =~= v.take(p) + seq![g] + v.skip(p));
    } else {
        assert(v.take(0) + seq![g] + v.skip(0) =~= seq![g] + v);
    }
}

proof fn lemma_ins_group_elems(v: Seq<GroupSpec>, g: GroupSpec)
    ensures
        ins_group(v, g).len() == v.len() + 1,
        forall|i: int| 0 <= i < ins_group(v, g).len() ==>
            #[trigger] ins_group(v, g)[i] == g || v.contains(ins_group(v, g)[i]),
    decreases v.len(),
{
    if v.len() > 0 && !group_before(g, v[0]) {
        lemma_ins_group_elems(v.drop_first(), g);
        let t = ins_group(v.drop_first(), g);
        assert forall|i: int| 0 <= i < ins_group(v, g).len() implies
            #[trigger] ins_group(v, g)[i] == g || v.contains(ins_group(v, g)[i]) by {
            if i == 0 {
                assert(ins_group(v, g)[0] == v[0]);
            } else {
                assert(ins_group(v, g)[i] == t[i - 1]);
                if t[i - 1] != g {
                    let j = choose|j: int| 0 <= j < v.drop_first().len() && v.drop_first()[j] == t[i - 1];
                    assert(v[j + 1] == t[i - 1]);
                }
            }
        }
    } else if v.len() > 0 {
        assert forall|i: int| 0 <= i < ins_group(v, g).len() implies
            #[trigger] ins_group(v, g)[i] == g || v.contains(ins_group(v, g)[i]) by {
            if i > 0 {
                assert(ins_group(v, g)[i] == v[i - 1]);
            }
        }
    }
}

/// Sorting keeps the member indices within bounds: every sorted group is one of the input groups.
proof fn lemma_sorted_groups_members(v: Seq<GroupSpec>, n: int)
    requires
        forall|a: int, k: int| 0 <= a < v.len() && 0 <= k < v[a].2.len() ==> 0 <= #[trigger] v[a].2[k] < n,
    ensures
        sort_groups(v).len() == v.len(),
        forall|a: int, k: int| 0 <= a < sort_groups(v).len() && 0 <= k < sort_groups(v)[a].2.len()
            ==> 0 <= #[trigger] sort_groups(v)[a].2[k] < n,
    decreases v.len(),
{
    if v.len() > 0 {
        let d = v.drop_last();
        assert forall|a: int, k: int| 0 <= a < d.len() && 0 <= k < d[a].2.len() implies 0 <= #[trigger] d[a].2[k] < n by {
            assert(d[a] == v[a]);
        }
        lemma_sorted_groups_members(d, n);
        let sd = sort_groups(d);
        lemma_ins_group_elems(sd, v.last());
        assert forall|a: int, k: int| 0 <= a < sort_groups(v).len() && 0 <= k < sort_groups(v)[a].2.len()
            implies 0 <= #[trigger] sort_groups(v)[a].2[k] < n by {
            let e = sort_groups(v)[a];
            if e == v.last() {
                assert(v[v.len() - 1] == e);
            } else {
                assert(sd.contains(e));
                let j = choose|j: int| 0 <= j < sd.len() && sd[j] == e;
                assert(sd[j].2[k] == e.2[k]);
            }
        }
    }
}

fn group_before_exec(g: &GroupPlan, h: &GroupPlan) -> (b: bool)
    ensures
        b == group_before(plan_view(*g), plan_view(*h)),
{
    let gl = g.members.len();
    let hl = h.members.len();
    assert(ints(g.members@).len() == gl);
    assert(ints(h.members@).len() == hl);
    gl > hl || (gl == hl && compare_chars(&g.label, &h.label) < 0)
}

/// Inserts `g` into `v` after every group it does not sort before (`ins_group`).
fn insert_group(v: &mut Vec<GroupPlan>, g: GroupPlan)
    ensures
        plan_views(final(v)@) == ins_group(plan_views(old(v)@), plan_view(g)),
{
    let mut p: usize = 0;
    while p < v.len() && !group_before_exec(&g, &v[p])
        invariant
            p <= v.len(),
            v@ == old(v)@,
            forall|j: int| 0 <= j < p ==> !group_before(plan_view(g), #[trigger] plan_views(v@)[j]),
        decreases v.len() - p,
    {
        p += 1;
    }
    proof {
        lemma_ins_group_at(plan_views(v@), plan_view(g), p as int);
    }
    let ghost gv = plan_view(g);
    v.insert(p, g);
    assert(plan_views(v@) =~= plan_views(old(v)@).take(p as int) + seq![gv] + plan_views(old(v)@).skip(p as int));
}

/// `all` sorted by member count descending, then label ascending, keeping the order of ties.
fn sort_plans(all: Vec<GroupPlan>) -> (r: Vec<GroupPlan>)
    ensures
        plan_views(r@) == sort_groups(plan_views(all@)),
{
    let ghost total = plan_views(all@);
    let mut rest = all;
    let mut sorted: Vec<GroupPlan> = Vec::new();
    let ghost mut m: int = 0;
    assert(total.skip(0) =~= total);
    assert(total.take(0) =~= Seq::<GroupSpec>::empty());
    while rest.len() > 0
        invariant
            0 <= m <= total.len(),
            rest.len() == total.len() - m,
            plan_views(rest@) == total.skip(m),
            plan_views(sorted@) == sort_groups(total.take(m)),
        decreases rest.len(),
    {
        let ghost before = rest@;
        let g = rest.remove(0);
        assert(plan_views(before)[0] == total.skip(m)[0]);
        assert(plan_view(g) == total[m]);
        assert(total.take(m + 1).drop_last() =~= total.take(m));
        insert_group(&mut sorted, g);
        proof {
            m = m + 1;
        }
        assert forall|i: int| 0 <= i < rest.len() implies #[trigger] plan_views(rest@)[i] == total.skip(m)[i] by {
            assert(rest@[i] == before[i + 1]);
            assert(plan_views(before)[i + 1] == total.skip(m - 1)[i + 1]);
        }
        assert(plan_views(rest@) =~= total.skip(m));
    }
    assert(total.take(m) =~= total);
    sorted
}

/// What a member of a duplicate group shows of set `s`: `first` is the group's oldest
/// `date_added` (the member's own one when the group has none), and the size comes from
/// `size_of` on the set's location, 0 for lazer sets.
pub open spec fn member_matches<F: Fn(&String) -> u64>(m: DupMember, s: SetRecord, first: Option<i64>, size_of: F) -> bool {
    &&& m.set_id == s.beatmapset_id
    &&& m.title@ == s.spec_display_title()
    &&& m.artist@ == s.spec_display_artist()
    &&& m.creator@ == s.creator@
    &&& m.difficulty_count == s.md5s.len() as u32
    &&& m.location@ == s.location@
    &&& if s.source_kind == SourceKind::Lazer {
        m.size_bytes == 0
    } else {
        size_of.ensures((&s.location,), m.size_bytes)
    }
    &&& m.first_added == match first {
        Some(d) => Some(d),
        None => s.date_added,
    }
}

/// A built group agrees with its plan: same reason and label, one member per planned index.
pub open spec fn group_matches<F: Fn(&String) -> u64>(dg: DuplicateGroup, g: GroupSpec, sets: Seq<SetRecord>, size_of: F) -> bool {
    &&& dg.reason@ == g.0
    &&& dg.label@ == g.1
    &&& dg.members.len() == g.2.len()
    &&& forall|k: int| 0 <= k < g.2.len() ==>
        member_matches(#[trigger] dg.members@[k], sets[g.2[k]], oldest(sets, g.2), size_of)
}

fn make_member<F: Fn(&String) -> u64>(s: &SetRecord, first: Option<i64>, size_of: &F) -> (m: DupMember)
    requires
        forall|x: &String| size_of.requires((x,)),
    ensures
        member_matches(m, *s, first, *size_of),
{
    let size_bytes = if s.source_kind == SourceKind::Lazer { 0 } else { size_of(&s.location) };
    DupMember {
        set_id: s.beatmapset_id,
        title: s.display_title(),
        artist: s.display_artist(),
        creator: s.creator.clone(),
        difficulty_count: s.md5s.len() as u32,
        location: s.location.clone(),
        size_bytes,
        first_added: match first {
            Some(d) => Some(d),
            None => s.date_added,
        },
    }
}

/// Groups duplicate sets three ways: sets sharing an online id (> 0); difficulty MD5s found
/// in two or more sets; local imports (online id <= 0) whose difficulty MD5 fingerprints are
/// identical. Groups come sorted by member count descending, then label ascending.
pub fn duplicate_groups<F: Fn(&String) -> u64>(sets: &[SetRecord], size_of: &F) -> (r: Vec<DuplicateGroup>)
    requires
        forall|x: &String| size_of.requires((x,)),
    ensures
        r.len() == expected_groups(sets@).len(),
        forall|g: int| 0 <= g < r.len() ==>
            group_matches(#[trigger] r@[g], expected_groups(sets@)[g], sets@, *size_of),
{
    let mut md5c: Vec<Vec<Vec<char>>> = Vec::new();
    let mut fps: Vec<Option<Vec<char>>> = Vec::new();
    let mut i: usize = 0;
    while i < sets.len()
        invariant
            i <= sets.len(),
            md5c.len() == i,
            fps.len() == i,
            forall|j: int| 0 <= j < i ==> views(#[trigger] md5c[j]@) == present(sets[j].md5s@),
            forall|j: int| 0 <= j < i ==> fp_matches(#[trigger] fps[j], sets[j]),
        decreases sets.len() - i,
    {
        md5c.push(present_md5s(&sets[i]));
        fps.push(fingerprint_chars(&sets[i]));
        i += 1;
    }
    let mut all = online_plans(sets);
    let mut b = md5_plans(sets, &md5c);
    let mut c = fp_plans(sets, &fps);
    let ghost pa = plan_views(all@);
    let ghost pb = plan_views(b@);
    let ghost pc = plan_views(c@);
    all.append(&mut b);
    all.append(&mut c);
    assert(plan_views(all@) =~= pa + pb + pc);
    assert(plan_views(all@) == planned_groups(sets@));
    let sorted = sort_plans(all);
    let ghost exp = expected_groups(sets@);
    proof {
        lemma_planned_bounds(sets@);
        lemma_sorted_groups_members(planned_groups(sets@), sets@.len() as int);
    }
    let mut r: Vec<DuplicateGroup> = Vec::new();
    let mut g: usize = 0;
    while g < sorted.len()
        invariant
            g <= sorted.len(),
            exp == expected_groups(sets@),
            plan_views(sorted@) == exp,
            forall|x: &String| size_of.requires((x,)),
            forall|a: int, k: int| 0 <= a < exp.len() && 0 <= k < exp[a].2.len()
                ==> 0 <= #[trigger] exp[a].2[k] < sets@.len(),
            r.len() == g,
            forall|a: int| 0 <= a < g ==> group_matches(#[trigger] r@[a], exp[a], sets@, *size_of),
        decreases sorted.len() - g,
    {
        let plan = &sorted[g];
        let ghost pv = plan_view(*plan);
        assert(pv == exp[g as int]);
        let ghost idxs = ints(plan.members@);
        assert forall|k: int| 0 <= k < plan.members.len() implies #[trigger] plan.members[k] < sets.len() by {
            assert(idxs[k] == plan.members[k] as int);
            assert(exp[g as int].2[k] < sets@.len());
        }
        let first = oldest_added(sets, plan.members.as_slice());
        let mut members: Vec<DupMember> = Vec::new();
        let mut k: usize = 0;
        while k < plan.members.len()
            invariant
                k <= plan.members.len(),
                pv == plan_view(*plan),
                idxs == ints(plan.members@),
                first == oldest(sets@, idxs),
                forall|x: &String| size_of.requires((x,)),
                forall|k: int| 0 <= k < plan.members.len() ==> #[trigger] plan.members[k] < sets.len(),
                members.len() == k,
                forall|j: int| 0 <= j < k ==>
                    member_matches(#[trigger] members@[j], sets@[idxs[j]], oldest(sets@, idxs), *size_of),
            decreases plan.members.len() - k,
        {
            let si = plan.members[k];
            let m = make_member(&sets[si], first, size_of);
            assert(idxs[k as int] == si as int);
            members.push(m);
            k += 1;
        }
        let label = string_of(plan.label.as_slice());
        let dg = DuplicateGroup { reason: plan.reason.clone(), label, members };
        assert(group_matches(dg, exp[g as int], sets@, *size_of));
        r.push(dg);
        g += 1;
    }
    r
}

} // verus!

verus! {

proof fn lemma_sort_groups_contains(v: Seq<GroupSpec>)
    ensures
        sort_groups(v).len() == v.len(),
        forall|a: int| 0 <= a < v.len() ==> v.contains(#[trigger] sort_groups(v)[a]),
    decreases v.len(),
{
    if v.len() > 0 {
        let d = v.drop_last();
        lemma_sort_groups_contains(d);
        let sd = sort_groups(d);
        lemma_ins_group_elems(sd, v.last());
        assert forall|a: int| 0 <= a < v.len() implies v.contains(#[trigger] sort_groups(v)[a]) by {
            let e = sort_groups(v)[a];
            if e == v.last() {
                assert(v[v.len() - 1] == e);
            } else {
                assert(sd.contains(e));
                let j = choose|j: int| 0 <= j < sd.len() && sd[j] == e;
                assert(d.contains(sd[j]));
                let i = choose|i: int| 0 <= i < d.len() && d[i] == e;
                assert(v[i] == e);
            }
        }
    }
}

proof fn lemma_group_before_strict(a: GroupSpec, b: GroupSpec, c: GroupSpec)
    ensures
        group_before(a, b) ==> !group_before(b, a),
        group_before(a, b) && group_before(b, c) ==> group_before(a, c),
{
    lemma_lex_props(a.1, b.1);
    if a.2.len() == b.2.len() && b.2.len() == c.2.len() && lex_order(a.1, b.1) < 0 && lex_order(b.1, c.1) < 0 {
        lemma_lex_trans(a.1, b.1, c.1);
    }
}

pub open spec fn groups_in_order(v: Seq<GroupSpec>) -> bool {
    forall|i: int, j: int| 0 <= i < j < v.len() ==> !group_before(#[trigger] v[j], #[trigger] v[i])
}

proof fn lemma_ins_group_in_order(v: Seq<GroupSpec>, g: GroupSpec)
    requires
        groups_in_order(v),
    ensures
        groups_in_order(ins_group(v, g)),
    decreases v.len(),
{
    if v.len() > 0 {
        if group_before(g, v[0]) {
            let w = ins_group(v, g);
            assert forall|i: int, j: int| 0 <= i < j < w.len() implies !group_before(#[trigger] w[j], #[trigger] w[i]) by {
                if i == 0 {
                    assert(w[j] == v[j - 1]);
                    lemma_group_before_strict(g, v[0], v[j - 1]);
                    lemma_group_before_strict(v[j - 1], g, v[0]);
                } else {
                    assert(w[j] == v[j - 1] && w[i] == v[i - 1]);
                }
            }
        } else {
            let t = ins_group(v.drop_first(), g);
            assert forall|i: int, j: int| 0 <= i < j < v.drop_first().len() implies
                !group_before(#[trigger] v.drop_first()[j], #[trigger] v.drop_first()[i]) by {
                assert(v.drop_first()[j] == v[j + 1] && v.drop_first()[i] == v[i + 1]);
            }
            lemma_ins_group_in_order(v.drop_first(), g);
            lemma_ins_group_elems(v.drop_first(), g);
            let w = ins_group(v, g);
            assert forall|i: int, j: int| 0 <= i < j < w.len() implies !group_before(#[trigger] w[j], #[trigger] w[i]) by {
                if i == 0 {
                    assert(w[0] == v[0]);
                    assert(w[j] == t[j - 1]);
                    if t[j - 1] != g {
                        let k = choose|k: int| 0 <= k < v.drop_first().len() && v.drop_first()[k] == t[j - 1];
                        assert(v[k + 1] == t[j - 1]);
                    }
                } else {
                    assert(w[j] == t[j - 1] && w[i] == t[i - 1]);
                }
            }
        }
    }
}

proof fn lemma_sort_groups_in_order(v: Seq<GroupSpec>)
    ensures
        groups_in_order(sort_groups(v)),
    decreases v.len(),
{
    if v.len() > 0 {
        lemma_sort_groups_in_order(v.drop_last());
        lemma_ins_group_in_order(sort_groups(v.drop_last()), v.last());
    }
}

/// Duplicate groups come ordered by member count, largest first; groups of equal size come
/// in ascending label order.
pub proof fn duplicate_groups_ordered(sets: Seq<SetRecord>)
    ensures
        forall|i: int, j: int| 0 <= i < j < expected_groups(sets).len() ==> {
            let a = #[trigger] expected_groups(sets)[i];
            let b = #[trigger] expected_groups(sets)[j];
            a.2.len() > b.2.len() || (a.2.len() == b.2.len() && lex_le(a.1, b.1))
        },
{
    let v = expected_groups(sets);
    lemma_sort_groups_in_order(planned_groups(sets));
    assert forall|i: int, j: int| 0 <= i < j < v.len() implies {
        let a = #[trigger] v[i];
        let b = #[trigger] v[j];
        a.2.len() > b.2.len() || (a.2.len() == b.2.len() && lex_le(a.1, b.1))
    } by {
        assert(!group_before(v[j], v[i]));
        lemma_lex_props(v[i].1, v[j].1);
    }
}

/// Every duplicate group has at least two members.
pub proof fn duplicate_groups_have_two_members(sets: Seq<SetRecord>)
    ensures
        forall|g: int| 0 <= g < expected_groups(sets).len() ==> #[trigger] expected_groups(sets)[g].2.len() >= 2,
{
    let n = sets.len() as int;
    let p = planned_groups(sets);
    let a = online_keys(sets).map_values(online_plan(sets));
    let b = md5_keys(sets).map_values(md5_plan(sets));
    let c = fp_keys(sets).map_values(fp_plan(sets));
    assert forall|g: int| 0 <= g < p.len() implies #[trigger] p[g].2.len() >= 2 by {
        if g < a.len() {
            let ks = sorted_unique_int(positive_ids(sets, n));
            ks.lemma_filter_pred(online_dup(sets), g);
            assert(p[g] == a[g]);
        } else if g < a.len() + b.len() {
            let ks = sorted_unique(all_md5(sets, n));
            ks.lemma_filter_pred(md5_dup(sets), g - a.len());
            assert(p[g] == b[g - a.len()]);
        } else {
            let ks = sorted_unique(local_fps(sets, n));
            ks.lemma_filter_pred(fp_dup(sets), g - a.len() - b.len());
            assert(p[g] == c[g - a.len() - b.len()]);
        }
    }
    lemma_sort_groups_contains(p);
    assert forall|g: int| 0 <= g < expected_groups(sets).len() implies #[trigger] expected_groups(sets)[g].2.len() >= 2 by {
        let e = expected_groups(sets)[g];
        assert(p.contains(e));
        let i = choose|i: int| 0 <= i < p.len() && p[i] == e;
        assert(p[i].2.len() >= 2);
    }
}

} // verus!

verus! {

broadcast use vstd::string::group_string_axioms;

/// Trailing `\` and `/` removed.
pub open spec fn trim_seps_end(s: Seq<char>) -> Seq<char>
    decreases s.len(),
{
    if s.len() > 0 && (s.last() == '\\' || s.last() == '/') { trim_seps_end(s.drop_last()) } else { s }
}

/// The `\\?\` verbatim prefix removed.
pub open spec fn strip_verbatim(s: Seq<char>) -> Seq<char> {
    if starts_with(s, seq!['\\', '\\', '?', '\\']) { s.skip(4) } else { s }
}

/// Comparison key of a resolved path: lower-cased, without the verbatim prefix and trailing
/// separators.
pub open spec fn norm_key_spec(resolved: Seq<char>) -> Seq<char> {
    trim_seps_end(strip_verbatim(lowercase(resolved)))
}

/// Comparison key of a resolved path (the canonical form of its deepest existing ancestor with
/// the rest joined back on): lower-cased, verbatim prefix and trailing separators removed.
pub fn norm_key(resolved: &str) -> (r: String)
    ensures
        r@ == norm_key_spec(resolved@),
{
    let lower = to_lower(resolved);
    let v = chars_of(lower.as_str());
    let pre = vec!['\\', '\\', '?', '\\'];
    assert(v@.subrange(0, v.len() as int) =~= v@);
    assert(pre@ =~= seq!['\\', '\\', '?', '\\']);
    let start: usize = if has_prefix(&v, 0, v.len(), &pre) { 4 } else { 0 };
    assert(v@.subrange(start as int, v.len() as int) =~= strip_verbatim(v@));
    let mut end = v.len();
    while end > start && (v[end - 1] == '\\' || v[end - 1] == '/')
        invariant
            start <= end <= v.len(),
            trim_seps_end(strip_verbatim(v@)) == trim_seps_end(v@.subrange(start as int, end as int)),
        decreases end - start,
    {
        assert(v@.subrange(start as int, end as int).drop_last() =~= v@.subrange(start as int, end - 1));
        end -= 1;
    }
    string_of_range(&v, start, end)
}

/// `target` is the root `root` or lies under it.
pub open spec fn under_root(target: Seq<char>, root: Seq<char>) -> bool {
    root.len() > 0 && (target == root || starts_with(target, root.push('\\')) || starts_with(target, root.push('/')))
}


/// Some lazer root holds the path (case-insensitively, by their keys).
pub open spec fn in_lazer(path: Seq<char>, roots: Seq<Seq<char>>) -> bool {
    exists|i: int| 0 <= i < roots.len() && under_root(norm_key_spec(path), norm_key_spec(#[trigger] roots[i]))
}

/// Refuses a path that is a lazer root or lies under one (the lazer library is read only).
/// Paths and roots come resolved (see `norm_key`).
pub fn lazer_guard(path: &str, roots: &[String]) -> (r: Option<String>)
    ensures
        in_lazer(path@, string_views(roots@)) ==> (r matches Some(m) && m@ == crate::errcode::LAZER_READ_ONLY@),
        !in_lazer(path@, string_views(roots@)) ==> r is None,
{
    let target = norm_key(path);
    let t = chars_of(target.as_str());
    let mut i: usize = 0;
    while i < roots.len()
        invariant
            i <= roots.len(),
            t@ == norm_key_spec(path@),
            forall|j: int| 0 <= j < i ==> !under_root(t@, norm_key_spec(#[trigger] string_views(roots@)[j])),
        decreases roots.len() - i,
    {
        let rk = norm_key(roots[i].as_str());
        let r = chars_of(rk.as_str());
        assert(string_views(roots@)[i as int] == roots@[i as int]@);
        if r.len() > 0 {
            let mut bs = r.clone();
            bs.push('\\');
            let mut fs = r.clone();
            fs.push('/');
            assert(t@.subrange(0, t.len() as int) =~= t@);
            let eq = crate::text::compare_chars(&t, &r) == 0;
            proof {
                lemma_lex_props(t@, r@);
            }
            if eq || has_prefix(&t, 0, t.len(), &bs) || has_prefix(&t, 0, t.len(), &fs) {
                assert(under_root(t@, norm_key_spec(string_views(roots@)[i as int])));
                return Some(crate::errcode::ec(crate::errcode::LAZER_READ_ONLY));
            }
        }
        i += 1;
    }
    None
}

/// Why a delete or move refuses a path, in the order checked: a lazer path, then a missing
/// one, then one that is neither a set folder with `.osu` files nor an `.osz` file.
pub open spec fn refusal_spec(path: Seq<char>, roots: Seq<Seq<char>>, exists: bool, shape_ok: bool) -> Option<Seq<char>> {
    if in_lazer(path, roots) {
        Some(crate::errcode::LAZER_READ_ONLY@)
    } else if !exists {
        Some(crate::errcode::PATH_MISSING@)
    } else if !shape_ok {
        Some(crate::errcode::BAD_SHAPE@)
    } else {
        None
    }
}

/// The refusal of a delete or move source, `None` when it may go ahead.
pub fn path_refusal(path: &str, roots: &[String], exists: bool, shape_ok: bool) -> (r: Option<String>)
    ensures
        match refusal_spec(path@, string_views(roots@), exists, shape_ok) {
            Some(m) => r matches Some(s) && s@ == m,
            None => r is None,
        },
{
    match lazer_guard(path, roots) {
        Some(m) => Some(m),
        None => {
            if !exists {
                Some(crate::errcode::ec(crate::errcode::PATH_MISSING))
            } else if !shape_ok {
                Some(crate::errcode::ec(crate::errcode::BAD_SHAPE))
            } else {
                None
            }
        },
    }
}

/// `Path::extension` of a file name: after the last `.`, none when there is no `.` or the
/// only one leads the name.
pub open spec fn extension_spec(name: Seq<char>) -> Option<Seq<char>> {
    let d = last_index_of(name, '.');
    if d <= 0 { None } else { Some(name.skip(d + 1)) }
}

/// The file name's extension is `ext`, ASCII case ignored (the shape checks' test for `.osu`
/// and `.osz`).
pub fn extension_is(name: &str, ext: &str) -> (b: bool)
    ensures
        b == (extension_spec(name@) matches Some(e) && eq_ignore_ascii_case(e, ext@)),
{
    let v = chars_of(name);
    let e = chars_of(ext);
    match last_index(&v, 0, v.len(), '.') {
        Some(d) => {
            assert(v@.subrange(0, v.len() as int) =~= v@);
            if d == 0 {
                return false;
            }
            assert(v@.subrange(d + 1, v.len() as int) =~= v@.skip(d + 1));
            eq_ignore_case_range(&v, d + 1, v.len(), &e)
        },
        None => {
            assert(v@.subrange(0, v.len() as int) =~= v@);
            false
        },
    }
}

/// `name` split at its last `.` into stem and extension, unless the dot leads or ends it.
pub open spec fn split_ext_spec(name: Seq<char>) -> Option<(Seq<char>, Seq<char>)> {
    let d = last_index_of(name, '.');
    if d < 0 || d == 0 || d + 1 >= name.len() { None } else { Some((name.take(d), name.skip(d + 1))) }
}

/// Splits `name` at its last `.` into stem and extension; `None` when there is no dot, or it
/// leads or ends the name.
pub fn split_ext(name: &str) -> (r: Option<(String, String)>)
    ensures
        match split_ext_spec(name@) {
            Some((a, b)) => r matches Some((x, y)) && x@ == a && y@ == b,
            None => r is None,
        },
{
    let v = chars_of(name);
    assert(v@.subrange(0, v.len() as int) =~= v@);
    match last_index(&v, 0, v.len(), '.') {
        Some(d) => {
            if d == 0 || d + 1 >= v.len() {
                return None;
            }
            assert(v@.subrange(0, d as int) =~= v@.take(d as int));
            assert(v@.subrange(d + 1, v.len() as int) =~= v@.skip(d + 1));
            Some((string_of_range(&v, 0, d), string_of_range(&v, d + 1, v.len())))
        },
        None => None,
    }
}

/// Candidate number `n` for an entry called `name`: `name` itself first; then `name (n+1)`,
/// for files before the extension (`x (2).osz`).
pub open spec fn candidate_spec(name: Seq<char>, is_file: bool, n: nat) -> Seq<char> {
    if n == 0 {
        name
    } else {
        match split_ext_spec(name) {
            Some((stem, ext)) if is_file => stem + " ("@ + dec_digits(n + 1) + ")."@ + ext,
            _ => name + " ("@ + dec_digits(n + 1) + seq![')'],
        }
    }
}

fn candidate(name: &str, is_file: bool, n: u32) -> (r: String)
    requires
        n < u32::MAX,
    ensures
        r@ == candidate_spec(name@, is_file, n as nat),
{
    let mut s = String::new();
    if n == 0 {
        push_str(&mut s, name);
        return s;
    }
    if is_file {
        match split_ext(name) {
            Some((stem, ext)) => {
                push_str(&mut s, stem.as_str());
                push_str(&mut s, " (");
                push_dec(&mut s, (n + 1) as u64);
                push_str(&mut s, ").");
                push_str(&mut s, ext.as_str());
                return s;
            },
            None => {},
        }
    }
    push_str(&mut s, name);
    push_str(&mut s, " (");
    push_dec(&mut s, (n + 1) as u64);
    push_char(&mut s, ')');
    s
}

/// First name free in the target directory among `name`, `name (2)`, `name (3)`, ... (files
/// numbered before their extension), as `taken` reports them, with how many were skipped. Should
/// every number below `u32::MAX - 1` be taken, that last name is returned unchecked.
pub fn unique_name<F: Fn(&String) -> bool>(name: &str, is_file: bool, taken: &F) -> (r: (String, u32))
    requires
        forall|s: &String| taken.requires((s,)),
    ensures
        r.0@ == candidate_spec(name@, is_file, r.1 as nat),
        r.1 < u32::MAX - 1 ==> taken.ensures((&r.0,), false),
        forall|k: nat| k < r.1 ==> crate::thumbs::reported_taken(*taken, #[trigger] candidate_spec(name@, is_file, k)),
{
    let mut n: u32 = 0;
    loop
        invariant
            n < u32::MAX,
            forall|s: &String| taken.requires((s,)),
            forall|k: nat| k < n ==> crate::thumbs::reported_taken(*taken, #[trigger] candidate_spec(name@, is_file, k)),
        decreases u32::MAX - n,
    {
        let c = candidate(name, is_file, n);
        if n == u32::MAX - 1 || !taken(&c) {
            return (c, n);
        }
        assert(crate::thumbs::reported_taken(*taken, candidate_spec(name@, is_file, n as nat)));
        n += 1;
    }
}

} // verus!

verus! {

/// Largest archive `pack` writes, in bytes (2 GB).
pub const PACK_LIMIT_BYTES: u64 = 2_000_000_000;

/// One source going into an archive: its file name (when it has one) and its size in bytes.
#[derive(Debug)]
pub struct PackItem {
    pub name: Option<String>,
    pub size: u64,
}

/// Bytes of the first `k` items.
pub open spec fn sizes_sum(items: Seq<PackItem>, k: int) -> int
    decreases k,
{
    if k <= 0 { 0 } else { sizes_sum(items, k - 1) + items[k - 1].size }
}

/// First item that would take the archive past the limit, -1 when none does.
pub open spec fn first_over(items: Seq<PackItem>, k: int) -> int
    decreases k,
{
    if k <= 0 {
        -1
    } else if first_over(items, k - 1) >= 0 {
        first_over(items, k - 1)
    } else if sizes_sum(items, k - 1) + items[k - 1].size > PACK_LIMIT_BYTES {
        k - 1
    } else {
        -1
    }
}

/// Top-level entry name of an item: its file name, `archive` without one.
pub open spec fn raw_entry(it: PackItem) -> Seq<char> {
    match it.name {
        Some(n) => n@,
        None => "archive"@,
    }
}

/// Number of the first free candidate for `raw` among `used`, from `m` on (capped).
pub open spec fn pick_from(raw: Seq<char>, used: Seq<Seq<char>>, m: nat) -> nat
    decreases u32::MAX - m,
{
    if m >= u32::MAX - 1 || !used.contains(candidate_spec(raw, true, m)) {
        m
    } else {
        pick_from(raw, used, m + 1)
    }
}

/// Entry names of the items: each its raw name, numbered `x (2).ext`, `x (3).ext`, ... past
/// the names taken before it.
pub open spec fn entry_names(raws: Seq<Seq<char>>) -> Seq<Seq<char>>
    decreases raws.len(),
{
    if raws.len() == 0 {
        Seq::empty()
    } else {
        let prev = entry_names(raws.drop_last());
        prev.push(candidate_spec(raws.last(), true, pick_from(raws.last(), prev, 0)))
    }
}

/// The archive plan: the items' entry names, or the size error at the first item past 2 GB
/// with the bytes planned before it.
pub open spec fn pack_plan_spec(items: Seq<PackItem>) -> Result<Seq<Seq<char>>, Seq<char>> {
    let k = first_over(items, items.len() as int);
    if k >= 0 {
        Err(crate::errcode::PACK_TOO_BIG@ + seq!['|'] + dec_digits(sizes_sum(items, k) as nat))
    } else {
        Ok(entry_names(items.map_values(|it: PackItem| raw_entry(it))))
    }
}

fn contains_string(v: &Vec<String>, s: &String) -> (b: bool)
    ensures
        b == string_views(v@).contains(s@),
{
    let mut i: usize = 0;
    while i < v.len()
        invariant
            i <= v.len(),
            forall|j: int| 0 <= j < i ==> string_views(v@)[j] != s@,
        decreases v.len() - i,
    {
        if str_eq(v[i].as_str(), s.as_str()) {
            assert(string_views(v@)[i as int] == s@);
            return true;
        }
        i += 1;
    }
    false
}

/// Plans an archive: entry names for the items in order, numbered past collisions, refused
/// whole once the running size would pass 2 GB.
pub fn pack_plan(items: &[PackItem]) -> (r: Result<Vec<String>, String>)
    ensures
        match pack_plan_spec(items@) {
            Ok(names) => r matches Ok(v) && string_views(v@) == names,
            Err(e) => r matches Err(m) && m@ == e,
        },
{
    let ghost raws = items@.map_values(|it: PackItem| raw_entry(it));
    let mut used: Vec<String> = Vec::new();
    let mut total: u64 = 0;
    let mut i: usize = 0;
    while i < items.len()
        invariant
            i <= items.len(),
            raws == items@.map_values(|it: PackItem| raw_entry(it)),
            first_over(items@, i as int) < 0,
            total as int == sizes_sum(items@, i as int),
            total <= PACK_LIMIT_BYTES,
            string_views(used@) == entry_names(raws.take(i as int)),
        decreases items.len() - i,
    {
        let size = items[i].size;
        if size > PACK_LIMIT_BYTES - total {
            proof {
                assert(first_over(items@, i + 1) == i);
                lemma_first_over_stays(items@, i as int, items.len() as int);
            }
            let mut t = String::new();
            push_dec(&mut t, total);
            return Err(crate::errcode::ec1(crate::errcode::PACK_TOO_BIG, t.as_str()));
        }
        total = total + size;
        let raw: String = match &items[i].name {
            Some(n) => n.clone(),
            None => {
                let mut a = String::new();
                push_str(&mut a, "archive");
                a
            },
        };
        assert(raw@ == raws[i as int]);
        assert(raws.take(i + 1).drop_last() =~= raws.take(i as int));
        let ghost prev = string_views(used@);
        let mut m: u32 = 0;
        let mut name = candidate(raw.as_str(), true, 0);
        while m < u32::MAX - 1 && contains_string(&used, &name)
            invariant
                m < u32::MAX,
                name@ == candidate_spec(raw@, true, m as nat),
                prev == string_views(used@),
                pick_from(raw@, prev, 0) == pick_from(raw@, prev, m as nat),
            decreases u32::MAX - m,
        {
            m += 1;
            name = candidate(raw.as_str(), true, m);
        }
        let ghost nv = name@;
        used.push(name);
        assert(string_views(used@) =~= prev.push(nv));
        i += 1;
    }
    assert(raws.take(items.len() as int) =~= raws);
    Ok(used)
}

proof fn lemma_first_over_stays(items: Seq<PackItem>, k: int, n: int)
    requires
        0 <= k < n <= items.len(),
        first_over(items, k + 1) == k,
    ensures
        first_over(items, n) == k,
    decreases n - k,
{
    if n > k + 1 {
        lemma_first_over_stays(items, k, n - 1);
    }
}

} // verus!

verus! {

proof fn lemma_candidate_injective(raw: Seq<char>, m1: nat, m2: nat)
    requires
        candidate_spec(raw, true, m1) == candidate_spec(raw, true, m2),
    ensures
        m1 == m2,
{
    reveal_strlit(" (");
    reveal_strlit(").");
    let c1 = candidate_spec(raw, true, m1);
    let c2 = candidate_spec(raw, true, m2);
    crate::text::lemma_dec_digits_len(m1 + 1);
    crate::text::lemma_dec_digits_len(m2 + 1);
    match split_ext_spec(raw) {
        Some((stem, ext)) => {
            let d = last_index_of(raw, '.');
            assert(stem.len() == d && ext.len() == raw.len() - d - 1);
            if m1 > 0 && m2 > 0 {
                let d1 = dec_digits(m1 + 1);
                let d2 = dec_digits(m2 + 1);
                assert(c1 == stem + " ("@ + d1 + ")."@ + ext);
                assert(c2 == stem + " ("@ + d2 + ")."@ + ext);
                assert(d1.len() == d2.len());
                assert(c1.subrange(d + 2, d + 2 + d1.len()) =~= d1);
                assert(c2.subrange(d + 2, d + 2 + d2.len()) =~= d2);
                crate::text::lemma_dec_digits_injective(m1 + 1, m2 + 1);
            } else if m1 > 0 {
                assert(c1.len() > raw.len());
            } else if m2 > 0 {
                assert(c2.len() > raw.len());
            }
        },
        None => {
            if m1 > 0 && m2 > 0 {
                let d1 = dec_digits(m1 + 1);
                let d2 = dec_digits(m2 + 1);
                assert(c1 == raw + " ("@ + d1 + seq![')']);
                assert(c2 == raw + " ("@ + d2 + seq![')']);
                assert(c1.subrange(raw.len() as int + 2, raw.len() as int + 2 + d1.len()) =~= d1);
                assert(c2.subrange(raw.len() as int + 2, raw.len() as int + 2 + d2.len()) =~= d2);
                crate::text::lemma_dec_digits_injective(m1 + 1, m2 + 1);
            } else if m1 > 0 {
                assert(c1.len() > raw.len());
            } else if m2 > 0 {
                assert(c2.len() > raw.len());
            }
        },
    }
}

proof fn lemma_pick_from(raw: Seq<char>, used: Seq<Seq<char>>, m: nat)
    requires
        m <= u32::MAX - 1,
    ensures
        m <= pick_from(raw, used, m) <= u32::MAX - 1,
        pick_from(raw, used, m) < u32::MAX - 1 ==> !used.contains(candidate_spec(raw, true, pick_from(raw, used, m))),
        pick_from(raw, used, m) == u32::MAX - 1 ==> forall|k: nat| m <= k < u32::MAX - 1 ==> used.contains(#[trigger] candidate_spec(raw, true, k)),
    decreases u32::MAX - m,
{
    if m < u32::MAX - 1 && used.contains(candidate_spec(raw, true, m)) {
        lemma_pick_from(raw, used, m + 1);
        let r = pick_from(raw, used, m);
        if r == u32::MAX - 1 {
            assert forall|k: nat| m <= k < u32::MAX - 1 implies used.contains(#[trigger] candidate_spec(raw, true, k)) by {
                if k > m {
                    assert(m + 1 <= k);
                }
            }
        }
    }
}

/// Fewer names than numbers to try leave a candidate free.
proof fn lemma_some_candidate_free(raw: Seq<char>, used: Seq<Seq<char>>)
    requires
        used.len() < u32::MAX - 1,
    ensures
        exists|k: nat| k < u32::MAX - 1 && !used.contains(#[trigger] candidate_spec(raw, true, k)),
{
    let n: int = u32::MAX - 1;
    if forall|k: nat| k < u32::MAX - 1 ==> used.contains(#[trigger] candidate_spec(raw, true, k)) {
        let f = |k: int| candidate_spec(raw, true, k as nat);
        let x = vstd::set_lib::set_int_range(0, n);
        vstd::set_lib::lemma_int_range(0, n);
        assert(vstd::relations::injective_on(f, x)) by {
            assert forall|a: int, b: int| x.contains(a) && x.contains(b) && #[trigger] f(a) == #[trigger] f(b) implies a == b by {
                lemma_candidate_injective(raw, a as nat, b as nat);
            }
        }
        let y = x.map(f);
        vstd::set_lib::lemma_map_size(x, y, f);
        assert(y.subset_of(used.to_set())) by {
            assert forall|c: Seq<char>| y.contains(c) implies used.to_set().contains(c) by {
                let a = choose|a: int| x.contains(a) && f(a) == c;
                assert(used.contains(candidate_spec(raw, true, a as nat)));
            }
        }
        used.lemma_cardinality_of_set();
        vstd::set_lib::lemma_len_subset(y, used.to_set());
        assert(false);
    }
}

proof fn lemma_entry_names_distinct(raws: Seq<Seq<char>>)
    requires
        raws.len() < u32::MAX - 1,
    ensures
        entry_names(raws).len() == raws.len(),
        forall|i: int, j: int| 0 <= i < j < raws.len() ==> entry_names(raws)[i] != entry_names(raws)[j],
    decreases raws.len(),
{
    if raws.len() > 0 {
        let prev = entry_names(raws.drop_last());
        lemma_entry_names_distinct(raws.drop_last());
        lemma_pick_from(raws.last(), prev, 0);
        lemma_some_candidate_free(raws.last(), prev);
        let p = pick_from(raws.last(), prev, 0);
        if p == u32::MAX - 1 {
            let k = choose|k: nat| k < u32::MAX - 1 && !prev.contains(#[trigger] candidate_spec(raws.last(), true, k));
            assert(prev.contains(candidate_spec(raws.last(), true, k)));
        }
        let nv = candidate_spec(raws.last(), true, p);
        let names = entry_names(raws);
        assert(names == prev.push(nv));
        assert forall|i: int, j: int| 0 <= i < j < raws.len() implies names[i] != names[j] by {
            if j == raws.len() - 1 {
                assert(names[i] == prev[i]);
                if names[i] == names[j] {
                    assert(prev.contains(nv));
                }
            } else {
                assert(names[i] == prev[i] && names[j] == prev[j]);
            }
        }
    }
}

/// The entries of a planned archive have pairwise different names, as long as there are fewer
/// items than numbered names to try (`u32::MAX - 1`).
pub proof fn pack_entry_names_distinct(items: Seq<PackItem>)
    requires
        items.len() < u32::MAX - 1,
    ensures
        pack_plan_spec(items) matches Ok(names) ==> names.len() == items.len()
            && forall|i: int, j: int| 0 <= i < j < names.len() ==> names[i] != names[j],
{
    lemma_entry_names_distinct(items.map_values(|it: PackItem| raw_entry(it)));
}

} // verus!

verus! {

/// The oldest `date_added` of a group is the least of its members' dates: no member has an
/// earlier one, some member has exactly it, and there is none only when no member has a date.
pub proof fn oldest_is_least_date(sets: Seq<SetRecord>, idxs: Seq<int>)
    ensures
        oldest(sets, idxs) is None <==> forall|k: int| 0 <= k < idxs.len() ==> (#[trigger] sets[idxs[k]]).date_added is None,
        oldest(sets, idxs) matches Some(m) ==> forall|k: int| 0 <= k < idxs.len() ==> match (#[trigger] sets[idxs[k]]).date_added {
            Some(d) => m <= d,
            None => true,
        },
        oldest(sets, idxs) matches Some(m) ==> exists|k: int| 0 <= k < idxs.len() && (#[trigger] sets[idxs[k]]).date_added == Some(m),
    decreases idxs.len(),
{
    if idxs.len() > 0 {
        let p = idxs.drop_last();
        oldest_is_least_date(sets, p);
        let n = idxs.len() - 1;
        assert forall|k: int| 0 <= k < n implies idxs[k] == p[k] by {}
        match oldest(sets, p) {
            Some(m0) => {
                let k0 = choose|k: int| 0 <= k < p.len() && (#[trigger] sets[p[k]]).date_added == Some(m0);
                assert(sets[idxs[k0]].date_added == Some(m0));
            },
            None => {},
        }
        if oldest(sets, idxs) is None {
            assert forall|k: int| 0 <= k < idxs.len() implies (#[trigger] sets[idxs[k]]).date_added is None by {
                if k < n {
                    assert(sets[p[k]].date_added is None);
                }
            }
        }
        if oldest(sets, idxs) is Some {
            let m = oldest(sets, idxs).unwrap();
            assert forall|k: int| 0 <= k < idxs.len() implies match (#[trigger] sets[idxs[k]]).date_added {
                Some(d) => m <= d,
                None => true,
            } by {
                if k < n {
                    assert(sets[idxs[k]] == sets[p[k]]);
                }
            }
            if sets[idxs[n]].date_added == Some(m) {
                assert(sets[idxs[n]].date_added == Some(m));
            }
        }
    }
}

} // verus!
