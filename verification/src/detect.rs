//! Finding libraries on the machine and checking a chosen one. The file system is probed by
//! the caller; these functions decide from what it found.
use vstd::prelude::*;
use crate::model::{LibraryCandidate, SourceKind};
use crate::text::{chars_of, str_eq, push_str, eq_ignore_ascii_case, eq_ignore_case_range};
use crate::errcode::{ec, ec1, DIR_NOT_FOUND, LAZER_NO_REALM, STABLE_IS_LAZER};

verus! {

/// Checks a library directory chosen by hand, given what the file system says of it: whether
/// it is a directory, whether it (resolved from an install directory when it is one) looks like
/// a lazer data directory, and whether it holds `client.realm`.
pub fn validate_library(kind: SourceKind, path: &str, is_dir: bool, lazer_data: bool, has_realm: bool) -> (r: Result<(), String>)
    ensures
        !is_dir ==> (r matches Err(e) && e@ == DIR_NOT_FOUND@ + seq!['|'] + path@),
        is_dir && kind == SourceKind::Lazer ==> (if lazer_data { r is Ok } else { r matches Err(e) && e@ == LAZER_NO_REALM@ }),
        is_dir && kind == SourceKind::Stable ==> (if has_realm { r matches Err(e) && e@ == STABLE_IS_LAZER@ } else { r is Ok }),
        is_dir && kind == SourceKind::OszFolder ==> r is Ok,
{
    if !is_dir {
        return Err(ec1(DIR_NOT_FOUND, path));
    }
    match kind {
        SourceKind::Lazer => {
            if lazer_data {
                Ok(())
            } else {
                Err(ec(LAZER_NO_REALM))
            }
        },
        SourceKind::Stable => {
            if has_realm {
                Err(ec(STABLE_IS_LAZER))
            } else {
                Ok(())
            }
        },
        SourceKind::OszFolder => Ok(()),
    }
}

/// An osu!lazer install directory (which holds no beatmaps): named `osulazer`, or holding an
/// `Update.exe` or a `current` directory (names compared ignoring ASCII case). `entries` are
/// (name, is a directory).
pub open spec fn install_dir_spec(name: Option<Seq<char>>, entries: Seq<(Seq<char>, bool)>) -> bool {
    (name matches Some(n) && eq_ignore_ascii_case(n, "osulazer"@))
        || exists|i: int| 0 <= i < entries.len() && (eq_ignore_ascii_case(#[trigger] entries[i].0, "Update.exe"@)
            || (eq_ignore_ascii_case(entries[i].0, "current"@) && entries[i].1))
}

pub open spec fn entry_views(v: Seq<(String, bool)>) -> Seq<(Seq<char>, bool)> {
    v.map_values(|e: (String, bool)| (e.0@, e.1))
}

fn ci_eq(a: &str, b: &str) -> (r: bool)
    ensures
        r == eq_ignore_ascii_case(a@, b@),
{
    let v = chars_of(a);
    let w = chars_of(b);
    assert(v@.subrange(0, v@.len() as int) =~= v@);
    eq_ignore_case_range(v.as_slice(), 0, v.len(), w.as_slice())
}

/// Whether a directory, by its name and its entries, is an install directory.
pub fn is_install_dir(name: Option<&str>, entries: &Vec<(String, bool)>) -> (b: bool)
    ensures
        b == install_dir_spec(match name { Some(n) => Some(n@), None => None }, entry_views(entries@)),
{
    let ghost ev = entry_views(entries@);
    match name {
        Some(n) => {
            if ci_eq(n, "osulazer") {
                return true;
            }
        },
        None => {},
    }
    let mut i: usize = 0;
    while i < entries.len()
        invariant
            i <= entries@.len(),
            ev == entry_views(entries@),
            forall|j: int| 0 <= j < i ==> !(eq_ignore_ascii_case(#[trigger] ev[j].0, "Update.exe"@)
                || (eq_ignore_ascii_case(ev[j].0, "current"@) && ev[j].1)),
        decreases entries@.len() - i,
    {
        assert(ev[i as int] == (entries@[i as int].0@, entries@[i as int].1));
        if ci_eq(entries[i].0.as_str(), "Update.exe") || (ci_eq(entries[i].0.as_str(), "current") && entries[i].1) {
            assert(eq_ignore_ascii_case(ev[i as int].0, "Update.exe"@) || (eq_ignore_ascii_case(ev[i as int].0, "current"@) && ev[i as int].1));
            return true;
        }
        i += 1;
    }
    false
}

/// Which directory a lazer path resolves to: the path itself when it looks like a data
/// directory; for an install directory, the first roaming candidate that looks like one; the
/// path itself otherwise. `None` means the path itself, `Some(i)` roaming candidate `i`.
pub open spec fn resolve_spec(looks_data: bool, install_dir: bool, roaming: Seq<bool>) -> Option<int> {
    if looks_data || !install_dir {
        None
    } else {
        first_true(roaming, roaming.len() as int)
    }
}

pub open spec fn first_true(s: Seq<bool>, n: int) -> Option<int>
    decreases n,
{
    if n <= 0 {
        None
    } else {
        match first_true(s, n - 1) {
            Some(i) => Some(i),
            None => if s[n - 1] { Some(n - 1) } else { None },
        }
    }
}

proof fn lemma_first_true_stays(s: Seq<bool>, m: int, n: int)
    requires
        first_true(s, m) is Some,
        0 <= m <= n,
    ensures
        first_true(s, n) == first_true(s, m),
    decreases n - m,
{
    if n > m {
        lemma_first_true_stays(s, m, n - 1);
    }
}

/// Resolves a lazer path (see `resolve_spec`); `roaming[i]` tells whether roaming candidate
/// `i` (`%APPDATA%\osu!`, then `%APPDATA%\osu`) looks like a data directory.
pub fn resolve_lazer_data_dir(looks_data: bool, install_dir: bool, roaming: &[bool]) -> (r: Option<usize>)
    ensures
        match r {
            Some(i) => resolve_spec(looks_data, install_dir, roaming@) == Some(i as int) && i < roaming@.len(),
            None => resolve_spec(looks_data, install_dir, roaming@) is None,
        },
{
    if looks_data || !install_dir {
        return None;
    }
    let mut i: usize = 0;
    while i < roaming.len()
        invariant
            i <= roaming@.len(),
            first_true(roaming@, i as int) is None,
            !looks_data && install_dir,
        decreases roaming@.len() - i,
    {
        if roaming[i] {
            proof {
                assert(first_true(roaming@, i + 1) == Some(i as int));
                lemma_first_true_stays(roaming@, i + 1, roaming@.len() as int);
            }
            return Some(i);
        }
        i += 1;
    }
    None
}

} // verus!

verus! {

/// `Path::new(a) == Path::new(b)`: paths compared component by component (how separators
/// are read depends on the platform, so only equal texts are known to compare equal).
#[verifier::external_body]
fn same_path(a: &str, b: &str) -> (r: bool)
    ensures
        a@ == b@ ==> r,
{
    std::path::Path::new(a) == std::path::Path::new(b)
}

/// Whether the list holds a candidate of this kind at this path.
fn already(list: &Vec<LibraryCandidate>, kind: SourceKind, path: &str) -> (b: bool)
    ensures
        (exists|j: int| 0 <= j < list@.len() && (#[trigger] list@[j]).kind == kind && list@[j].path@ == path@) ==> b,
        b ==> exists|j: int| 0 <= j < list@.len() && (#[trigger] list@[j]).kind == kind,
{
    let mut i: usize = 0;
    while i < list.len()
        invariant
            i <= list@.len(),
            forall|j: int| 0 <= j < i ==> !((#[trigger] list@[j]).kind == kind && list@[j].path@ == path@),
        decreases list@.len() - i,
    {
        if list[i].kind == kind && same_path(list[i].path.as_str(), path) {
            return true;
        }
        i += 1;
    }
    false
}

/// A found library: `kind` at `path`, described by the `detail` key. With `dedupe`, it is left
/// out when the list already holds one of its kind at the same path (paths compared as `Path`s).
pub fn add_candidate(out: &mut Vec<LibraryCandidate>, kind: SourceKind, path: &str, detail: &str, dedupe: bool)
    ensures
        final(out)@ == old(out)@ || (final(out)@.len() == old(out)@.len() + 1 && final(out)@.drop_last() == old(out)@
            && final(out)@.last().kind == kind && final(out)@.last().path@ == path@ && final(out)@.last().detail@ == detail@),
        !dedupe ==> final(out)@.len() == old(out)@.len() + 1,
        dedupe && (forall|j: int| 0 <= j < old(out)@.len() ==> (#[trigger] old(out)@[j]).kind != kind) ==> final(out)@.len() == old(out)@.len() + 1,
        dedupe && (exists|j: int| 0 <= j < old(out)@.len() && (#[trigger] old(out)@[j]).kind == kind && old(out)@[j].path@ == path@) ==> final(out)@ == old(out)@,
{
    if dedupe && already(out, kind, path) {
        return;
    }
    let mut p = String::new();
    push_str(&mut p, path);
    let mut d = String::new();
    push_str(&mut d, detail);
    out.push(LibraryCandidate { kind, path: p, detail: d });
    assert(out@.drop_last() =~= old(out)@);
}

} // verus!
