//! Thumbnail cache keys, background export names and the Windows-safe file-name rules.
use vstd::prelude::*;
use vstd::utf8::{encode_utf8, valid_utf8, decode_utf8};
use sha2::Digest;
use crate::text::{chars_of, dec_digits, int_text, lowercase, to_lower, push_char, push_dec, push_str, push_range, string_of, string_of_range, rfind_char, find_char, has_suffix, starts_with, ends_with, all_digits, first_index_of, last_index_of, occurs_at, contains_seq, first_occurrence};

verus! {

broadcast use vstd::string::group_string_axioms;

/// SHA-256 digest of a byte string.
pub uninterp spec fn sha256_of(data: Seq<u8>) -> Seq<u8>;

/// Text that `String::from_utf8_lossy` makes of a byte string.
pub uninterp spec fn utf8_lossy(bytes: Seq<u8>) -> Seq<char>;

/// `sha2::Sha256::digest`: the 32-byte SHA-256 digest of `data`.
#[verifier::external_body]
fn sha256_digest(data: &[u8]) -> (r: Vec<u8>)
    ensures
        r@ == sha256_of(data@),
        r@.len() == 32,
{
    sha2::Sha256::digest(data).to_vec()
}

/// `String::from_utf8_lossy`: the bytes decoded as UTF-8, each invalid sequence replaced by
/// U+FFFD; valid UTF-8 decodes as it stands.
#[verifier::external_body]
pub(crate) fn from_utf8_lossy(bytes: &[u8]) -> (r: String)
    ensures
        r@ == utf8_lossy(bytes@),
        valid_utf8(bytes@) ==> r@ == decode_utf8(bytes@),
{
    String::from_utf8_lossy(bytes).into_owned()
}

/// Lower-case hexadecimal digit of `d` (0..=15).
pub open spec fn hex_digit(d: int) -> char {
    if d < 10 { (48 + d) as char } else { (87 + d) as char }
}

/// Two lower-case hexadecimal digits per byte (`{:02x}`).
pub open spec fn hex_text(bytes: Seq<u8>) -> Seq<char>
    decreases bytes.len(),
{
    if bytes.len() == 0 {
        Seq::empty()
    } else {
        hex_text(bytes.drop_last()) + seq![hex_digit(bytes.last() as int / 16), hex_digit(bytes.last() as int % 16)]
    }
}

fn hex_digit_exec(d: u8) -> (c: char)
    requires
        d < 16,
    ensures
        c == hex_digit(d as int),
{
    if d < 10 { (48 + d) as char } else { (87 + d) as char }
}

/// Appends `hex_text(bytes)`.
pub(crate) fn push_hex(s: &mut String, bytes: &[u8])
    ensures
        final(s)@ == old(s)@ + hex_text(bytes@),
{
    let mut i: usize = 0;
    while i < bytes.len()
        invariant
            i <= bytes.len(),
            s@ == old(s)@ + hex_text(bytes@.take(i as int)),
        decreases bytes.len() - i,
    {
        assert(bytes@.take(i + 1).drop_last() =~= bytes@.take(i as int));
        let b = bytes[i];
        push_char(s, hex_digit_exec(b / 16));
        push_char(s, hex_digit_exec(b % 16));
        i += 1;
        assert(s@ =~= old(s)@ + hex_text(bytes@.take(i as int)));
    }
    assert(bytes@.take(bytes.len() as int) =~= bytes@);
}

/// Height of a 16:9 thumbnail `size` pixels wide.
pub open spec fn thumb_height(size: u32) -> nat {
    (size * 9 / 16) as nat
}

/// `_{size}x{height}.jpg`.
pub open spec fn size_suffix(size: u32) -> Seq<char> {
    seq!['_'] + dec_digits(size as nat) + seq!['x'] + dec_digits(thumb_height(size)) + ".jpg"@
}

/// Cache key of a local source: the SHA-256 of the lower-cased path in hex, then the size.
pub open spec fn thumb_key_spec(path: Seq<char>, size: u32) -> Seq<char> {
    hex_text(sha256_of(encode_utf8(lowercase(path)))) + size_suffix(size)
}

fn push_size_suffix(s: &mut String, size: u32)
    requires
        size * 9 <= u32::MAX,
    ensures
        final(s)@ == old(s)@ + size_suffix(size),
{
    push_char(s, '_');
    push_dec(s, size as u64);
    push_char(s, 'x');
    push_dec(s, (size * 9 / 16) as u64);
    push_str(s, ".jpg");
    assert(s@ =~= old(s)@ + size_suffix(size));
}

/// Stable cache key: SHA-256 of the lower-cased source path in hex, then `_{w}x{h}.jpg` for
/// a 16:9 thumbnail `size` pixels wide.
pub fn thumb_key(source_path: &str, size: u32) -> (r: String)
    requires
        size * 9 <= u32::MAX,
    ensures
        r@ == thumb_key_spec(source_path@, size),
        1 <= size <= 4096 ==> thumb_key_valid(r@),
{
    let lower = to_lower(source_path);
    let digest = sha256_digest(lower.as_str().as_bytes());
    let mut key = String::new();
    push_hex(&mut key, digest.as_slice());
    push_size_suffix(&mut key, size);
    proof {
        if 1 <= size <= 4096 {
            lemma_hash_key_valid(digest@, size);
        }
    }
    key
}

/// Cache key of an online background: `web{set_id}_{w}x{h}.jpg`.
pub open spec fn online_thumb_key_spec(set_id: i64, size: u32) -> Seq<char> {
    "web"@ + int_text(set_id as int) + size_suffix(size)
}

/// Cache key of an online background: `web{set_id}_{w}x{h}.jpg`, disjoint from the local keys.
pub fn online_thumb_key(set_id: i64, size: u32) -> (r: String)
    requires
        size * 9 <= u32::MAX,
    ensures
        r@ == online_thumb_key_spec(set_id, size),
        0 < set_id < 1000000000000 && 1 <= size <= 4096 ==> thumb_key_valid(r@),
{
    proof {
        if 0 < set_id < 1000000000000 && 1 <= size <= 4096 {
            lemma_web_key_valid(set_id, size);
        }
    }
    let mut key = String::new();
    push_str(&mut key, "web");
    crate::text::push_i64(&mut key, set_id);
    push_size_suffix(&mut key, size);
    key
}

} // verus!

verus! {

/// `char::is_control`: the general category Cc.
pub open spec fn is_control(c: char) -> bool {
    (c as u32) <= 0x1F || (0x7F <= (c as u32) && (c as u32) <= 0x9F)
}

/// Characters Windows refuses in file names.
pub open spec fn is_reserved(c: char) -> bool {
    c == '<' || c == '>' || c == ':' || c == '"' || c == '/' || c == '\\' || c == '|' || c == '?' || c == '*'
}

/// Control characters dropped, reserved ones replaced by `_`.
pub open spec fn cleaned(s: Seq<char>) -> Seq<char>
    decreases s.len(),
{
    if s.len() == 0 {
        Seq::empty()
    } else if is_control(s.last()) {
        cleaned(s.drop_last())
    } else {
        cleaned(s.drop_last()).push(if is_reserved(s.last()) { '_' } else { s.last() })
    }
}

/// Trailing dots and spaces removed.
pub open spec fn strip_dots_spaces_end(s: Seq<char>) -> Seq<char>
    decreases s.len(),
{
    if s.len() > 0 && (s.last() == '.' || s.last() == ' ') {
        strip_dots_spaces_end(s.drop_last())
    } else {
        s
    }
}

/// Leading spaces removed.
pub open spec fn strip_spaces_start(s: Seq<char>) -> Seq<char>
    decreases s.len(),
{
    if s.len() > 0 && s[0] == ' ' {
        strip_spaces_start(s.drop_first())
    } else {
        s
    }
}

/// The Windows-safe form of a name; `untitled` when nothing is left.
pub open spec fn sanitized(name: Seq<char>) -> Seq<char> {
    let t = strip_spaces_start(strip_dots_spaces_end(cleaned(name)));
    if t.len() == 0 { "untitled"@ } else { t }
}

fn is_control_exec(c: char) -> (b: bool)
    ensures
        b == is_control(c),
{
    let v = c as u32;
    v <= 0x1F || (0x7F <= v && v <= 0x9F)
}

/// Windows-safe file name: control characters dropped, `<>:"/\|?*` replaced by `_`, trailing
/// dots and spaces and leading spaces removed; `untitled` when nothing is left.
pub fn sanitize_filename(name: &str) -> (r: String)
    ensures
        r@ == sanitized(name@),
{
    let cs = chars_of(name);
    let mut v: Vec<char> = Vec::new();
    let mut i: usize = 0;
    while i < cs.len()
        invariant
            i <= cs.len(),
            v@ == cleaned(cs@.take(i as int)),
        decreases cs.len() - i,
    {
        assert(cs@.take(i + 1).drop_last() =~= cs@.take(i as int));
        let c = cs[i];
        if !is_control_exec(c) {
            let reserved = c == '<' || c == '>' || c == ':' || c == '"' || c == '/' || c == '\\'
                || c == '|' || c == '?' || c == '*';
            v.push(if reserved { '_' } else { c });
        }
        i += 1;
    }
    assert(cs@.take(cs.len() as int) =~= cs@);
    let mut hi = v.len();
    assert(v@.take(hi as int) =~= v@);
    while hi > 0 && (v[hi - 1] == '.' || v[hi - 1] == ' ')
        invariant
            hi <= v.len(),
            strip_dots_spaces_end(v@) == strip_dots_spaces_end(v@.take(hi as int)),
        decreases hi,
    {
        assert(v@.take(hi as int).drop_last() =~= v@.take(hi - 1));
        hi -= 1;
    }
    let mut lo: usize = 0;
    assert(v@.take(hi as int).subrange(0, hi as int) =~= v@.take(hi as int));
    while lo < hi && v[lo] == ' '
        invariant
            lo <= hi <= v.len(),
            strip_spaces_start(strip_dots_spaces_end(v@)) == strip_spaces_start(v@.subrange(lo as int, hi as int)),
        decreases hi - lo,
    {
        assert(v@.subrange(lo as int, hi as int).drop_first() =~= v@.subrange(lo + 1, hi as int));
        lo += 1;
    }
    if lo == hi {
        assert(v@.subrange(lo as int, hi as int).len() == 0);
        let mut u = String::new();
        push_str(&mut u, "untitled");
        u
    } else {
        string_of_range(&v, lo, hi)
    }
}

/// File extension (without the dot) that an image's first bytes call for.
pub open spec fn ext_spec(b: Seq<u8>) -> Seq<char> {
    if b.len() >= 3 && b[0] == 0xFF && b[1] == 0xD8 && b[2] == 0xFF {
        "jpg"@
    } else if b.len() >= 4 && b[0] == 0x89 && b[1] == 0x50 && b[2] == 0x4E && b[3] == 0x47 {
        "png"@
    } else if b.len() >= 12 && b[0] == 0x52 && b[1] == 0x49 && b[2] == 0x46 && b[3] == 0x46
        && b[8] == 0x57 && b[9] == 0x45 && b[10] == 0x42 && b[11] == 0x50 {
        "webp"@
    } else {
        "img"@
    }
}

/// Extension (without the dot) by the image's magic bytes: jpg, png, webp, else img.
pub fn ext_from_magic(bytes: &[u8]) -> (r: &'static str)
    ensures
        r@ == ext_spec(bytes@),
{
    proof {
        reveal_strlit("jpg");
        reveal_strlit("png");
        reveal_strlit("webp");
        reveal_strlit("img");
    }
    if bytes.len() >= 3 && bytes[0] == 0xFF && bytes[1] == 0xD8 && bytes[2] == 0xFF {
        "jpg"
    } else if bytes.len() >= 4 && bytes[0] == 0x89 && bytes[1] == 0x50 && bytes[2] == 0x4E
        && bytes[3] == 0x47 {
        "png"
    } else if bytes.len() >= 12 && bytes[0] == 0x52 && bytes[1] == 0x49 && bytes[2] == 0x46
        && bytes[3] == 0x46 && bytes[8] == 0x57 && bytes[9] == 0x45 && bytes[10] == 0x42
        && bytes[11] == 0x50 {
        "webp"
    } else {
        "img"
    }
}

/// Candidate file name number `n`: `base.ext`, then `base (2).ext`, `base (3).ext`, ...
pub open spec fn numbered_name(base: Seq<char>, ext: Seq<char>, n: nat) -> Seq<char> {
    if n == 0 {
        base + seq!['.'] + ext
    } else {
        base + " ("@ + dec_digits(n + 1) + ")."@ + ext
    }
}

fn numbered_name_exec(base: &str, ext: &str, n: u32) -> (r: String)
    requires
        n < u32::MAX,
    ensures
        r@ == numbered_name(base@, ext@, n as nat),
{
    let mut s = String::new();
    push_str(&mut s, base);
    if n == 0 {
        push_char(&mut s, '.');
    } else {
        push_str(&mut s, " (");
        push_dec(&mut s, (n + 1) as u64);
        push_str(&mut s, ").");
    }
    push_str(&mut s, ext);
    proof {
        reveal_strlit(" (");
        reveal_strlit(").");
    }
    assert(s@ =~= numbered_name(base@, ext@, n as nat));
    s
}

/// `taken` reported a name with this text as taken.
pub open spec fn reported_taken<F: Fn(&String) -> bool>(taken: F, name: Seq<char>) -> bool {
    exists|s: String| s@ == name && #[trigger] taken.ensures((&s,), true)
}

/// First free name among `base.ext`, `base (2).ext`, `base (3).ext`, ... as `taken` reports
/// them, with the number of names skipped. Should every number below `u32::MAX - 1` be taken,
/// the name for that last number is returned unchecked.
pub fn unique_path<F: Fn(&String) -> bool>(base: &str, ext: &str, taken: &F) -> (r: (String, u32))
    requires
        forall|s: &String| taken.requires((s,)),
    ensures
        r.0@ == numbered_name(base@, ext@, r.1 as nat),
        r.1 < u32::MAX - 1 ==> taken.ensures((&r.0,), false),
        forall|k: nat| k < r.1 ==> reported_taken(*taken, #[trigger] numbered_name(base@, ext@, k)),
{
    let mut n: u32 = 0;
    loop
        invariant
            n < u32::MAX,
            forall|s: &String| taken.requires((s,)),
            forall|k: nat| k < n ==> reported_taken(*taken, #[trigger] numbered_name(base@, ext@, k)),
        decreases u32::MAX - n,
    {
        let name = numbered_name_exec(base, ext, n);
        if n == u32::MAX - 1 {
            return (name, n);
        }
        if !taken(&name) {
            return (name, n);
        }
        assert(reported_taken(*taken, numbered_name(base@, ext@, n as nat)));
        n += 1;
    }
}

/// Background export name: `{artist} - {title} [{creator}]`, made Windows-safe.
pub open spec fn export_base_spec(artist: Seq<char>, title: Seq<char>, creator: Seq<char>) -> Seq<char> {
    sanitized(artist + " - "@ + title + " ["@ + creator + seq![']'])
}

/// Background export name: `{artist} - {title} [{creator}]`, made Windows-safe.
pub fn export_base_name(artist: &str, title: &str, creator: &str) -> (r: String)
    ensures
        r@ == export_base_spec(artist@, title@, creator@),
{
    let mut s = String::new();
    push_str(&mut s, artist);
    push_str(&mut s, " - ");
    push_str(&mut s, title);
    push_str(&mut s, " [");
    push_str(&mut s, creator);
    push_char(&mut s, ']');
    proof {
        reveal_strlit(" - ");
        reveal_strlit(" [");
    }
    assert(s@ =~= artist@ + " - "@ + title@ + " ["@ + creator@ + seq![']']);
    sanitize_filename(s.as_str())
}

} // verus!

verus! {

pub open spec fn is_lower_hex(c: char) -> bool {
    ('0' <= c <= '9') || ('a' <= c <= 'f')
}

/// The part before the size: `web` and 1 to 12 digits, or 16 to 64 lower-case hex digits.
pub open spec fn key_id_ok(id: Seq<char>) -> bool {
    if starts_with(id, "web"@) {
        let d = id.skip(3);
        1 <= d.len() <= 12 && all_digits(d)
    } else {
        16 <= id.len() <= 64 && forall|i: int| 0 <= i < id.len() ==> is_lower_hex(#[trigger] id[i])
    }
}

/// The size: `{w}x{h}` with 1 to 5 digits each, or the older `{size}` alone.
pub open spec fn key_size_ok(sz: Seq<char>) -> bool {
    let x = first_index_of(sz, 'x');
    if x >= 0 {
        let w = sz.take(x);
        let h = sz.skip(x + 1);
        1 <= w.len() <= 5 && 1 <= h.len() <= 5 && all_digits(w) && all_digits(h)
    } else {
        1 <= sz.len() <= 5 && all_digits(sz)
    }
}

/// A cache key as the thumbnail protocol accepts it: `{id}_{size}.jpg`, no separators.
pub open spec fn thumb_key_valid(k: Seq<char>) -> bool {
    &&& !k.contains('/')
    &&& !k.contains('\\')
    &&& ends_with(k, ".jpg"@)
    &&& {
        let stem = k.take(k.len() - 4);
        let u = last_index_of(stem, '_');
        u >= 0 && key_id_ok(stem.take(u)) && key_size_ok(stem.skip(u + 1))
    }
}

fn no_char(v: &[char], c: char) -> (b: bool)
    ensures
        b == !v@.contains(c),
{
    match find_char(v, 0, v.len(), c) {
        Some(i) => {
            assert(v@[i as int] == c);
            false
        },
        None => {
            assert(v@.subrange(0, v.len() as int) =~= v@);
            true
        },
    }
}

fn id_ok(v: &[char], lo: usize, hi: usize) -> (b: bool)
    requires
        lo <= hi <= v.len(),
    ensures
        b == key_id_ok(v@.subrange(lo as int, hi as int)),
{
    let ghost id = v@.subrange(lo as int, hi as int);
    let web = chars_of("web");
    proof {
        reveal_strlit("web");
    }
    if crate::text::has_prefix(v, lo, hi, &web) {
        let n = hi - lo - 3;
        assert(v@.subrange(lo + 3, hi as int) =~= id.skip(3));
        1 <= n && n <= 12 && crate::text::all_digits_range(v, lo + 3, hi)
    } else {
        if hi - lo < 16 || hi - lo > 64 {
            return false;
        }
        let mut i = lo;
        while i < hi
            invariant
                lo <= i <= hi <= v.len(),
                id == v@.subrange(lo as int, hi as int),
                !starts_with(id, "web"@),
                forall|j: int| 0 <= j < i - lo ==> is_lower_hex(#[trigger] id[j]),
            decreases hi - i,
        {
            let c = v[i];
            assert(id[i - lo] == c);
            if !(('0' <= c && c <= '9') || ('a' <= c && c <= 'f')) {
                return false;
            }
            i += 1;
        }
        true
    }
}

fn size_ok(v: &[char], lo: usize, hi: usize) -> (b: bool)
    requires
        lo <= hi <= v.len(),
    ensures
        b == key_size_ok(v@.subrange(lo as int, hi as int)),
{
    let ghost sz = v@.subrange(lo as int, hi as int);
    match crate::text::first_index(v, lo, hi, 'x') {
        Some(x) => {
            assert(v@.subrange(lo as int, lo + x) =~= sz.take(x as int));
            assert(v@.subrange(lo + x + 1, hi as int) =~= sz.skip(x + 1));
            let wl = x;
            let hl = hi - lo - x - 1;
            1 <= wl && wl <= 5 && 1 <= hl && hl <= 5 && crate::text::all_digits_range(v, lo, lo + x)
                && crate::text::all_digits_range(v, lo + x + 1, hi)
        },
        None => {
            let n = hi - lo;
            1 <= n && n <= 5 && crate::text::all_digits_range(v, lo, hi)
        },
    }
}

fn key_chars_valid(k: &[char]) -> (b: bool)
    ensures
        b == thumb_key_valid(k@),
{
    if !no_char(k, '/') || !no_char(k, '\\') {
        return false;
    }
    let jpg = chars_of(".jpg");
    proof {
        reveal_strlit(".jpg");
    }
    assert(k@.subrange(0, k.len() as int) =~= k@);
    if !has_suffix(k, 0, k.len(), &jpg) {
        return false;
    }
    let end = k.len() - 4;
    let ghost stem = k@.take(end as int);
    assert(k@.subrange(0, end as int) =~= stem);
    match crate::text::last_index(k, 0, end, '_') {
        None => false,
        Some(u) => {
            assert(k@.subrange(0, u as int) =~= stem.take(u as int));
            assert(k@.subrange(u + 1, end as int) =~= stem.skip(u + 1));
            id_ok(k, 0, u) && size_ok(k, u + 1, end)
        },
    }
}

/// Strict cache-key check: `{16..64 lower-case hex}` or `web{1..12 digits}`, then `_`, the size
/// (`{w}x{h}` or the older `{size}`, 1 to 5 digits each) and `.jpg`; no separator, no traversal.
pub fn is_valid_thumb_key(key: &str) -> (b: bool)
    ensures
        b == thumb_key_valid(key@),
{
    let k = chars_of(key);
    key_chars_valid(&k)
}

pub open spec fn is_hex_char(b: u8) -> bool {
    (48 <= b <= 57) || (65 <= b <= 70) || (97 <= b <= 102)
}

pub open spec fn hex_val(b: u8) -> int {
    if b <= 57 { b - 48 } else if b <= 70 { b - 55 } else { b - 87 }
}

/// `%XX` escapes with two hex digits decoded to their byte; everything else kept.
pub open spec fn percent_bytes(b: Seq<u8>) -> Seq<u8>
    decreases b.len(),
{
    if b.len() == 0 {
        Seq::empty()
    } else if b[0] == 0x25 && 2 < b.len() && is_hex_char(b[1]) && is_hex_char(b[2]) {
        seq![(hex_val(b[1]) * 16 + hex_val(b[2])) as u8] + percent_bytes(b.skip(3))
    } else {
        seq![b[0]] + percent_bytes(b.skip(1))
    }
}

fn hex_val_exec(b: u8) -> (r: Option<u8>)
    ensures
        match r {
            Some(v) => is_hex_char(b) && v as int == hex_val(b),
            None => !is_hex_char(b),
        },
{
    if 48 <= b && b <= 57 {
        Some(b - 48)
    } else if 65 <= b && b <= 70 {
        Some(b - 55)
    } else if 97 <= b && b <= 102 {
        Some(b - 87)
    } else {
        None
    }
}

/// Text of a byte string as `String::from_utf8_lossy` makes it: valid UTF-8 decoded as it
/// stands, anything else by the lossy decoding.
pub open spec fn lossy_text(b: Seq<u8>) -> Seq<char> {
    if valid_utf8(b) { decode_utf8(b) } else { utf8_lossy(b) }
}

/// Percent-decoding of the characters of a key; a malformed escape is kept as it stands.
pub fn percent_decode(input: &str) -> (r: String)
    ensures
        r@ == lossy_text(percent_bytes(encode_utf8(input@))),
{
    let b = input.as_bytes();
    let ghost bs = b@;
    let mut out: Vec<u8> = Vec::new();
    let mut i: usize = 0;
    assert(bs.skip(0) =~= bs);
    while i < b.len()
        invariant
            i <= b.len(),
            bs == b@,
            percent_bytes(bs) == out@ + percent_bytes(bs.skip(i as int)),
        decreases b.len() - i,
    {
        let ghost rest = bs.skip(i as int);
        if b[i] == 0x25 && b.len() - i > 2 {
            match (hex_val_exec(b[i + 1]), hex_val_exec(b[i + 2])) {
                (Some(h), Some(l)) => {
                    assert(rest[1] == b[i + 1] && rest[2] == b[i + 2]);
                    assert(rest.skip(3) =~= bs.skip(i + 3));
                    out.push(h * 16 + l);
                    i += 3;
                    assert(percent_bytes(bs) =~= out@ + percent_bytes(bs.skip(i as int)));
                    continue;
                },
                _ => {
                    assert(rest[1] == b[i + 1] && rest[2] == b[i + 2]);
                },
            }
        }
        assert(rest.skip(1) =~= bs.skip(i + 1));
        out.push(b[i]);
        i += 1;
        assert(percent_bytes(bs) =~= out@ + percent_bytes(bs.skip(i as int)));
    }
    assert(bs.skip(i as int) =~= Seq::<u8>::empty());
    assert(out@ =~= percent_bytes(bs));
    from_utf8_lossy(out.as_slice())
}

/// The key named by a protocol URI: what follows the last `/` after the scheme, before any
/// `?` or `#`.
pub open spec fn uri_candidate(uri: Seq<char>) -> Seq<char> {
    let q = first_index_of(uri, '?');
    let h = first_index_of(uri, '#');
    let cut = if q < 0 { h } else if h < 0 { q } else if q < h { q } else { h };
    let s = if cut < 0 { uri } else { uri.take(cut) };
    let after = after_scheme(s);
    let slash = last_index_of(after, '/');
    if slash < 0 { after } else { after.skip(slash + 1) }
}

/// What follows the first `://`, or all of `s` when there is none.
#[verifier::opaque]
pub open spec fn after_scheme(s: Seq<char>) -> Seq<char> {
    if contains_seq(s, "://"@) { s.skip(first_occurrence(s, "://"@) + 3) } else { s }
}

fn scheme_end(v: &[char], cut: usize) -> (start: usize)
    requires
        cut <= v.len(),
    ensures
        start <= cut,
        v@.subrange(start as int, cut as int) == after_scheme(v@.take(cut as int)),
{
    let ghost s = v@.take(cut as int);
    assert(v@.subrange(0, cut as int) =~= s);
    let sep = chars_of("://");
    proof {
        reveal_strlit("://");
        reveal(after_scheme);
    }
    match crate::text::find_sub(v, 0, cut, &sep) {
        Some(p) => {
            assert(v@.subrange(p + 3, cut as int) =~= s.skip(p + 3));
            p + 3
        },
        None => 0,
    }
}

pub open spec fn key_from_uri_spec(uri: Seq<char>) -> Option<Seq<char>> {
    let k = lossy_text(percent_bytes(encode_utf8(uri_candidate(uri))));
    if thumb_key_valid(k) { Some(k) } else { None }
}

/// Key of a `http://thumb.localhost/<key>` or `thumb://<key>` URI, when it is a valid key.
pub fn key_from_uri(uri: &str) -> (r: Option<String>)
    ensures
        match key_from_uri_spec(uri@) {
            Some(k) => r matches Some(s) && s@ == k,
            None => r is None,
        },
{
    let v = chars_of(uri);
    let ghost u = v@;
    let q = crate::text::first_index(&v, 0, v.len(), '?');
    let h = crate::text::first_index(&v, 0, v.len(), '#');
    assert(v@.subrange(0, v.len() as int) =~= u);
    let cut: usize = match (q, h) {
        (None, None) => v.len(),
        (Some(a), None) => a,
        (None, Some(b)) => b,
        (Some(a), Some(b)) => if a < b { a } else { b },
    };
    let ghost s = v@.take(cut as int);
    assert(v@.subrange(0, cut as int) =~= s);
    let start = scheme_end(&v, cut);
    let ghost after = v@.subrange(start as int, cut as int);
    let from: usize = match crate::text::last_index(&v, start, cut, '/') {
        Some(p) => start + p + 1,
        None => start,
    };
    assert(v@.subrange(from as int, cut as int) =~= uri_candidate(u));
    let cand = string_of_range(&v, from, cut);
    let decoded = percent_decode(cand.as_str());
    if is_valid_thumb_key(decoded.as_str()) {
        Some(decoded)
    } else {
        None
    }
}

} // verus!

verus! {

use crate::text::{string_views, str_eq, split_ranges, split_char, all_digits_range};

/// Thumbnail width asked for, clamped to 1..=4096.
pub fn thumb_size(size: u32) -> (r: u32)
    ensures
        r == if size < 1 { 1 } else if size > 4096 { 4096 } else { size },
{
    if size < 1 { 1 } else if size > 4096 { 4096 } else { size }
}

/// What to do for one thumbnail request.
#[derive(Debug, Clone, Copy, PartialEq, Eq, Structural)]
pub enum ThumbAction {
    /// The cache already holds the thumbnail.
    Hit,
    /// An earlier request of the batch generated this key: check the cache again.
    Recheck,
    /// Generate the thumbnail.
    Generate,
}

/// Decides a request given whether the cache holds a non-empty file for its key; keys sent to
/// generation are remembered in `seen`, so a repeated key is not generated twice.
pub fn thumb_action(seen: &mut Vec<String>, key: &String, cached_ok: bool) -> (a: ThumbAction)
    ensures
        cached_ok ==> a == ThumbAction::Hit && final(seen)@ == old(seen)@,
        !cached_ok && string_views(old(seen)@).contains(key@) ==> a == ThumbAction::Recheck && final(seen)@ == old(seen)@,
        !cached_ok && !string_views(old(seen)@).contains(key@) ==> a == ThumbAction::Generate
            && string_views(final(seen)@) == string_views(old(seen)@).push(key@),
{
    if cached_ok {
        return ThumbAction::Hit;
    }
    let mut i: usize = 0;
    while i < seen.len()
        invariant
            i <= seen@.len(),
            forall|j: int| 0 <= j < i ==> string_views(seen@)[j] != key@,
            !cached_ok,
            seen@ == old(seen)@,
        decreases seen@.len() - i,
    {
        if str_eq(seen[i].as_str(), key.as_str()) {
            assert(string_views(seen@)[i as int] == key@);
            return ThumbAction::Recheck;
        }
        i += 1;
    }
    seen.push(key.clone());
    assert(string_views(seen@) =~= string_views(old(seen)@).push(key@));
    ThumbAction::Generate
}

/// Export error of a set whose background file cannot be read: `err.exportSourceMissing|id`.
pub fn export_missing_error(set_id: i64) -> (r: String)
    ensures
        r@ == crate::errcode::EXPORT_SOURCE_MISSING@ + seq!['|'] + int_text(set_id as int),
{
    let mut id = String::new();
    crate::text::push_i64(&mut id, set_id);
    crate::errcode::ec1(crate::errcode::EXPORT_SOURCE_MISSING, id.as_str())
}

/// Lower-case hex digit or decimal digit.
pub open spec fn lower_hex_char(c: char) -> bool {
    ('0' <= c && c <= '9') || ('a' <= c && c <= 'f')
}

/// A cache file left behind: an unfinished `.tmpwrite`, or an old square key
/// `{hex}_{digits}.jpg` (16 to 64 lower-case hex digits, a size without `x`).
pub open spec fn stale_thumb_spec(name: Seq<char>) -> bool {
    ends_with(name, ".tmpwrite"@) || (ends_with(name, ".jpg"@) && !name.contains('x') && {
        let parts = crate::text::split_char(name, '_');
        &&& parts.len() == 2
        &&& 16 <= parts[0].len() <= 64
        &&& (forall|i: int| 0 <= i < parts[0].len() ==> lower_hex_char(#[trigger] parts[0][i]))
        &&& ends_with(parts[1], ".jpg"@)
        &&& parts[1].len() > 4
        &&& all_digits(parts[1].take(parts[1].len() - 4))
    })
}

fn all_lower_hex(v: &Vec<char>, lo: usize, hi: usize) -> (b: bool)
    requires
        lo <= hi <= v@.len(),
    ensures
        b == forall|i: int| 0 <= i < hi - lo ==> lower_hex_char(#[trigger] v@.subrange(lo as int, hi as int)[i]),
{
    let mut i = lo;
    while i < hi
        invariant
            lo <= i <= hi <= v@.len(),
            forall|j: int| 0 <= j < i - lo ==> lower_hex_char(#[trigger] v@.subrange(lo as int, hi as int)[j]),
        decreases hi - i,
    {
        let c = v[i];
        if !(('0' <= c && c <= '9') || ('a' <= c && c <= 'f')) {
            assert(v@.subrange(lo as int, hi as int)[i - lo] == c);
            return false;
        }
        i += 1;
    }
    true
}

/// Whether a cache file name is one to remove (see `stale_thumb_spec`).
pub fn is_stale_thumb(name: &str) -> (b: bool)
    ensures
        b == stale_thumb_spec(name@),
{
    let v = chars_of(name);
    assert(v@.subrange(0, v@.len() as int) =~= v@);
    let tmp = chars_of(".tmpwrite");
    if has_suffix(v.as_slice(), 0, v.len(), tmp.as_slice()) {
        return true;
    }
    let jpg = chars_of(".jpg");
    if !has_suffix(v.as_slice(), 0, v.len(), jpg.as_slice()) {
        return false;
    }
    match find_char(v.as_slice(), 0, v.len(), 'x') {
        Some(k) => {
            assert(v@[k as int] == 'x');
            assert(name@.contains('x'));
            return false;
        },
        None => {},
    }
    assert(!name@.contains('x'));
    let parts = split_ranges(v.as_slice(), 0, v.len(), '_');
    if parts.len() != 2 {
        return false;
    }
    let (a0, b0) = parts[0];
    let (a1, b1) = parts[1];
    if b0 - a0 < 16 || b0 - a0 > 64 {
        return false;
    }
    if !all_lower_hex(&v, a0, b0) {
        return false;
    }
    if !has_suffix(v.as_slice(), a1, b1, jpg.as_slice()) || b1 - a1 <= 4 {
        return false;
    }
    assert(v@.subrange(a1 as int, b1 as int).take((b1 - a1 - 4) as int) =~= v@.subrange(a1 as int, (b1 - 4) as int));
    all_digits_range(v.as_slice(), a1, b1 - 4)
}

} // verus!

verus! {

/// A name Windows accepts as it stands: not empty, no reserved or control character, no
/// trailing dot or space, no leading space.
pub open spec fn windows_safe(t: Seq<char>) -> bool {
    &&& t.len() > 0
    &&& forall|i: int| 0 <= i < t.len() ==> !is_reserved(#[trigger] t[i]) && !is_control(t[i])
    &&& t.last() != '.' && t.last() != ' '
    &&& t[0] != ' '
}

proof fn lemma_cleaned_clean(s: Seq<char>)
    ensures
        forall|i: int| 0 <= i < cleaned(s).len() ==> !is_reserved(#[trigger] cleaned(s)[i]) && !is_control(cleaned(s)[i]),
    decreases s.len(),
{
    if s.len() > 0 {
        lemma_cleaned_clean(s.drop_last());
        let p = cleaned(s.drop_last());
        if !is_control(s.last()) {
            let x = if is_reserved(s.last()) { '_' } else { s.last() };
            assert(cleaned(s) == p.push(x));
            assert(!is_reserved(x) && !is_control(x));
            assert forall|i: int| 0 <= i < cleaned(s).len() implies !is_reserved(#[trigger] cleaned(s)[i]) && !is_control(cleaned(s)[i]) by {
                if i < p.len() {
                    assert(cleaned(s)[i] == p[i]);
                }
            }
        }
    }
}

proof fn lemma_cleaned_fixed(s: Seq<char>)
    requires
        forall|i: int| 0 <= i < s.len() ==> !is_reserved(#[trigger] s[i]) && !is_control(s[i]),
    ensures
        cleaned(s) == s,
    decreases s.len(),
{
    if s.len() > 0 {
        lemma_cleaned_fixed(s.drop_last());
        assert(s.drop_last().push(s.last()) =~= s);
    }
}

proof fn lemma_strip_end(s: Seq<char>)
    ensures
        strip_dots_spaces_end(s).len() <= s.len(),
        strip_dots_spaces_end(s) == s.take(strip_dots_spaces_end(s).len() as int),
        strip_dots_spaces_end(s).len() > 0 ==> strip_dots_spaces_end(s).last() != '.' && strip_dots_spaces_end(s).last() != ' ',
    decreases s.len(),
{
    if s.len() > 0 && (s.last() == '.' || s.last() == ' ') {
        lemma_strip_end(s.drop_last());
        assert(s.drop_last().take(strip_dots_spaces_end(s).len() as int) =~= s.take(strip_dots_spaces_end(s).len() as int));
    } else {
        assert(s.take(s.len() as int) =~= s);
    }
}

proof fn lemma_strip_start(s: Seq<char>)
    ensures
        strip_spaces_start(s).len() <= s.len(),
        strip_spaces_start(s) == s.skip(s.len() - strip_spaces_start(s).len()),
        strip_spaces_start(s).len() > 0 ==> strip_spaces_start(s)[0] != ' ',
    decreases s.len(),
{
    if s.len() > 0 && s[0] == ' ' {
        lemma_strip_start(s.drop_first());
        assert(s.drop_first().skip(s.drop_first().len() - strip_spaces_start(s).len()) =~= s.skip(s.len() - strip_spaces_start(s).len()));
    } else {
        assert(s.skip(0) =~= s);
    }
}

proof fn lemma_untitled_safe()
    ensures
        windows_safe("untitled"@),
{
    reveal_strlit("untitled");
}

/// A sanitized name is one Windows accepts: never empty, without reserved or control
/// characters, not ending in a dot or space, not starting with a space.
pub proof fn sanitized_names_are_safe(name: Seq<char>)
    ensures
        windows_safe(sanitized(name)),
{
    let c = cleaned(name);
    lemma_cleaned_clean(name);
    let e = strip_dots_spaces_end(c);
    lemma_strip_end(c);
    let t = strip_spaces_start(e);
    lemma_strip_start(e);
    if t.len() == 0 {
        lemma_untitled_safe();
    } else {
        assert forall|i: int| 0 <= i < t.len() implies !is_reserved(#[trigger] t[i]) && !is_control(t[i]) by {
            assert(t[i] == e[e.len() - t.len() + i]);
            assert(e[e.len() - t.len() + i] == c[e.len() - t.len() + i]);
        }
        assert(t.last() == e.last());
    }
}

proof fn lemma_cleaned_len(s: Seq<char>)
    ensures
        cleaned(s).len() <= s.len(),
    decreases s.len(),
{
    if s.len() > 0 {
        lemma_cleaned_len(s.drop_last());
    }
}

proof fn lemma_strip_lens(s: Seq<char>)
    ensures
        strip_dots_spaces_end(s).len() <= s.len(),
        strip_spaces_start(s).len() <= s.len(),
    decreases s.len(),
{
    if s.len() > 0 {
        lemma_strip_lens(s.drop_last());
        lemma_strip_lens(s.drop_first());
    }
}

/// Sanitizing never makes a name longer (in characters), but for a name of which nothing is
/// left, which becomes `untitled`.
pub proof fn sanitize_never_lengthens(name: Seq<char>)
    ensures
        sanitized(name) == "untitled"@ || sanitized(name).len() <= name.len(),
{
    let c = cleaned(name);
    lemma_cleaned_len(name);
    lemma_strip_lens(c);
    lemma_strip_lens(strip_dots_spaces_end(c));
}

/// Sanitizing a sanitized name changes nothing.
pub proof fn sanitize_is_idempotent(name: Seq<char>)
    ensures
        sanitized(sanitized(name)) == sanitized(name),
{
    let t = sanitized(name);
    sanitized_names_are_safe(name);
    lemma_cleaned_fixed(t);
    assert(strip_dots_spaces_end(t) == t);
    assert(strip_spaces_start(t) == t);
}

} // verus!

verus! {

use crate::text::{lemma_last_index_of, lemma_first_index_of, is_digit, digit_char, pow10, lemma_dec_len_le};

proof fn lemma_hex_text(b: Seq<u8>)
    ensures
        hex_text(b).len() == 2 * b.len(),
        forall|i: int| 0 <= i < hex_text(b).len() ==> is_lower_hex(#[trigger] hex_text(b)[i]),
    decreases b.len(),
{
    if b.len() > 0 {
        lemma_hex_text(b.drop_last());
        let p = hex_text(b.drop_last());
        let x = hex_digit(b.last() as int / 16);
        let y = hex_digit(b.last() as int % 16);
        assert(is_lower_hex(x) && is_lower_hex(y));
        assert forall|i: int| 0 <= i < hex_text(b).len() implies is_lower_hex(#[trigger] hex_text(b)[i]) by {
            if i < p.len() {
                assert(hex_text(b)[i] == p[i]);
            }
        }
    }
}

proof fn lemma_dec_digits(n: nat)
    ensures
        1 <= dec_digits(n).len(),
        all_digits(dec_digits(n)),
        n < 100000 ==> dec_digits(n).len() <= 5,
        n < 1000000000000 ==> dec_digits(n).len() <= 12,
    decreases n,
{
    if n < 100000 {
        assert(pow10(5) == 100000) by { reveal_with_fuel(pow10, 6); }
        lemma_dec_len_le(n, 5);
    }
    if n < 1000000000000 {
        assert(pow10(12) == 1000000000000) by { reveal_with_fuel(pow10, 13); }
        lemma_dec_len_le(n, 12);
    }
    if n >= 10 {
        lemma_dec_digits(n / 10);
        let p = dec_digits(n / 10);
        assert forall|i: int| 0 <= i < dec_digits(n).len() implies is_digit(#[trigger] dec_digits(n)[i]) by {
            if i < p.len() {
                assert(dec_digits(n)[i] == p[i]);
            }
        }
    }
}

/// The size part of a key (after the id) as the protocol reads it.
proof fn lemma_size_suffix(id: Seq<char>, size: u32)
    requires
        1 <= size <= 4096,
        !id.contains('_'),
        !id.contains('/'),
        !id.contains('\\'),
        key_id_ok(id),
    ensures
        thumb_key_valid(id + size_suffix(size)),
{
    reveal_strlit(".jpg");
    let w = dec_digits(size as nat);
    let h = dec_digits(thumb_height(size));
    lemma_dec_digits(size as nat);
    lemma_dec_digits(thumb_height(size));
    let k = id + size_suffix(size);
    let stem = id + seq!['_'] + w + seq!['x'] + h;
    assert(k =~= stem + ".jpg"@);
    assert(k.take(k.len() - 4) =~= stem);
    assert(k.subrange(k.len() - 4, k.len() as int) =~= ".jpg"@);
    assert forall|j: int| id.len() < j < stem.len() implies stem[j] != '_' by {
        if j <= id.len() + w.len() {
            assert(stem[j] == w[j - id.len() - 1]);
            assert(is_digit(w[j - id.len() - 1]));
        } else if j > id.len() + w.len() + 1 {
            assert(stem[j] == h[j - id.len() - w.len() - 2]);
            assert(is_digit(h[j - id.len() - w.len() - 2]));
        }
    }
    lemma_last_index_of(stem, '_', id.len() as int);
    assert(stem.take(id.len() as int) =~= id);
    let sz = stem.skip(id.len() as int + 1);
    assert(sz =~= w + seq!['x'] + h);
    assert forall|j: int| 0 <= j < w.len() implies sz[j] != 'x' by {
        assert(sz[j] == w[j]);
        assert(is_digit(w[j]));
    }
    lemma_first_index_of(sz, 'x', w.len() as int);
    assert(sz.take(w.len() as int) =~= w);
    assert(sz.skip(w.len() as int + 1) =~= h);
    assert forall|j: int| 0 <= j < k.len() implies k[j] != '/' && k[j] != '\\' by {
        if j < id.len() {
            assert(k[j] == id[j]);
        } else if j < stem.len() {
            if id.len() < j <= id.len() + w.len() {
                assert(k[j] == w[j - id.len() - 1]);
                assert(is_digit(w[j - id.len() - 1]));
            } else if j > id.len() + w.len() + 1 {
                assert(k[j] == h[j - id.len() - w.len() - 2]);
                assert(is_digit(h[j - id.len() - w.len() - 2]));
            }
        } else {
            assert(k[j] == ".jpg"@[j - stem.len()]);
        }
    }
}

/// Keys made from a SHA-256 digest are valid keys.
proof fn lemma_hash_key_valid(digest: Seq<u8>, size: u32)
    requires
        digest.len() == 32,
        1 <= size <= 4096,
    ensures
        thumb_key_valid(hex_text(digest) + size_suffix(size)),
{
    let hx = hex_text(digest);
    lemma_hex_text(digest);
    reveal_strlit("web");
    assert(!starts_with(hx, "web"@)) by {
        assert(is_lower_hex(hx[0]));
        if starts_with(hx, "web"@) {
            assert(hx.subrange(0, 3)[0] == hx[0]);
        }
    }
    assert(!hx.contains('_'));
    assert(!hx.contains('/'));
    assert(!hx.contains('\\'));
    lemma_size_suffix(hx, size);
}

/// Keys of online backgrounds of sets with ids below 10^12 are valid keys.
proof fn lemma_web_key_valid(set_id: i64, size: u32)
    requires
        0 < set_id < 1000000000000,
        1 <= size <= 4096,
    ensures
        thumb_key_valid(online_thumb_key_spec(set_id, size)),
{
    reveal_strlit("web");
    let d = int_text(set_id as int);
    lemma_dec_digits(set_id as nat);
    let id = "web"@ + d;
    assert(starts_with(id, "web"@)) by {
        assert(id.subrange(0, 3) =~= "web"@);
    }
    assert(id.skip(3) =~= d);
    assert forall|j: int| 0 <= j < id.len() implies id[j] != '_' && id[j] != '/' && id[j] != '\\' by {
        if j >= 3 {
            assert(id[j] == d[j - 3]);
            assert(is_digit(d[j - 3]));
        }
    }
    assert(online_thumb_key_spec(set_id, size) =~= id + size_suffix(size));
    lemma_size_suffix(id, size);
}

} // verus!

verus! {

/// Most thumbnails one request may ask for.
pub const MAX_THUMB_BATCH: usize = 500;

/// A thumbnail batch of `n` requests is refused past `MAX_THUMB_BATCH`:
/// `err.thumbBatchTooLarge|500|n`.
pub fn check_thumb_batch(n: usize) -> (r: Result<(), String>)
    ensures
        n <= MAX_THUMB_BATCH ==> r is Ok,
        n > MAX_THUMB_BATCH ==> (r matches Err(e) && e@ == crate::errcode::THUMB_BATCH_TOO_LARGE@ + seq!['|']
            + dec_digits(MAX_THUMB_BATCH as nat) + seq!['|'] + dec_digits(n as nat)),
{
    if n <= MAX_THUMB_BATCH {
        return Ok(());
    }
    let mut a = String::new();
    push_dec(&mut a, MAX_THUMB_BATCH as u64);
    let mut b = String::new();
    push_dec(&mut b, n as u64);
    Err(crate::errcode::ec2(crate::errcode::THUMB_BATCH_TOO_LARGE, a.as_str(), b.as_str()))
}

/// Width of an online background thumbnail, clamped to 64..=1024.
pub fn online_thumb_size(size: u32) -> (r: u32)
    ensures
        r == if size < 64 { 64 } else if size > 1024 { 1024 } else { size },
{
    if size < 64 { 64 } else if size > 1024 { 1024 } else { size }
}

} // verus!

verus! {

/// Characters a valid key is made of: ASCII digits, lower-case letters, `_` and `.`.
pub open spec fn key_char(c: char) -> bool {
    ('0' <= c <= '9') || ('a' <= c <= 'z') || c == '_' || c == '.'
}

proof fn lemma_last_index_found(s: Seq<char>, c: char)
    ensures
        -1 <= last_index_of(s, c) < s.len(),
        last_index_of(s, c) >= 0 ==> s[last_index_of(s, c)] == c,
    decreases s.len(),
{
    if s.len() > 0 && s.last() != c {
        lemma_last_index_found(s.drop_last(), c);
    }
}

proof fn lemma_first_index_found(s: Seq<char>, c: char)
    ensures
        -1 <= first_index_of(s, c) < s.len(),
        first_index_of(s, c) >= 0 ==> s[first_index_of(s, c)] == c,
    decreases s.len(),
{
    if s.len() > 0 && s[0] != c {
        lemma_first_index_found(s.drop_first(), c);
    }
}

proof fn lemma_valid_key_chars(k: Seq<char>)
    requires
        thumb_key_valid(k),
    ensures
        forall|i: int| 0 <= i < k.len() ==> key_char(#[trigger] k[i]),
{
    reveal_strlit(".jpg");
    reveal_strlit("web");
    let n = k.len() as int;
    let stem = k.take(n - 4);
    let u = last_index_of(stem, '_');
    lemma_last_index_found(stem, '_');
    let id = stem.take(u);
    let sz = stem.skip(u + 1);
    let x = first_index_of(sz, 'x');
    lemma_first_index_found(sz, 'x');
    assert forall|i: int| 0 <= i < n implies key_char(#[trigger] k[i]) by {
        if i >= n - 4 {
            assert(k.subrange(n - 4, n)[i - (n - 4)] == k[i]);
        } else if i < u {
            assert(k[i] == id[i]);
            if starts_with(id, "web"@) {
                if i < 3 {
                    assert(id.subrange(0, 3)[i] == id[i]);
                } else {
                    assert(id.skip(3)[i - 3] == id[i]);
                    assert(is_digit(id.skip(3)[i - 3]));
                }
            } else {
                assert(is_lower_hex(id[i]));
            }
        } else if i == u {
            assert(k[i] == stem[u]);
        } else {
            let j = i - u - 1;
            assert(k[i] == sz[j]);
            if x >= 0 {
                if j < x {
                    assert(sz.take(x)[j] == sz[j]);
                    assert(is_digit(sz.take(x)[j]));
                } else if j > x {
                    assert(sz.skip(x + 1)[j - x - 1] == sz[j]);
                    assert(is_digit(sz.skip(x + 1)[j - x - 1]));
                }
            } else {
                assert(is_digit(sz[j]));
            }
        }
    }
}

proof fn lemma_key_bytes(k: Seq<char>)
    requires
        forall|i: int| 0 <= i < k.len() ==> key_char(#[trigger] k[i]),
    ensures
        percent_bytes(encode_utf8(k)) == encode_utf8(k),
    decreases k.len(),
{
    if k.len() > 0 {
        let rest = k.drop_first();
        assert forall|i: int| 0 <= i < rest.len() implies key_char(#[trigger] rest[i]) by {
            assert(rest[i] == k[i + 1]);
        }
        lemma_key_bytes(rest);
        assert(key_char(k[0]));
        let c = k[0] as u32;
        assert(c <= 0x7f && c != 0x25);
        assert((c & 0x7F) == c) by (bit_vector)
            requires
                c <= 0x7f,
        ;
        let b = encode_utf8(k);
        assert(b =~= seq![(c & 0x7F) as u8] + encode_utf8(rest));
        assert(b[0] == c as u8);
        assert(b.skip(1) =~= encode_utf8(rest));
    }
}

proof fn lemma_uri_candidate(p: Seq<char>, k: Seq<char>, sep: int)
    requires
        0 <= sep,
        sep + 3 <= p.len(),
        p.subrange(sep, sep + 3) == "://"@,
        forall|j: int| 0 <= j < sep ==> p[j] != ':',
        forall|j: int| 0 <= j < p.len() ==> p[j] != '?' && p[j] != '#',
        p.last() == '/',
        forall|i: int| 0 <= i < k.len() ==> key_char(#[trigger] k[i]),
    ensures
        uri_candidate(p + k) == k,
{
    reveal_strlit("://");
    let uri = p + k;
    assert forall|j: int| 0 <= j < uri.len() implies uri[j] != '?' && uri[j] != '#' by {
        if j >= p.len() {
            assert(key_char(k[j - p.len()]));
        }
    }
    lemma_first_index_of(uri, '?', -1);
    lemma_first_index_of(uri, '#', -1);
    reveal(after_scheme);
    assert(uri.subrange(sep, sep + 3) =~= p.subrange(sep, sep + 3));
    assert(occurs_at(uri, "://"@, sep));
    assert forall|j: int| 0 <= j < sep implies !occurs_at(uri, "://"@, j) by {
        if occurs_at(uri, "://"@, j) {
            assert(uri.subrange(j, j + 3)[0] == uri[j]);
        }
    }
    crate::text::lemma_first_occurrence(uri, "://"@, sep);
    let after = uri.skip(sep + 3);
    let q = p.len() - sep - 3;
    assert(after =~= p.skip(sep + 3) + k);
    if q == 0 {
        assert(after =~= k);
        assert forall|j: int| -1 < j < after.len() implies after[j] != '/' by {
            assert(key_char(k[j]));
        }
        lemma_last_index_of(after, '/', -1);
    } else {
        assert(after[q - 1] == p.last());
        assert forall|j: int| q - 1 < j < after.len() implies after[j] != '/' by {
            assert(after[j] == k[j - q]);
            assert(key_char(k[j - q]));
        }
        lemma_last_index_of(after, '/', q - 1);
        assert(after.skip(q) =~= k);
    }
}

/// A valid cache key put in a `thumb://` URI, or after `http://thumb.localhost/`, reads back as
/// the same key.
pub proof fn thumb_uri_round_trip(k: Seq<char>)
    requires
        thumb_key_valid(k),
    ensures
        key_from_uri_spec("thumb://"@ + k) == Some(k),
        key_from_uri_spec("http://thumb.localhost/"@ + k) == Some(k),
{
    reveal_strlit("thumb://");
    reveal_strlit("http://thumb.localhost/");
    reveal_strlit("://");
    lemma_valid_key_chars(k);
    lemma_key_bytes(k);
    vstd::utf8::encode_utf8_valid_utf8(k);
    vstd::utf8::encode_utf8_decode_utf8(k);
    assert("thumb://"@.subrange(5, 8) =~= "://"@);
    lemma_uri_candidate("thumb://"@, k, 5);
    assert("http://thumb.localhost/"@.subrange(4, 7) =~= "://"@);
    lemma_uri_candidate("http://thumb.localhost/"@, k, 4);
}

} // verus!
