//! Online metadata: OAuth state and callback handling, token freshness, cache freshness and
//! eviction, and the request plans of a metadata fetch.
use vstd::prelude::*;
use vstd::utf8::encode_utf8;
use crate::text::{chars_of, str_eq, push_char, push_dec, push_str, string_of_range, trim, trim_range, first_index, first_index_of, split_char, split_ranges, lemma_split_char_len, has_prefix, starts_with, contains_seq, find_sub, dedup_seq, dedup_i64};
use crate::thumbs::{from_utf8_lossy, utf8_lossy, is_hex_char, hex_val};

verus! {

broadcast use vstd::string::group_string_axioms;

/// Redirect the OAuth application is registered with.
pub const REDIRECT_URI: &'static str = "http://localhost:47821/callback";
/// Page that asks the user to authorise the application.
pub const AUTHORIZE_URL: &'static str = "https://osu.ppy.sh/oauth/authorize";
/// Seconds cached counters and ratings stay fresh (7 days).
pub const REFRESH_TTL_SECS: i64 = 604800;
/// Most cache entries kept; the oldest fetched go first.
pub const MAX_CACHE_ENTRIES: usize = 50000;
/// Most sets one fetch handles.
pub const MAX_PER_CALL: usize = 200;

/// OAuth client credentials.
#[derive(Debug)]
pub struct OauthCreds {
    pub client_id: String,
    pub client_secret: String,
}

/// OAuth tokens; `expires_at` in Unix seconds.
#[derive(Debug)]
pub struct Tokens {
    pub access_token: String,
    pub refresh_token: String,
    pub token_type: String,
    pub expires_at: i64,
}

impl Tokens {
    /// The token is treated as expired from 60 s before its expiry on.
    pub fn needs_refresh(&self, now: i64) -> (b: bool)
        ensures
            b == (now >= self.expires_at - 60),
    {
        if self.expires_at < i64::MIN + 60 {
            return true;
        }
        now >= self.expires_at - 60
    }
}

/// The cached entry fetched at `fetched_at` is still fresh at `now` (7 days).
pub fn is_fresh(fetched_at: i64, now: i64) -> (b: bool)
    ensures
        b == ((if now - fetched_at < i64::MIN { i64::MIN as int } else if now - fetched_at > i64::MAX { i64::MAX as int } else { now - fetched_at }) < REFRESH_TTL_SECS),
{
    let wide: i128 = now as i128 - fetched_at as i128;
    let d: i128 = if wide < i64::MIN as i128 { i64::MIN as i128 } else if wide > i64::MAX as i128 { i64::MAX as i128 } else { wide };
    d < REFRESH_TTL_SECS as i128
}

/// The SplitMix64 mixing step.
pub open spec fn splitmix64_spec(x: u64) -> u64 {
    let z0 = vstd::wrapping::u64_specs::wrapping_add(x, 0x9E37_79B9_7F4A_7C15u64);
    let z1 = vstd::wrapping::u64_specs::wrapping_mul(z0 ^ (z0 >> 30u64), 0xBF58_476D_1CE4_E5B9u64);
    let z2 = vstd::wrapping::u64_specs::wrapping_mul(z1 ^ (z1 >> 27u64), 0x94D0_49BB_1331_11EBu64);
    z2 ^ (z2 >> 31u64)
}

/// The SplitMix64 mixing step (wrapping arithmetic).
pub fn splitmix64(x: u64) -> (r: u64)
    ensures
        r == splitmix64_spec(x),
{
    let mut z = x.wrapping_add(0x9E37_79B9_7F4A_7C15);
    z = (z ^ (z >> 30)).wrapping_mul(0xBF58_476D_1CE4_E5B9);
    z = (z ^ (z >> 27)).wrapping_mul(0x94D0_49BB_1331_11EB);
    z ^ (z >> 31)
}

/// Eight lower-case hex digits of a 32-bit value.
pub open spec fn hex8(v: u32) -> Seq<char> {
    Seq::new(8, |i: int| crate::thumbs::hex_digit(((v as int) / pow16(7 - i)) % 16))
}

pub open spec fn pow16(k: int) -> int
    decreases k,
{
    if k <= 0 { 1 } else { 16 * pow16(k - 1) }
}

fn push_hex8(s: &mut String, v: u32)
    ensures
        final(s)@ == old(s)@ + hex8(v),
{
    let mut k: usize = 0;
    let ghost base = s@;
    while k < 8
        invariant
            k <= 8,
            s@ == base + hex8(v).take(k as int),
        decreases 8 - k,
    {
        let shift: u32 = (7 - k as u32) * 4;
        let d = ((v >> shift) & 15) as u8;
        proof {
            lemma_hex_nibble(v, k as int);
        }
        let c = if d < 10 { (48 + d) as char } else { (87 + d) as char };
        push_char(s, c);
        k += 1;
        assert(s@ =~= base + hex8(v).take(k as int));
    }
    assert(hex8(v).take(8) =~= hex8(v));
}

proof fn lemma_hex_nibble(v: u32, k: int)
    requires
        0 <= k < 8,
    ensures
        ((v >> (((7 - k) * 4) as u32)) & 15) as int == ((v as int) / pow16(7 - k)) % 16,
{
    assert(pow16(0) == 1 && pow16(1) == 16 && pow16(2) == 256 && pow16(3) == 4096 && pow16(4) == 65536
        && pow16(5) == 1048576 && pow16(6) == 16777216 && pow16(7) == 268435456) by {
        reveal_with_fuel(pow16, 8);
    }
    let s = ((7 - k) * 4) as u32;
    assert((v >> s) & 15 == (v / (1u32 << s)) % 16) by (bit_vector)
        requires s <= 28;
    assert(1u32 << 0u32 == 1 && 1u32 << 4u32 == 16 && 1u32 << 8u32 == 256 && 1u32 << 12u32 == 4096
        && 1u32 << 16u32 == 65536 && 1u32 << 20u32 == 1048576 && 1u32 << 24u32 == 16777216
        && 1u32 << 28u32 == 268435456) by (bit_vector);
}

/// The OAuth `state` made from a seed: three SplitMix64 steps, the low 32 bits of each as
/// eight hex digits.
pub open spec fn state_spec(seed: u64) -> Seq<char> {
    let a = splitmix64_spec(seed);
    let b = splitmix64_spec(a);
    let c = splitmix64_spec(b);
    hex8((a & 0xFFFF_FFFF) as u32) + hex8((b & 0xFFFF_FFFF) as u32) + hex8((c & 0xFFFF_FFFF) as u32)
}

/// The OAuth `state` for a seed (the seed mixes the clock, the process id and a counter).
pub fn state_from_seed(seed: u64) -> (r: String)
    ensures
        r@ == state_spec(seed),
{
    let mut x = seed;
    let mut out = String::new();
    x = splitmix64(x);
    push_hex8(&mut out, (x & 0xFFFF_FFFF) as u32);
    x = splitmix64(x);
    push_hex8(&mut out, (x & 0xFFFF_FFFF) as u32);
    x = splitmix64(x);
    push_hex8(&mut out, (x & 0xFFFF_FFFF) as u32);
    out
}

/// The callback's `state` is present and the one sent.
pub fn state_ok(expected: &str, got: Option<&str>) -> (b: bool)
    ensures
        b == (got matches Some(g) && g@ == expected@),
{
    match got {
        Some(g) => str_eq(g, expected),
        None => false,
    }
}

} // verus!

verus! {

/// Query-string decoding of the bytes: `%XX` with two hex digits to that byte, `+` to a space,
/// anything else (a malformed `%` too) kept.
pub open spec fn form_bytes(b: Seq<u8>) -> Seq<u8>
    decreases b.len(),
{
    if b.len() == 0 {
        Seq::empty()
    } else if b[0] == 0x25 && 2 < b.len() && is_hex_char(b[1]) && is_hex_char(b[2]) {
        seq![(hex_val(b[1]) * 16 + hex_val(b[2])) as u8] + form_bytes(b.skip(3))
    } else if b[0] == 0x2B {
        seq![0x20u8] + form_bytes(b.skip(1))
    } else {
        seq![b[0]] + form_bytes(b.skip(1))
    }
}

/// Decoded text of a query value.
pub open spec fn form_decoded(v: Seq<char>) -> Seq<char> {
    utf8_lossy(form_bytes(encode_utf8(v)))
}

fn hex_val_exec(b: u8) -> (r: Option<u8>)
    ensures
        match r {
            Some(v) => is_hex_char(b) && v as int == hex_val(b),
            None => !is_hex_char(b),
        },
{
    if 48 <= b && b <= 57 {
        Some(b - 48)
    } else if 65 <= b && b <= 70 {
        Some(b - 55)
    } else if 97 <= b && b <= 102 {
        Some(b - 87)
    } else {
        None
    }
}

/// Decodes a query value: `%XX` escapes and `+` as a space; malformed escapes kept.
pub fn percent_decode(input: &str) -> (r: String)
    ensures
        r@ == form_decoded(input@),
{
    let b = input.as_bytes();
    let ghost bs = b@;
    let mut out: Vec<u8> = Vec::new();
    let mut i: usize = 0;
    assert(bs.skip(0) =~= bs);
    while i < b.len()
        invariant
            i <= b.len(),
            bs == b@,
            form_bytes(bs) == out@ + form_bytes(bs.skip(i as int)),
        decreases b.len() - i,
    {
        let ghost rest = bs.skip(i as int);
        if b[i] == 0x25 && b.len() - i > 2 {
            match (hex_val_exec(b[i + 1]), hex_val_exec(b[i + 2])) {
                (Some(h), Some(l)) => {
                    assert(rest[1] == b[i + 1] && rest[2] == b[i + 2]);
                    assert(rest.skip(3) =~= bs.skip(i + 3));
                    out.push(h * 16 + l);
                    i += 3;
                    assert(form_bytes(bs) =~= out@ + form_bytes(bs.skip(i as int)));
                    continue;
                },
                _ => {
                    assert(rest[1] == b[i + 1] && rest[2] == b[i + 2]);
                },
            }
        }
        assert(rest.skip(1) =~= bs.skip(i + 1));
        if b[i] == 0x2B {
            out.push(0x20);
        } else {
            out.push(b[i]);
        }
        i += 1;
        assert(form_bytes(bs) =~= out@ + form_bytes(bs.skip(i as int)));
    }
    assert(bs.skip(i as int) =~= Seq::<u8>::empty());
    assert(out@ =~= form_bytes(bs));
    from_utf8_lossy(out.as_slice())
}

/// The value of a `key=value` pair when its key is `key`.
pub open spec fn value_of(pair: Seq<char>, key: Seq<char>) -> Option<Seq<char>> {
    let e = first_index_of(pair, '=');
    if e >= 0 && pair.take(e) == key { Some(pair.skip(e + 1)) } else { None }
}

/// The value of the last pair with the key.
pub open spec fn last_value(pairs: Seq<Seq<char>>, key: Seq<char>) -> Option<Seq<char>>
    decreases pairs.len(),
{
    if pairs.len() == 0 {
        None
    } else {
        match value_of(pairs.last(), key) {
            Some(v) => Some(v),
            None => last_value(pairs.drop_last(), key),
        }
    }
}

/// `code` (decoded) and `state` of a callback request target; none without a query.
pub open spec fn callback_spec(path: Seq<char>) -> (Option<Seq<char>>, Option<Seq<char>>) {
    let q = first_index_of(path, '?');
    if q < 0 {
        (None, None)
    } else {
        let pairs = split_char(path.skip(q + 1), '&');
        (
            match last_value(pairs, "code"@) {
                Some(v) => Some(form_decoded(v)),
                None => None,
            },
            last_value(pairs, "state"@),
        )
    }
}

fn range_value(v: &Vec<char>, lo: usize, hi: usize, key: &Vec<char>) -> (r: Option<(usize, usize)>)
    requires
        lo <= hi <= v.len(),
    ensures
        match value_of(v@.subrange(lo as int, hi as int), key@) {
            Some(x) => r matches Some((a, b)) && a <= b <= v.len() && v@.subrange(a as int, b as int) == x,
            None => r is None,
        },
{
    let ghost pair = v@.subrange(lo as int, hi as int);
    match first_index(v, lo, hi, '=') {
        Some(e) => {
            assert(v@.subrange(lo as int, lo + e) =~= pair.take(e as int));
            assert(v@.subrange(lo + e + 1, hi as int) =~= pair.skip(e + 1));
            let k = crate::text::compare_chars(&v.as_slice()[lo..lo + e], key.as_slice());
            proof {
                crate::text::lemma_lex_props(v@.subrange(lo as int, lo + e), key@);
            }
            if k == 0 {
                Some((lo + e + 1, hi))
            } else {
                None
            }
        },
        None => None,
    }
}

/// `code` (percent-decoded) and `state` of a callback request target such as
/// `/callback?code=..&state=..`; the last pair of each key wins, a target without a query gives
/// neither.
pub fn parse_callback_path(path: &str) -> (r: (Option<String>, Option<String>))
    ensures
        match callback_spec(path@).0 {
            Some(c) => r.0 matches Some(s) && s@ == c,
            None => r.0 is None,
        },
        match callback_spec(path@).1 {
            Some(c) => r.1 matches Some(s) && s@ == c,
            None => r.1 is None,
        },
{
    let v = chars_of(path);
    assert(v@.subrange(0, v.len() as int) =~= v@);
    let q = match first_index(&v, 0, v.len(), '?') {
        Some(q) => q,
        None => return (None, None),
    };
    let ghost query = v@.skip(q + 1);
    assert(v@.subrange(q + 1, v.len() as int) =~= query);
    let pairs = split_ranges(&v, q + 1, v.len(), '&');
    let ghost ps = split_char(query, '&');
    let code_key = chars_of("code");
    let state_key = chars_of("state");
    let mut code: Option<(usize, usize)> = None;
    let mut state: Option<(usize, usize)> = None;
    let mut k: usize = 0;
    while k < pairs.len()
        invariant
            k <= pairs.len() == ps.len(),
            ps == split_char(v@.subrange(q + 1, v.len() as int), '&'),
            code_key@ == "code"@,
            state_key@ == "state"@,
            forall|j: int| 0 <= j < pairs@.len() ==> (#[trigger] pairs@[j]).0 <= pairs@[j].1 <= v.len()
                && v@.subrange(pairs@[j].0 as int, pairs@[j].1 as int) == ps[j],
            match last_value(ps.take(k as int), "code"@) {
                Some(x) => code matches Some((a, b)) && a <= b <= v.len() && v@.subrange(a as int, b as int) == x,
                None => code is None,
            },
            match last_value(ps.take(k as int), "state"@) {
                Some(x) => state matches Some((a, b)) && a <= b <= v.len() && v@.subrange(a as int, b as int) == x,
                None => state is None,
            },
        decreases pairs.len() - k,
    {
        let (a, b) = pairs[k];
        assert(ps.take(k + 1).drop_last() =~= ps.take(k as int));
        assert(ps.take(k + 1).last() == ps[k as int]);
        match range_value(&v, a, b, &code_key) {
            Some(x) => {
                code = Some(x);
            },
            None => {},
        }
        match range_value(&v, a, b, &state_key) {
            Some(x) => {
                state = Some(x);
            },
            None => {},
        }
        k += 1;
    }
    assert(ps.take(pairs.len() as int) =~= ps);
    let c = match code {
        Some((a, b)) => {
            let raw = string_of_range(&v, a, b);
            Some(percent_decode(raw.as_str()))
        },
        None => None,
    };
    let s = match state {
        Some((a, b)) => Some(string_of_range(&v, a, b)),
        None => None,
    };
    (c, s)
}

} // verus!

verus! {

/// Bytes kept as they are in a URL component: ASCII letters, digits and `-_.~`.
pub open spec fn unreserved(b: u8) -> bool {
    (65 <= b <= 90) || (97 <= b <= 122) || (48 <= b <= 57) || b == 45 || b == 95 || b == 46 || b == 126
}

/// Upper-case hex digit of `d` (0..=15).
pub open spec fn hex_upper(d: int) -> char {
    if d < 10 { (48 + d) as char } else { (55 + d) as char }
}

/// Percent-encoding of UTF-8 bytes, unreserved bytes kept.
pub open spec fn url_encoded(b: Seq<u8>) -> Seq<char>
    decreases b.len(),
{
    if b.len() == 0 {
        Seq::empty()
    } else {
        url_encoded(b.drop_last()) + if unreserved(b.last()) {
            seq![b.last() as char]
        } else {
            seq!['%', hex_upper(b.last() as int / 16), hex_upper(b.last() as int % 16)]
        }
    }
}

/// Percent-encodes a URL component (`%XX` with upper-case hex for every byte but `A-Za-z0-9-_.~`).
pub fn urlencoding(s: &str) -> (r: String)
    ensures
        r@ == url_encoded(encode_utf8(s@)),
{
    let b = s.as_bytes();
    let mut out = String::new();
    let mut i: usize = 0;
    while i < b.len()
        invariant
            i <= b.len(),
            out@ == url_encoded(b@.take(i as int)),
        decreases b.len() - i,
    {
        assert(b@.take(i + 1).drop_last() =~= b@.take(i as int));
        let x = b[i];
        if (65 <= x && x <= 90) || (97 <= x && x <= 122) || (48 <= x && x <= 57) || x == 45 || x == 95 || x == 46 || x == 126 {
            push_char(&mut out, x as char);
        } else {
            let hi = x / 16;
            let lo = x % 16;
            push_char(&mut out, '%');
            push_char(&mut out, if hi < 10 { (48 + hi) as char } else { (55 + hi) as char });
            push_char(&mut out, if lo < 10 { (48 + lo) as char } else { (55 + lo) as char });
        }
        i += 1;
        assert(out@ =~= url_encoded(b@.take(i as int)));
    }
    assert(b@.take(b.len() as int) =~= b@);
    out
}

/// The authorisation page URL for a client and a `state`.
pub open spec fn authorize_url_spec(client_id: Seq<char>, state: Seq<char>) -> Seq<char> {
    AUTHORIZE_URL@ + "?response_type=code&client_id="@ + url_encoded(encode_utf8(client_id))
        + "&redirect_uri="@ + url_encoded(encode_utf8(REDIRECT_URI@)) + "&scope=public&state="@
        + url_encoded(encode_utf8(state))
}

/// The authorisation page URL: response type `code`, the client id, the loopback redirect,
/// scope `public` and the `state`, each percent-encoded.
pub fn authorize_url(client_id: &str, state: &str) -> (r: String)
    ensures
        r@ == authorize_url_spec(client_id@, state@),
{
    let mut s = String::new();
    push_str(&mut s, AUTHORIZE_URL);
    push_str(&mut s, "?response_type=code&client_id=");
    let a = urlencoding(client_id);
    push_str(&mut s, a.as_str());
    push_str(&mut s, "&redirect_uri=");
    let b = urlencoding(REDIRECT_URI);
    push_str(&mut s, b.as_str());
    push_str(&mut s, "&scope=public&state=");
    let c = urlencoding(state);
    push_str(&mut s, c.as_str());
    s
}

/// Credentials as entered, trimmed; an empty id, then an empty secret, is refused.
pub fn oauth_creds_from_input(client_id: &str, client_secret: &str) -> (r: Result<OauthCreds, String>)
    ensures
        trim(client_id@).len() == 0 ==> (r matches Err(e) && e@ == crate::errcode::CLIENT_ID_EMPTY@),
        trim(client_id@).len() > 0 && trim(client_secret@).len() == 0 ==> (r matches Err(e) && e@ == crate::errcode::CLIENT_SECRET_EMPTY@),
        trim(client_id@).len() > 0 && trim(client_secret@).len() > 0 ==> (r matches Ok(c)
            && c.client_id@ == trim(client_id@) && c.client_secret@ == trim(client_secret@)),
{
    let a = chars_of(client_id);
    let (a0, a1) = trim_range(&a, 0, a.len());
    let b = chars_of(client_secret);
    let (b0, b1) = trim_range(&b, 0, b.len());
    assert(a@.subrange(0, a.len() as int) =~= a@);
    assert(b@.subrange(0, b.len() as int) =~= b@);
    if a0 == a1 {
        return Err(crate::errcode::ec(crate::errcode::CLIENT_ID_EMPTY));
    }
    if b0 == b1 {
        return Err(crate::errcode::ec(crate::errcode::CLIENT_SECRET_EMPTY));
    }
    Ok(OauthCreds { client_id: string_of_range(&a, a0, a1), client_secret: string_of_range(&b, b0, b1) })
}

/// A manually pasted authorisation code, trimmed; an empty one is refused.
pub fn manual_code(code: &str) -> (r: Result<String, String>)
    ensures
        trim(code@).len() == 0 ==> (r matches Err(e) && e@ == crate::errcode::CODE_EMPTY@),
        trim(code@).len() > 0 ==> (r matches Ok(c) && c@ == trim(code@)),
{
    let a = chars_of(code);
    let (a0, a1) = trim_range(&a, 0, a.len());
    assert(a@.subrange(0, a.len() as int) =~= a@);
    if a0 == a1 {
        return Err(crate::errcode::ec(crate::errcode::CODE_EMPTY));
    }
    Ok(string_of_range(&a, a0, a1))
}

/// The login status shown: `idle` until something happened.
pub fn login_status_text(status: &str) -> (r: String)
    ensures
        status@.len() == 0 ==> r@ == "idle"@,
        status@.len() > 0 ==> r@ == status@,
{
    let mut s = String::new();
    if status.is_empty() {
        push_str(&mut s, "idle");
    } else {
        push_str(&mut s, status);
    }
    s
}

/// Where metadata comes from: the official API when logged in, the mirror otherwise.
pub fn source_label(logged_in: bool) -> (r: &'static str)
    ensures
        logged_in ==> r@ == "official"@,
        !logged_in ==> r@ == "mirror"@,
{
    if logged_in { "official" } else { "mirror" }
}

/// What a callback connection leads to.
pub enum CallbackOutcome {
    /// Exchange the code for tokens.
    Exchange(String),
    /// The state was missing or wrong.
    StateMismatch,
    /// No code came with the right state.
    NoCode,
}

/// Decides a loopback callback: the state must match the one sent, then a non-empty code must
/// be present.
pub fn callback_outcome(target: &str, expected: &str) -> (r: CallbackOutcome)
    ensures
        !(callback_spec(target@).1 matches Some(s) && s == expected@) ==> r is StateMismatch,
        (callback_spec(target@).1 matches Some(s) && s == expected@) ==> match callback_spec(target@).0 {
            Some(c) => if c.len() > 0 { r matches CallbackOutcome::Exchange(x) && x@ == c } else { r is NoCode },
            None => r is NoCode,
        },
{
    let (code, state) = parse_callback_path(target);
    let ok = match &state {
        Some(s) => state_ok(expected, Some(s.as_str())),
        None => state_ok(expected, None),
    };
    if !ok {
        return CallbackOutcome::StateMismatch;
    }
    match code {
        Some(c) => {
            if c.as_str().is_empty() {
                CallbackOutcome::NoCode
            } else {
                CallbackOutcome::Exchange(c)
            }
        },
        None => CallbackOutcome::NoCode,
    }
}

/// The official API counts as unreachable for a fetch error from the transport or a 401/403.
pub open spec fn official_unreachable_spec(err: Seq<char>) -> bool {
    starts_with(err, "transport"@) || contains_seq(err, "401"@) || contains_seq(err, "403"@)
}

/// A fetch error that makes the rest of the batch use the mirror.
pub fn official_unreachable(err: &str) -> (b: bool)
    ensures
        b == official_unreachable_spec(err@),
{
    let v = chars_of(err);
    assert(v@.subrange(0, v.len() as int) =~= v@);
    let t = chars_of("transport");
    let a = chars_of("401");
    let c = chars_of("403");
    has_prefix(&v, 0, v.len(), &t) || find_sub(&v, 0, v.len(), &a).is_some() || find_sub(&v, 0, v.len(), &c).is_some()
}

} // verus!

verus! {

use crate::manage::{sorted_unique_int, insert_unique_int};

/// Positive ids of the request, in order.
pub open spec fn positive(s: Seq<i64>) -> Seq<i64>
    decreases s.len(),
{
    if s.len() == 0 {
        Seq::empty()
    } else if s.last() > 0 {
        positive(s.drop_last()).push(s.last())
    } else {
        positive(s.drop_last())
    }
}

/// The sets a fetch handles: positive ids, without repeats, ascending, at most 200.
pub open spec fn fetch_ids_spec(s: Seq<i64>) -> Seq<i64> {
    let u = sorted_unique_int(positive(s));
    if u.len() > MAX_PER_CALL { u.take(MAX_PER_CALL as int) } else { u }
}

/// The sets a fetch handles: positive ids, without repeats, in ascending order, at most 200.
pub fn fetch_ids(set_ids: &[i64]) -> (r: Vec<i64>)
    ensures
        r@ == fetch_ids_spec(set_ids@),
{
    let mut ids: Vec<i64> = Vec::new();
    let mut i: usize = 0;
    while i < set_ids.len()
        invariant
            i <= set_ids.len(),
            ids@ == sorted_unique_int(positive(set_ids@.take(i as int))),
        decreases set_ids.len() - i,
    {
        assert(set_ids@.take(i + 1).drop_last() =~= set_ids@.take(i as int));
        let id = set_ids[i];
        if id > 0 {
            let ghost p = positive(set_ids@.take(i as int));
            insert_unique_int(&mut ids, id);
            assert(positive(set_ids@.take(i + 1)) == p.push(id));
            assert(p.push(id).drop_last() =~= p);
        }
        i += 1;
    }
    assert(set_ids@.take(set_ids.len() as int) =~= set_ids@);
    if ids.len() > MAX_PER_CALL {
        ids.truncate(MAX_PER_CALL);
    }
    ids
}

/// A cache entry as eviction sees it: the set id and when it was fetched.
pub open spec fn ins_by_time(v: Seq<(i64, i64)>, e: (i64, i64)) -> Seq<(i64, i64)>
    decreases v.len(),
{
    if v.len() == 0 {
        seq![e]
    } else if e.1 < v[0].1 {
        seq![e] + v
    } else {
        seq![v[0]] + ins_by_time(v.drop_first(), e)
    }
}

/// Entries ordered by fetch time, oldest first, ties kept in their order (a stable sort).
pub open spec fn sort_by_time(v: Seq<(i64, i64)>) -> Seq<(i64, i64)>
    decreases v.len(),
{
    if v.len() == 0 { Seq::empty() } else { ins_by_time(sort_by_time(v.drop_last()), v.last()) }
}

/// Ids evicted to keep at most `cap` entries: the oldest fetched first.
pub open spec fn evicted_spec(entries: Seq<(i64, i64)>, cap: nat) -> Seq<i64> {
    if entries.len() <= cap {
        Seq::empty()
    } else {
        sort_by_time(entries).take(entries.len() - cap).map_values(|e: (i64, i64)| e.0)
    }
}

proof fn lemma_ins_by_time_at(v: Seq<(i64, i64)>, e: (i64, i64), p: int)
    requires
        0 <= p <= v.len(),
        forall|j: int| 0 <= j < p ==> e.1 >= (#[trigger] v[j]).1,
        p == v.len() || e.1 < v[p].1,
    ensures
        ins_by_time(v, e) == v.take(p) + seq![e] + v.skip(p),
    decreases p,
{
    if p > 0 {
        lemma_ins_by_time_at(v.drop_first(), e, p - 1);
        assert(v.drop_first().take(p - 1) =~= v.take(p).drop_first());
        assert(v.drop_first().skip(p - 1) =~= v.skip(p));
        assert(v.take(p) =~= seq![v[0]] + v.take(p).drop_first());
        assert((seq![v[0]] + (v.drop_first().take(p - 1) + seq![e] + v.drop_first().skip(p - 1)))
            =~= v.take(p) + seq![e] + v.skip(p));
    } else {
        assert(v.take(0) + seq![e] + v.skip(0) =~= seq![e] + v);
    }
}

proof fn lemma_sort_by_time_len(v: Seq<(i64, i64)>)
    ensures
        sort_by_time(v).len() == v.len(),
    decreases v.len(),
{
    if v.len() > 0 {
        lemma_sort_by_time_len(v.drop_last());
        lemma_ins_by_time_len(sort_by_time(v.drop_last()), v.last());
    }
}

proof fn lemma_ins_by_time_len(v: Seq<(i64, i64)>, e: (i64, i64))
    ensures
        ins_by_time(v, e).len() == v.len() + 1,
    decreases v.len(),
{
    if v.len() > 0 && e.1 >= v[0].1 {
        lemma_ins_by_time_len(v.drop_first(), e);
    }
}

/// Ids to drop so that at most `cap` cache entries remain, the oldest fetched first (entries
/// come in ascending id order; equal times keep that order).
pub fn evicted_ids(entries: &[(i64, i64)], cap: usize) -> (r: Vec<i64>)
    ensures
        r@ == evicted_spec(entries@, cap as nat),
{
    if entries.len() <= cap {
        return Vec::new();
    }
    let mut sorted: Vec<(i64, i64)> = Vec::new();
    let mut i: usize = 0;
    while i < entries.len()
        invariant
            i <= entries.len(),
            sorted@ == sort_by_time(entries@.take(i as int)),
        decreases entries.len() - i,
    {
        assert(entries@.take(i + 1).drop_last() =~= entries@.take(i as int));
        let e = entries[i];
        let mut p: usize = 0;
        while p < sorted.len() && e.1 >= sorted[p].1
            invariant
                p <= sorted.len(),
                forall|j: int| 0 <= j < p ==> e.1 >= (#[trigger] sorted@[j]).1,
            decreases sorted.len() - p,
        {
            p += 1;
        }
        proof {
            lemma_ins_by_time_at(sorted@, e, p as int);
        }
        let ghost before = sorted@;
        sorted.insert(p, e);
        assert(sorted@ =~= before.take(p as int) + seq![e] + before.skip(p as int));
        i += 1;
    }
    assert(entries@.take(entries.len() as int) =~= entries@);
    proof {
        lemma_sort_by_time_len(entries@);
    }
    let drop_n = entries.len() - cap;
    let mut out: Vec<i64> = Vec::new();
    let mut k: usize = 0;
    while k < drop_n
        invariant
            k <= drop_n <= sorted.len(),
            out@ == sorted@.take(k as int).map_values(|e: (i64, i64)| e.0),
        decreases drop_n - k,
    {
        out.push(sorted[k].0);
        k += 1;
        assert(out@ =~= sorted@.take(k as int).map_values(|e: (i64, i64)| e.0));
    }
    out
}

/// The fields of a token endpoint reply.
#[derive(Debug)]
pub struct TokenResp {
    pub access_token: Option<String>,
    pub refresh_token: Option<String>,
    pub token_type: Option<String>,
    pub expires_in: Option<i64>,
    pub error_description: Option<String>,
    pub error: Option<String>,
}

/// Tokens from a token endpoint reply. A failed request gives `err.tokenFailed` with the
/// reply's `error_description`, else its `error`, else `HTTP <status>`; a reply without an
/// access or a refresh token is refused; the type defaults to `Bearer` and the lifetime to 24 h.
pub fn tokens_from_reply(success: bool, status_text: &str, resp: TokenResp, now: i64) -> (r: Result<Tokens, String>)
    requires
        success && resp.access_token is Some && resp.refresh_token is Some
            ==> i64::MIN <= now + match resp.expires_in { Some(e) => e as int, None => 86400 } <= i64::MAX,
    ensures
        !success ==> (r matches Err(e) && e@ == crate::errcode::TOKEN_FAILED@ + seq!['|'] + match resp.error_description {
            Some(d) => d@,
            None => match resp.error {
                Some(x) => x@,
                None => "HTTP "@ + status_text@,
            },
        }),
        success && resp.access_token is None ==> (r matches Err(e) && e@ == crate::errcode::TOKEN_MISSING_ACCESS@),
        success && resp.access_token is Some && resp.refresh_token is None ==> (r matches Err(e) && e@ == crate::errcode::TOKEN_MISSING_REFRESH@),
        success && resp.access_token is Some && resp.refresh_token is Some ==> (r matches Ok(t)
            && t.access_token@ == resp.access_token->0@
            && t.refresh_token@ == resp.refresh_token->0@
            && t.token_type@ == match resp.token_type { Some(x) => x@, None => "Bearer"@ }
            && t.expires_at == now + match resp.expires_in { Some(e) => e as int, None => 86400 }),
{
    if !success {
        let msg = match resp.error_description {
            Some(d) => d,
            None => match resp.error {
                Some(x) => x,
                None => {
                    let mut m = String::new();
                    push_str(&mut m, "HTTP ");
                    push_str(&mut m, status_text);
                    m
                },
            },
        };
        return Err(crate::errcode::ec1(crate::errcode::TOKEN_FAILED, msg.as_str()));
    }
    let access = match resp.access_token {
        Some(a) => a,
        None => return Err(crate::errcode::ec(crate::errcode::TOKEN_MISSING_ACCESS)),
    };
    let refresh = match resp.refresh_token {
        Some(x) => x,
        None => return Err(crate::errcode::ec(crate::errcode::TOKEN_MISSING_REFRESH)),
    };
    let token_type = match resp.token_type {
        Some(t) => t,
        None => {
            let mut b = String::new();
            push_str(&mut b, "Bearer");
            b
        },
    };
    let life: i64 = match resp.expires_in {
        Some(e) => e,
        None => 86400,
    };
    Ok(Tokens { access_token: access, refresh_token: refresh, token_type, expires_at: now + life })
}

} // verus!

verus! {

/// Tries a mirror request gets: the first and two retries.
pub const MIRROR_RETRIES: u32 = 3;

pub open spec fn fresh_spec(fetched_at: i64, now: i64) -> bool {
    (if now - fetched_at < i64::MIN { i64::MIN as int } else if now - fetched_at > i64::MAX { i64::MAX as int } else { now - fetched_at }) < REFRESH_TTL_SECS
}

/// The fetch time of the first cache entry for `id`, if any.
pub open spec fn cached_at(cached: Seq<(i64, i64)>, id: i64, n: int) -> Option<i64>
    decreases n,
{
    if n <= 0 {
        None
    } else {
        match cached_at(cached, id, n - 1) {
            Some(t) => Some(t),
            None => if cached[n - 1].0 == id { Some(cached[n - 1].1) } else { None },
        }
    }
}

/// Whether set `id` is answered from the cache: it has an entry that is still fresh.
pub open spec fn hit_spec(cached: Seq<(i64, i64)>, id: i64, now: i64) -> bool {
    match cached_at(cached, id, cached.len() as int) {
        Some(t) => fresh_spec(t, now),
        None => false,
    }
}

/// The first `n` ids split by `hit_spec`: (answered from the cache, to fetch), in order.
pub open spec fn split_spec(ids: Seq<i64>, cached: Seq<(i64, i64)>, now: i64, n: int) -> (Seq<i64>, Seq<i64>)
    decreases n,
{
    if n <= 0 {
        (Seq::empty(), Seq::empty())
    } else {
        let p = split_spec(ids, cached, now, n - 1);
        if hit_spec(cached, ids[n - 1], now) { (p.0.push(ids[n - 1]), p.1) } else { (p.0, p.1.push(ids[n - 1])) }
    }
}

proof fn lemma_cached_at_stays(cached: Seq<(i64, i64)>, id: i64, m: int, n: int)
    requires
        cached_at(cached, id, m) is Some,
        m <= n,
    ensures
        cached_at(cached, id, n) == cached_at(cached, id, m),
    decreases n - m,
{
    if n > m {
        lemma_cached_at_stays(cached, id, m, n - 1);
    }
}

fn cached_time(cached: &[(i64, i64)], id: i64) -> (r: Option<i64>)
    ensures
        r == cached_at(cached@, id, cached@.len() as int),
{
    let mut i: usize = 0;
    while i < cached.len()
        invariant
            i <= cached@.len(),
            cached_at(cached@, id, i as int) is None,
        decreases cached@.len() - i,
    {
        if cached[i].0 == id {
            proof {
                lemma_cached_at_stays(cached@, id, i + 1, cached@.len() as int);
            }
            return Some(cached[i].1);
        }
        i += 1;
    }
    None
}

/// Splits the ids of a fetch (see `fetch_ids`) into those answered from the cache (an entry
/// fetched within the last 7 days) and those to fetch; `cached` holds (set id, fetch time).
pub fn split_cached(ids: &[i64], cached: &[(i64, i64)], now: i64) -> (r: (Vec<i64>, Vec<i64>))
    ensures
        (r.0@, r.1@) == split_spec(ids@, cached@, now, ids@.len() as int),
{
    let mut hits: Vec<i64> = Vec::new();
    let mut need: Vec<i64> = Vec::new();
    let mut i: usize = 0;
    while i < ids.len()
        invariant
            i <= ids@.len(),
            (hits@, need@) == split_spec(ids@, cached@, now, i as int),
        decreases ids@.len() - i,
    {
        let id = ids[i];
        let hit = match cached_time(cached, id) {
            Some(t) => is_fresh(t, now),
            None => false,
        };
        if hit {
            hits.push(id);
        } else {
            need.push(id);
        }
        i += 1;
    }
    (hits, need)
}

/// Whether a failed mirror request is tried again: not for a 404 (the mirror lacks the set),
/// and at most `MIRROR_RETRIES` tries in all (`attempt` counts from 0).
pub fn mirror_retry(err: &str, attempt: u32) -> (b: bool)
    ensures
        b == (!contains_seq(err@, "404"@) && attempt + 1 < MIRROR_RETRIES),
{
    let v = chars_of(err);
    let p = chars_of("404");
    assert(v@.subrange(0, v@.len() as int) =~= v@);
    if find_sub(v.as_slice(), 0, v.len(), p.as_slice()).is_some() {
        return false;
    }
    attempt < MIRROR_RETRIES - 1
}

/// The set id of an API reply: its own id, or the requested one when the reply's is 0.
pub fn reply_set_id(raw_id: i64, requested: i64) -> (r: i64)
    ensures
        r == if raw_id != 0 { raw_id } else { requested },
{
    if raw_id != 0 { raw_id } else { requested }
}

/// A genre or language name from the API, none when empty.
pub fn nonempty_name(name: Option<String>) -> (r: Option<String>)
    ensures
        match name {
            Some(n) => if n@.len() > 0 { r == Some(n) } else { r is None },
            None => r is None,
        },
{
    match name {
        Some(n) => if n.as_str().is_empty() { None } else { Some(n) },
        None => None,
    }
}

} // verus!

verus! {

use crate::manage::ins_unique_int;

pub open spec fn strictly_ascending(v: Seq<i64>) -> bool {
    forall|i: int, j: int| 0 <= i < j < v.len() ==> v[i] < v[j]
}

proof fn lemma_ins_unique_int(v: Seq<i64>, x: i64)
    requires
        strictly_ascending(v),
    ensures
        strictly_ascending(ins_unique_int(v, x)),
        forall|y: i64| #![trigger ins_unique_int(v, x).contains(y)] #![trigger v.contains(y)] ins_unique_int(v, x).contains(y) <==> (v.contains(y) || y == x),
    decreases v.len(),
{
    let r = ins_unique_int(v, x);
    if v.len() == 0 {
        assert(r =~= seq![x]);
        assert forall|y: i64| r.contains(y) <==> (v.contains(y) || y == x) by {
            if y == x {
                assert(r[0] == x);
            }
        }
    } else if x < v[0] {
        assert forall|i: int, j: int| 0 <= i < j < r.len() implies r[i] < r[j] by {
            if i == 0 {
                assert(r[j] == v[j - 1]);
            } else {
                assert(r[i] == v[i - 1] && r[j] == v[j - 1]);
            }
        }
        assert forall|y: i64| r.contains(y) <==> (v.contains(y) || y == x) by {
            if r.contains(y) {
                let k = choose|k: int| 0 <= k < r.len() && r[k] == y;
                if k > 0 {
                    assert(v[k - 1] == y);
                }
            }
            if v.contains(y) {
                let k = choose|k: int| 0 <= k < v.len() && v[k] == y;
                assert(r[k + 1] == y);
            }
            if y == x {
                assert(r[0] == y);
            }
        }
    } else if x == v[0] {
        assert forall|y: i64| r.contains(y) <==> (v.contains(y) || y == x) by {
            if y == x {
                assert(v[0] == y);
            }
        }
    } else {
        let rest = v.drop_first();
        assert(strictly_ascending(rest)) by {
            assert forall|i: int, j: int| 0 <= i < j < rest.len() implies rest[i] < rest[j] by {
                assert(rest[i] == v[i + 1] && rest[j] == v[j + 1]);
            }
        }
        lemma_ins_unique_int(rest, x);
        let t = ins_unique_int(rest, x);
        assert(r == seq![v[0]] + t);
        assert forall|i: int, j: int| 0 <= i < j < r.len() implies r[i] < r[j] by {
            if i == 0 {
                assert(r[j] == t[j - 1]);
                assert(t.contains(t[j - 1]));
                if t[j - 1] != x {
                    assert(rest.contains(t[j - 1]));
                    let m = choose|m: int| 0 <= m < rest.len() && rest[m] == t[j - 1];
                    assert(v[m + 1] == t[j - 1]);
                }
            } else {
                assert(r[i] == t[i - 1] && r[j] == t[j - 1]);
            }
        }
        assert forall|y: i64| r.contains(y) <==> (v.contains(y) || y == x) by {
            if r.contains(y) {
                let k = choose|k: int| 0 <= k < r.len() && r[k] == y;
                if k > 0 {
                    assert(t[k - 1] == y);
                    assert(t.contains(y));
                    if rest.contains(y) {
                        let m = choose|m: int| 0 <= m < rest.len() && rest[m] == y;
                        assert(v[m + 1] == y);
                    }
                } else {
                    assert(v[0] == y);
                }
            }
            if v.contains(y) {
                let k = choose|k: int| 0 <= k < v.len() && v[k] == y;
                if k == 0 {
                    assert(r[0] == y);
                } else {
                    assert(rest[k - 1] == y);
                    assert(rest.contains(y));
                    assert(t.contains(y));
                    let m = choose|m: int| 0 <= m < t.len() && t[m] == y;
                    assert(r[m + 1] == y);
                }
            }
            if y == x {
                assert(t.contains(x));
                let m = choose|m: int| 0 <= m < t.len() && t[m] == y;
                assert(r[m + 1] == y);
            }
        }
    }
}

proof fn lemma_sorted_unique_int(s: Seq<i64>)
    ensures
        strictly_ascending(sorted_unique_int(s)),
        forall|y: i64| #![trigger sorted_unique_int(s).contains(y)] #![trigger s.contains(y)] sorted_unique_int(s).contains(y) <==> s.contains(y),
    decreases s.len(),
{
    if s.len() > 0 {
        lemma_sorted_unique_int(s.drop_last());
        lemma_ins_unique_int(sorted_unique_int(s.drop_last()), s.last());
        assert forall|y: i64| sorted_unique_int(s).contains(y) <==> s.contains(y) by {
            if s.drop_last().contains(y) {
                let k = choose|k: int| 0 <= k < s.drop_last().len() && s.drop_last()[k] == y;
                assert(s[k] == y);
            }
            if s.contains(y) {
                let k = choose|k: int| 0 <= k < s.len() && s[k] == y;
                if k < s.len() - 1 {
                    assert(s.drop_last()[k] == y);
                }
            }
        }
    } else {
        assert(sorted_unique_int(s) =~= Seq::<i64>::empty());
    }
}

proof fn lemma_positive(s: Seq<i64>)
    ensures
        forall|y: i64| #![trigger positive(s).contains(y)] #![trigger s.contains(y)] positive(s).contains(y) <==> (s.contains(y) && y > 0),
    decreases s.len(),
{
    if s.len() > 0 {
        lemma_positive(s.drop_last());
        let d = s.drop_last();
        let p = positive(d);
        let l = s.last();
        let q = positive(s);
        assert(l > 0 ==> q == p.push(l));
        assert(l <= 0 ==> q == p);
        assert forall|y: i64| q.contains(y) implies s.contains(y) && y > 0 by {
            let k = choose|k: int| 0 <= k < q.len() && q[k] == y;
            if l > 0 && k == p.len() {
                assert(s[s.len() - 1] == y);
            } else {
                assert(p[k] == y);
                assert(p.contains(y));
                let m = choose|m: int| 0 <= m < d.len() && d[m] == y;
                assert(s[m] == y);
            }
        }
        assert forall|y: i64| s.contains(y) && y > 0 implies q.contains(y) by {
            let k = choose|k: int| 0 <= k < s.len() && s[k] == y;
            if k == s.len() - 1 {
                assert(q[p.len() as int] == y);
            } else {
                assert(d[k] == y);
                assert(d.contains(y));
                assert(p.contains(y));
                let m = choose|m: int| 0 <= m < p.len() && p[m] == y;
                assert(q[m] == y);
            }
        }
    }
}

/// A fetch handles only requested positive ids, each once, in ascending order, at most 200 of
/// them; when at most 200 distinct positive ids are requested, it handles every one.
pub proof fn fetch_ids_ascending_unique(s: Seq<i64>)
    ensures
        fetch_ids_spec(s).len() <= MAX_PER_CALL,
        strictly_ascending(fetch_ids_spec(s)),
        forall|i: int| 0 <= i < fetch_ids_spec(s).len() ==> #[trigger] fetch_ids_spec(s)[i] > 0 && s.contains(fetch_ids_spec(s)[i]),
        sorted_unique_int(positive(s)).len() <= MAX_PER_CALL ==> forall|y: i64| s.contains(y) && y > 0 ==> #[trigger] fetch_ids_spec(s).contains(y),
{
    let u = sorted_unique_int(positive(s));
    lemma_sorted_unique_int(positive(s));
    lemma_positive(s);
    let r = fetch_ids_spec(s);
    assert forall|i: int| 0 <= i < r.len() implies #[trigger] r[i] > 0 && s.contains(r[i]) by {
        assert(r[i] == u[i]);
        assert(u.contains(u[i]));
    }
    assert forall|i: int, j: int| 0 <= i < j < r.len() implies r[i] < r[j] by {
        assert(r[i] == u[i] && r[j] == u[j]);
    }
}

} // verus!

verus! {

/// Eviction leaves exactly `cap` entries when there are more, and evicts none otherwise.
pub proof fn eviction_keeps_cap(entries: Seq<(i64, i64)>, cap: nat)
    ensures
        evicted_spec(entries, cap).len() == if entries.len() > cap { entries.len() - cap } else { 0 },
{
    if entries.len() > cap {
        lemma_sort_by_time_len(entries);
    }
}

} // verus!

verus! {

/// Entries in order of fetch time, oldest first.
pub open spec fn time_ordered(s: Seq<(i64, i64)>) -> bool {
    forall|i: int, j: int| 0 <= i <= j < s.len() ==> (#[trigger] s[i]).1 <= (#[trigger] s[j]).1
}

proof fn lemma_ins_by_time(v: Seq<(i64, i64)>, e: (i64, i64))
    requires
        time_ordered(v),
    ensures
        time_ordered(ins_by_time(v, e)),
        ins_by_time(v, e).to_multiset() == v.to_multiset().insert(e),
        forall|k: int| 0 <= k < ins_by_time(v, e).len() ==> #[trigger] ins_by_time(v, e)[k] == e || v.contains(ins_by_time(v, e)[k]),
    decreases v.len(),
{
    broadcast use vstd::seq_lib::group_to_multiset_ensures;
    let w = ins_by_time(v, e);
    lemma_ins_by_time_len(v, e);
    if v.len() == 0 {
        assert(w =~= Seq::<(i64, i64)>::empty().push(e));
        vstd::seq_lib::to_multiset_build(Seq::<(i64, i64)>::empty(), e);
    } else if e.1 < v[0].1 {
        assert(w =~= v.insert(0, e));
        vstd::seq_lib::to_multiset_insert(v, 0, e);
        assert forall|k: int| 0 <= k < w.len() implies #[trigger] w[k] == e || v.contains(w[k]) by {
            if k > 0 {
                assert(w[k] == v[k - 1]);
            }
        }
    } else {
        let rest = v.drop_first();
        let u = ins_by_time(rest, e);
        lemma_ins_by_time(rest, e);
        assert(w == seq![v[0]] + u);
        assert(w =~= u.insert(0, v[0]));
        vstd::seq_lib::to_multiset_insert(u, 0, v[0]);
        assert(v =~= rest.insert(0, v[0]));
        vstd::seq_lib::to_multiset_insert(rest, 0, v[0]);
        assert(w.to_multiset() =~= v.to_multiset().insert(e));
        assert forall|k: int| 0 <= k < w.len() implies #[trigger] w[k] == e || v.contains(w[k]) by {
            if k > 0 {
                assert(w[k] == u[k - 1]);
                if u[k - 1] != e {
                    let m = choose|m: int| 0 <= m < rest.len() && rest[m] == u[k - 1];
                    assert(v[m + 1] == rest[m]);
                }
            }
        }
        assert forall|i: int, j: int| 0 <= i <= j < w.len() implies (#[trigger] w[i]).1 <= (#[trigger] w[j]).1 by {
            if i == 0 && j > 0 {
                assert(w[j] == u[j - 1]);
                if u[j - 1] != e {
                    let m = choose|m: int| 0 <= m < rest.len() && rest[m] == u[j - 1];
                    assert(v[m + 1] == rest[m]);
                }
            } else if i > 0 {
                assert(w[i] == u[i - 1] && w[j] == u[j - 1]);
            }
        }
    }
}

proof fn lemma_sort_by_time(v: Seq<(i64, i64)>)
    ensures
        time_ordered(sort_by_time(v)),
        sort_by_time(v).to_multiset() == v.to_multiset(),
    decreases v.len(),
{
    broadcast use vstd::seq_lib::group_to_multiset_ensures;
    if v.len() == 0 {
        assert(v.to_multiset() =~= vstd::multiset::Multiset::empty());
        assert(sort_by_time(v).to_multiset() =~= vstd::multiset::Multiset::empty());
    } else {
        lemma_sort_by_time(v.drop_last());
        lemma_ins_by_time(sort_by_time(v.drop_last()), v.last());
        assert(v =~= v.drop_last().push(v.last()));
        vstd::seq_lib::to_multiset_build(v.drop_last(), v.last());
    }
}

/// Eviction drops the oldest entries: arranged by fetch time, oldest first (a rearrangement of
/// the same entries), the evicted ids are those of the first `len - cap` entries, each fetched
/// no later than any entry that stays.
pub proof fn eviction_drops_oldest(entries: Seq<(i64, i64)>, cap: nat)
    requires
        entries.len() > cap,
    ensures
        sort_by_time(entries).to_multiset() == entries.to_multiset(),
        evicted_spec(entries, cap) == sort_by_time(entries).take(entries.len() - cap).map_values(|e: (i64, i64)| e.0),
        forall|i: int, j: int| 0 <= i < entries.len() - cap <= j < entries.len()
            ==> (#[trigger] sort_by_time(entries)[i]).1 <= (#[trigger] sort_by_time(entries)[j]).1,
{
    lemma_sort_by_time(entries);
    lemma_sort_by_time_len(entries);
}

} // verus!

verus! {

/// Where a metadata request goes: the official API, or the mirror (try number, from 0).
#[derive(Debug, Clone, Copy, PartialEq, Eq, Structural)]
pub enum FetchTry {
    Official,
    Mirror(u32),
}

/// What a request gave: metadata read, a reply that did not read as metadata, or an error.
#[derive(Debug)]
pub enum FetchReply {
    Parsed,
    Unparsed,
    Failed(String),
}

/// The decision after a request: the next request, if any, whether the official API now
/// counts as unreachable, and the pause before going on.
#[derive(Debug)]
pub struct FetchStep {
    pub next: Option<FetchTry>,
    pub official_failed: bool,
    pub pause_ms: u64,
}

/// Pause after an official request (about 1.2 requests a second).
pub const OFFICIAL_PAUSE_MS: u64 = 1200;
/// Pause after a failed mirror request that is not a 404.
pub const MIRROR_PAUSE_MS: u64 = 120;

/// The first request for a set: the official API while it is not known unreachable and a token
/// is at hand, else the mirror.
pub fn fetch_first(official_failed: bool, has_token: bool) -> (t: FetchTry)
    ensures
        t == if !official_failed && has_token { FetchTry::Official } else { FetchTry::Mirror(0) },
{
    if !official_failed && has_token { FetchTry::Official } else { FetchTry::Mirror(0) }
}

/// The decision after request `t` for a set gave `reply`: an official request is followed by a
/// pause and, unless it read, by the mirror; an error from the transport or a 401/403 marks the
/// official API unreachable for the rest of the batch. A mirror request ends the set once it got
/// a reply; a failed one pauses unless it was a 404, and is tried again while `mirror_retry`
/// allows.
pub fn fetch_after(t: FetchTry, reply: &FetchReply, official_failed: bool) -> (s: FetchStep)
    ensures
        t == FetchTry::Official ==> s.pause_ms == OFFICIAL_PAUSE_MS
            && s.next == (if reply is Parsed { None } else { Some(FetchTry::Mirror(0)) })
            && s.official_failed == (official_failed || (reply matches FetchReply::Failed(e) && official_unreachable_spec(e@))),
        t matches FetchTry::Mirror(a) ==> s.official_failed == official_failed && match reply {
            FetchReply::Failed(e) => s.pause_ms == (if contains_seq(e@, "404"@) { 0 } else { MIRROR_PAUSE_MS })
                && s.next == (if !contains_seq(e@, "404"@) && a + 1 < MIRROR_RETRIES { Some(FetchTry::Mirror((a + 1) as u32)) } else { None }),
            _ => s.pause_ms == 0 && s.next is None,
        },
{
    match t {
        FetchTry::Official => {
            let (next, failed) = match reply {
                FetchReply::Parsed => (None, official_failed),
                FetchReply::Unparsed => (Some(FetchTry::Mirror(0)), official_failed),
                FetchReply::Failed(e) => (Some(FetchTry::Mirror(0)), official_failed || official_unreachable(e.as_str())),
            };
            FetchStep { next, official_failed: failed, pause_ms: OFFICIAL_PAUSE_MS }
        },
        FetchTry::Mirror(a) => match reply {
            FetchReply::Failed(e) => {
                let v = chars_of(e.as_str());
                let p = chars_of("404");
                assert(v@.subrange(0, v@.len() as int) =~= v@);
                let is404 = find_sub(v.as_slice(), 0, v.len(), p.as_slice()).is_some();
                let again = mirror_retry(e.as_str(), a);
                let next = if again { Some(FetchTry::Mirror(a + 1)) } else { None };
                FetchStep { next, official_failed, pause_ms: if is404 { 0 } else { MIRROR_PAUSE_MS } }
            },
            _ => FetchStep { next: None, official_failed, pause_ms: 0 },
        },
    }
}

} // verus!
