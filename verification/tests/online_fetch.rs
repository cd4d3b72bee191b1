use osu_song_manager::online::{
    authorize_url, evicted_ids, fetch_ids, is_fresh, manual_code, mirror_retry, nonempty_name, oauth_creds_from_input,
    official_unreachable, percent_decode, reply_set_id, split_cached, state_from_seed, state_ok, tokens_from_reply,
    urlencoding, TokenResp, fetch_after, fetch_first, FetchReply, FetchTry,
};

#[test]
fn fetch_ids_positive_unique_ascending_capped() {
    assert_eq!(fetch_ids(&[5, -1, 3, 5, 0, 9]), vec![3, 5, 9]);
    let many: Vec<i64> = (1..=250).rev().collect();
    let ids = fetch_ids(&many);
    assert_eq!(ids.len(), 200);
    assert_eq!(ids[0], 1);
    assert_eq!(ids[199], 200);
}

#[test]
fn cache_split_by_freshness() {
    let now = 1_000_000;
    let cached = vec![(3, now - 60), (5, now - 604_800), (9, now - 604_799)];
    let (hits, need) = split_cached(&[3, 4, 5, 9], &cached, now);
    assert_eq!(hits, vec![3, 9]);
    assert_eq!(need, vec![4, 5]);
    assert!(is_fresh(now - 3600, now));
    assert!(!is_fresh(i64::MIN, i64::MAX));
}

#[test]
fn eviction_drops_oldest_first() {
    let entries = vec![(1, 50), (2, 10), (3, 30), (4, 10)];
    assert_eq!(evicted_ids(&entries, 2), vec![2, 4]);
    assert!(evicted_ids(&entries, 4).is_empty());
}

#[test]
fn mirror_retries_and_official_failures() {
    assert!(mirror_retry("transport: timeout", 0));
    assert!(mirror_retry("status: 500", 1));
    assert!(!mirror_retry("status: 500", 2));
    assert!(!mirror_retry("status: 404", 0));
    assert!(official_unreachable("transport: dns"));
    assert!(official_unreachable("status: 401"));
    assert!(!official_unreachable("status: 404"));
    assert_eq!(reply_set_id(0, 77), 77);
    assert_eq!(reply_set_id(12, 77), 12);
    assert_eq!(nonempty_name(Some(String::new())), None);
    assert_eq!(nonempty_name(Some("Pop".into())), Some("Pop".to_string()));
}

#[test]
fn url_encoding_and_decoding() {
    assert_eq!(urlencoding("a b/ü~"), "a%20b%2F%C3%BC~");
    assert_eq!(percent_decode("a%20b+c%zz"), "a b c%zz");
    assert_eq!(percent_decode(&urlencoding("x y&z")), "x y&z");
    let u = authorize_url("123", "st");
    assert_eq!(
        u,
        "https://osu.ppy.sh/oauth/authorize?response_type=code&client_id=123&redirect_uri=http%3A%2F%2Flocalhost%3A47821%2Fcallback&scope=public&state=st"
    );
}

#[test]
fn login_inputs_and_state() {
    assert_eq!(oauth_creds_from_input(" ", "s").unwrap_err(), "err.clientIdEmpty");
    assert_eq!(oauth_creds_from_input("id", "  ").unwrap_err(), "err.clientSecretEmpty");
    let c = oauth_creds_from_input(" id ", " sec ").unwrap();
    assert_eq!((c.client_id.as_str(), c.client_secret.as_str()), ("id", "sec"));
    assert_eq!(manual_code("  ").unwrap_err(), "err.codeEmpty");
    assert_eq!(manual_code(" abc ").unwrap(), "abc");
    let s = state_from_seed(42);
    assert_eq!(s.len(), 24);
    assert!(s.chars().all(|c| c.is_ascii_hexdigit()));
    assert!(state_ok(&s, Some(&s)));
    assert_ne!(state_from_seed(43), s);
}

fn reply(access: Option<&str>, refresh: Option<&str>) -> TokenResp {
    TokenResp {
        access_token: access.map(str::to_string),
        refresh_token: refresh.map(str::to_string),
        token_type: None,
        expires_in: None,
        error_description: None,
        error: None,
    }
}

#[test]
fn token_replies() {
    let t = tokens_from_reply(true, "200 OK", reply(Some("a"), Some("r")), 1000).unwrap();
    assert_eq!(t.token_type, "Bearer");
    assert_eq!(t.expires_at, 1000 + 86400);
    assert_eq!(tokens_from_reply(true, "200 OK", reply(None, Some("r")), 0).unwrap_err(), "err.tokenMissingAccess");
    assert_eq!(tokens_from_reply(true, "200 OK", reply(Some("a"), None), 0).unwrap_err(), "err.tokenMissingRefresh");
    assert_eq!(tokens_from_reply(false, "400 Bad Request", reply(None, None), 0).unwrap_err(), "err.tokenFailed|HTTP 400 Bad Request");
    let mut e = reply(None, None);
    e.error = Some("invalid_grant".into());
    assert_eq!(tokens_from_reply(false, "400", e, 0).unwrap_err(), "err.tokenFailed|invalid_grant");
}

#[test]
fn cache_cap_evicts_oldest() {
    let entries: Vec<(i64, i64)> = (0..5).map(|i| (i, 1000 + i)).collect();
    let evicted = evicted_ids(&entries, 3);
    let kept: Vec<i64> = entries.iter().map(|e| e.0).filter(|k| !evicted.contains(k)).collect();
    assert_eq!(kept.len(), 3);
    assert!(!kept.contains(&0) && !kept.contains(&1));
    assert!(kept.contains(&4));
}

#[test]
fn cache_ttl_keeps_recent_and_drops_stale() {
    let now: i64 = 1_700_000_000;
    assert!(is_fresh(now - 3600, now));
    assert!(!is_fresh(now - osu_song_manager::online::REFRESH_TTL_SECS - 60, now));
    assert!(!is_fresh(now - osu_song_manager::online::REFRESH_TTL_SECS, now));
    assert!(is_fresh(now - osu_song_manager::online::REFRESH_TTL_SECS + 1, now));
}

#[test]
fn fetch_steps_switch_to_mirror_and_retry() {
    assert_eq!(fetch_first(false, true), FetchTry::Official);
    assert_eq!(fetch_first(true, true), FetchTry::Mirror(0));
    assert_eq!(fetch_first(false, false), FetchTry::Mirror(0));
    let s = fetch_after(FetchTry::Official, &FetchReply::Failed("transport: timeout".into()), false);
    assert!(s.official_failed);
    assert_eq!(s.next, Some(FetchTry::Mirror(0)));
    assert_eq!(s.pause_ms, 1200);
    let s = fetch_after(FetchTry::Official, &FetchReply::Failed("status: 404".into()), false);
    assert!(!s.official_failed);
    assert_eq!(s.next, Some(FetchTry::Mirror(0)));
    let s = fetch_after(FetchTry::Official, &FetchReply::Parsed, false);
    assert_eq!(s.next, None);
    let s = fetch_after(FetchTry::Mirror(0), &FetchReply::Failed("status: 500".into()), false);
    assert_eq!(s.next, Some(FetchTry::Mirror(1)));
    assert_eq!(s.pause_ms, 120);
    let s = fetch_after(FetchTry::Mirror(2), &FetchReply::Failed("status: 500".into()), false);
    assert_eq!(s.next, None);
    let s = fetch_after(FetchTry::Mirror(0), &FetchReply::Failed("status: 404".into()), true);
    assert_eq!((s.next, s.pause_ms, s.official_failed), (None, 0, true));
    let s = fetch_after(FetchTry::Mirror(0), &FetchReply::Unparsed, false);
    assert_eq!((s.next, s.pause_ms), (None, 0));
}
