use unidpp_resolver::json::{parse_json, Json};
use unidpp_resolver::record::{LogRecord, Op};
use unidpp_resolver::store::{CacheEntry, DarkInterval, LinkEntry, Lookup, Store};
use unidpp_resolver::Timestamp;

fn entry(href: &str, as_of: Timestamp) -> LinkEntry {
    LinkEntry {
        id: 0,
        link_type: "dpp".to_string(),
        href: href.to_string(),
        title: None,
        media_type: None,
        profile: None,
        role: None,
        languages: Vec::new(),
        region: None,
        as_of,
        expiry: None,
    }
}

fn ts(s: &str) -> Timestamp {
    Timestamp::parse(s).unwrap()
}

fn fresh() -> Store {
    let (store, said) = Store::open(&Vec::new(), ts("2026-01-01T00:00:00Z"));
    assert!(said.is_empty());
    store
}

fn json(text: &str) -> Json {
    parse_json(text).unwrap()
}

#[test]
fn register_and_lookup() {
    let mut store = fresh();
    let t0 = ts("2026-01-01T00:00:00Z");
    let registered =
        store.register("gs1:(01)06901234567892", vec![entry("https://a.example/x", t0)]);
    assert_eq!(registered[0].id, 1);
    match store.lookup("gs1:(01)06901234567892", t0) {
        Lookup::Resolved(v) => assert_eq!(v.len(), 1),
        other => panic!("{other:?}"),
    }
    // before as-of: known but empty
    assert_eq!(
        store.lookup("gs1:(01)06901234567892", ts("2025-12-31T23:59:59Z")),
        Lookup::KnownEmpty
    );
    assert_eq!(store.lookup("gs1:(01)99999999999999", t0), Lookup::Absent);
}

#[test]
fn revocation_and_as_of() {
    let mut store = fresh();
    let t0 = ts("2026-01-01T00:00:00Z");
    let t1 = ts("2026-06-01T00:00:00Z");
    store.register("gs1:(01)06901234567892", vec![entry("https://a.example/x", t0)]);
    store.revoke("gs1:(01)06901234567892", 1, t1, "superseded");
    assert!(matches!(store.lookup("gs1:(01)06901234567892", t1), Lookup::KnownEmpty));
    // a historical query before the revocation still resolves
    assert!(matches!(
        store.lookup("gs1:(01)06901234567892", ts("2026-03-01T00:00:00Z")),
        Lookup::Resolved(_)
    ));
}

#[test]
fn dark_intervals() {
    let mut store = fresh();
    let t0 = ts("2026-01-01T00:00:00Z");
    let id = "iso-15459:urn:iso:std:iso-iec:15459:unidpp:inst:1";
    store.register(id, vec![entry("https://a.example/x", t0)]);
    store.record(Op::SetDark {
        identifier: "iso-15459:urn:iso:std:iso-iec:15459:unidpp:inst:1".into(),
        effective_at: ts("2026-02-01T00:00:00Z"),
    });
    assert_eq!(store.lookup(id, ts("2026-03-01T00:00:00Z")), Lookup::Dark);
    // dark hides even historical queries, before the darkening
    assert_eq!(store.lookup(id, ts("2026-01-15T00:00:00Z")), Lookup::Dark);
    store.record(Op::ClearDark {
        identifier: "iso-15459:urn:iso:std:iso-iec:15459:unidpp:inst:1".into(),
        effective_at: ts("2026-04-01T00:00:00Z"),
    });
    assert!(matches!(store.lookup(id, ts("2026-05-01T00:00:00Z")), Lookup::Resolved(_)));
}

#[test]
fn expiry_bounds() {
    let mut store = fresh();
    let mut e = entry("https://a.example/x", ts("2026-01-01T00:00:00Z"));
    e.expiry = Some(ts("2026-02-01T00:00:00Z"));
    store.register("gs1:(01)06901234567892", vec![e]);
    assert!(matches!(
        store.lookup("gs1:(01)06901234567892", ts("2026-01-15T00:00:00Z")),
        Lookup::Resolved(_)
    ));
    assert_eq!(
        store.lookup("gs1:(01)06901234567892", ts("2026-02-02T00:00:00Z")),
        Lookup::KnownEmpty
    );
}

#[test]
fn journal_round_trip() {
    let t0 = ts("2026-01-01T00:00:00Z");
    let mut journal: Vec<String> = Vec::new();
    {
        let mut store = fresh();
        store.register("gs1:(01)06901234567892", vec![entry("https://a.example/x", t0)]);
        store.revoke("gs1:(01)06901234567892", 1, t0, "test");
        store.record(Op::SetDark {
            identifier: "gs1:(01)4006381333931".into(),
            effective_at: t0,
        });
        journal.extend(store.journal_from(0));
    }
    let (store, said) = Store::open(&journal, ts("2026-06-01T00:00:00Z"));
    assert!(said.is_empty());
    assert_eq!(store.log_len(), 3);
    assert_eq!(
        store.lookup("gs1:(01)4006381333931", ts("2026-06-01T00:00:00Z")),
        Lookup::Dark
    );
}

#[test]
fn admin_json_round_trip() {
    let v = json(
        r#"{"linkType":"dpp","href":"https://dpp.example.org/eu/1",
            "profile":"urn:unidpp:profile:eu-espr-electronics","role":"consumer",
            "language":["en","fr"],"region":"EU",
            "asOf":"2026-01-01T00:00:00Z","expiry":"2027-01-01T00:00:00Z"}"#,
    );
    let e = LinkEntry::from_admin_json(&v).unwrap();
    assert_eq!(e.languages, vec!["en".to_string(), "fr".to_string()]);
    assert_eq!(e.profile.as_deref(), Some("urn:unidpp:profile:eu-espr-electronics"));
    let e2 = LinkEntry::from_admin_json(&e.to_json()).unwrap();
    assert_eq!(e, e2);
    // a wildcard is absence
    let w = json(
        r#"{"linkType":"dpp","href":"https://x/","profile":"*","asOf":"2026-01-01T00:00:00Z"}"#,
    );
    let e3 = LinkEntry::from_admin_json(&w).unwrap();
    assert_eq!(e3.profile, None);
    // bad targets and inverted validity are rejected
    assert!(
        LinkEntry::from_admin_json(&json(r#"{"linkType":"dpp","href":"not a uri"}"#)).is_err()
    );
    assert!(LinkEntry::from_admin_json(&json(
        r#"{"linkType":"dpp","href":"https://x/","asOf":"2027-01-01T00:00:00Z","expiry":"2026-01-01T00:00:00Z"}"#
    ))
    .is_err());
}

#[test]
fn bad_entries_are_complained_of_exactly() {
    let now = ts("2026-01-01T00:00:00Z");
    let said = |text: &str| LinkEntry::from_admin_json_at(&json(text), now).unwrap_err();
    assert_eq!(said("[]"), "link entry must be an object");
    assert_eq!(said(r#"{"href":"https://x/"}"#), "`linkType` is required (non-empty, not \"*\")");
    assert_eq!(said(r#"{"linkType":"*"}"#), "`linkType` is required (non-empty, not \"*\")");
    assert_eq!(said(r#"{"linkType":5}"#), "`linkType` must be a string");
    assert_eq!(said(r#"{"linkType":"dpp"}"#), "`href` is required");
    assert_eq!(
        said(r#"{"linkType":"dpp","href":"https://x y"}"#),
        "`href` must be an absolute http(s)/urn URI: `https://x y`"
    );
    assert_eq!(
        said(r#"{"linkType":"dpp","href":"urn:x","language":[1]}"#),
        "`language` array items must be strings"
    );
    assert_eq!(
        said(r#"{"linkType":"dpp","href":"urn:x","language":1}"#),
        "`language` must be a string or array of strings"
    );
    assert_eq!(
        said(r#"{"linkType":"dpp","href":"urn:x","asOf":1}"#),
        "`asOf` must be an RFC 3339 string"
    );
    assert_eq!(
        said(r#"{"linkType":"dpp","href":"urn:x","asOf":"soon"}"#),
        "invalid RFC 3339 UTC timestamp `soon`"
    );
    assert_eq!(
        said(r#"{"linkType":"dpp","href":"urn:x","expiry":true}"#),
        "`expiry` must be an RFC 3339 string"
    );
    assert_eq!(
        said(r#"{"linkType":"dpp","href":"urn:x","asOf":"2026-01-02T00:00:00Z","expiry":"2026-01-01T00:00:00Z"}"#),
        "`expiry` 2026-01-01T00:00:00Z before `asOf` 2026-01-02T00:00:00Z"
    );
    assert_eq!(
        said(r#"{"linkType":"dpp","href":"urn:x","region":[]}"#),
        "`region` must be a string"
    );
}

#[test]
fn entries_without_as_of_are_valid_from_the_time_of_reading() {
    let now = ts("2026-05-05T05:05:05Z");
    let e = LinkEntry::from_admin_json_at(
        &json(r#"{"id":9,"linkType":"dpp","href":"urn:x","language":"fr","title":""}"#),
        now,
    )
    .unwrap();
    assert_eq!(e.id, 0);
    assert_eq!(e.as_of, now);
    assert_eq!(e.languages, vec!["fr".to_string()]);
    assert_eq!(e.title, None);
    assert!(e.valid_at(now));
    assert!(!e.valid_at(ts("2026-05-05T05:05:04Z")));
}

#[test]
fn a_journal_brings_ids_and_state_back() {
    let t0 = ts("2026-01-01T00:00:00Z");
    let t1 = ts("2026-02-01T00:00:00Z");
    let mut store = fresh();
    let id = "gs1:(01)06901234567892";
    store.register_at(
        id,
        vec![entry("https://a.example/1", t0), entry("https://a.example/2", t0)],
        t0,
    );
    store.revoke_at(id, 2, t1, "withdrawn", t1);
    store.supersede(id, "gs1:(01)04006381333931", t1, "authority", "merged", t1);
    store.correlate(id, "iso-15459:urn:x", "me", "paper", "mutual", t1);
    let journal = store.journal_from(0);
    assert_eq!(journal.len(), 5);
    assert!(journal.iter().all(|l| !l.contains('\n')));

    let (again, said) = Store::open(&journal, t1);
    assert!(said.is_empty());
    assert_eq!(again.journal_from(0), journal);
    assert_eq!(again.lookup(id, t1), store.lookup(id, t1));
    match again.lookup(id, t1) {
        Lookup::Resolved(v) => {
            assert_eq!(v.len(), 1);
            assert_eq!(v[0].id, 1);
        }
        other => panic!("{other:?}"),
    }
    assert_eq!(
        again.supersession_at(id, t1).unwrap().successor,
        "gs1:(01)04006381333931"
    );
    assert!(again.supersession_at(id, t0).is_none());
    assert_eq!(again.correlations_at("iso-15459:urn:x", t1)[0].other, id);
    assert!(again.correlations_at(id, t0).is_empty());
    // numbering goes on behind what was replayed
    let mut again = again;
    let more = again.register_at(id, vec![entry("https://a.example/3", t1)], t1);
    assert_eq!(more[0].id, 3);
}

#[test]
fn broken_journal_lines_are_named_and_passed_over() {
    let t0 = ts("2026-01-01T00:00:00Z");
    let mut store = fresh();
    store.register_at("k", vec![entry("https://a.example/1", t0)], t0);
    let mut journal = store.journal_from(0);
    journal.push("   ".to_string());
    journal.push(r#"{"seq":2}"#.to_string());
    journal.push("{\"seq\":3,\"recor".to_string());
    journal.push("7".to_string());
    let (again, said) = Store::open(&journal, t0);
    assert_eq!(again.log_len(), 1);
    assert_eq!(said.len(), 3);
    assert_eq!(said[0], "journal line 3: missing/invalid `recordedAt`");
    assert!(said[1].starts_with("journal line 4: EOF while parsing"), "{}", said[1]);
    assert_eq!(said[2], "journal line 5: log record must be an object");
}

#[test]
fn records_are_complained_of_exactly() {
    let now = ts("2026-01-01T00:00:00Z");
    let said = |rest: &str| {
        let text = format!(r#"{{"seq":1,"recordedAt":"2026-01-01T00:00:00Z"{rest}}}"#);
        LogRecord::from_json_at(&json(&text), now).unwrap_err()
    };
    assert_eq!(LogRecord::from_json(&json("{}")).unwrap_err(), "missing `seq`");
    assert_eq!(said(""), "unknown `op`");
    assert_eq!(said(r#","op":"other""#), "unknown `op`");
    assert_eq!(said(r#","op":"register-entry""#), "missing `identifier`");
    assert_eq!(said(r#","op":"register-entry","identifier":"k""#), "missing `entry`");
    assert_eq!(
        said(r#","op":"register-entry","identifier":"k","entry":{}"#),
        "`linkType` is required (non-empty, not \"*\")"
    );
    assert_eq!(said(r#","op":"revoke-entry","identifier":"k""#), "missing `entryId`");
    assert_eq!(
        said(r#","op":"revoke-entry","identifier":"k","entryId":1"#),
        "missing/invalid `effectiveAt`"
    );
    assert_eq!(
        said(r#","op":"set-dark","identifier":"k","effectiveAt":"x""#),
        "missing/invalid `effectiveAt`"
    );
    assert_eq!(said(r#","op":"clear-dark""#), "missing `identifier`");
    assert_eq!(said(r#","op":"supersede","identifier":"k""#), "missing `successor`");
    assert_eq!(said(r#","op":"correlate","identifierA":"k""#), "missing `identifierB`");
}

#[test]
fn every_operation_reads_back() {
    let t = ts("2026-01-01T00:00:00Z");
    let mut e = entry("https://a.example/1", t);
    e.id = 7;
    e.title = Some("T".to_string());
    e.expiry = Some(ts("2027-01-01T00:00:00Z"));
    let ops = vec![
        Op::RegisterEntry { identifier: "k".into(), entry: e },
        Op::RevokeEntry {
            identifier: "k".into(),
            entry_id: 7,
            effective_at: t,
            reason: "r\n\"quoted\"".into(),
        },
        Op::SetDark { identifier: "k".into(), effective_at: t },
        Op::ClearDark { identifier: "k".into(), effective_at: t },
        Op::Supersede {
            identifier: "k".into(),
            successor: "s".into(),
            effective_at: t,
            authority: "a".into(),
            reason: "".into(),
        },
        Op::Correlate {
            identifier_a: "k".into(),
            identifier_b: "l".into(),
            assertor: "a".into(),
            evidence: "\u{e9}".into(),
            direction: "from-b".into(),
        },
    ];
    for (i, op) in ops.into_iter().enumerate() {
        let rec = LogRecord { seq: i as u64 + 1, recorded_at: t, op };
        let line = rec.to_line();
        let again = LogRecord::from_json_at(&json(&line), ts("2030-01-01T00:00:00Z")).unwrap();
        assert_eq!(again, rec);
        assert!(!line.contains('\n'));
    }
}

#[test]
fn only_one_dark_interval_is_open_at_a_time() {
    let mut store = fresh();
    let id = "k".to_string();
    for at in ["2026-02-01T00:00:00Z", "2026-03-01T00:00:00Z"] {
        store.record_at(
            Op::SetDark { identifier: id.clone(), effective_at: ts(at) },
            ts(at),
        );
    }
    let view = store.admin_view("k").unwrap();
    let intervals = match view.get("darkIntervals") {
        Some(Json::Array(v)) => v.len(),
        other => panic!("{other:?}"),
    };
    assert_eq!(intervals, 1);
    store.record_at(
        Op::ClearDark { identifier: id, effective_at: ts("2026-04-01T00:00:00Z") },
        ts("2026-04-01T00:00:00Z"),
    );
    assert_eq!(store.lookup("k", ts("2026-03-31T23:59:59Z")), Lookup::Dark);
    assert_eq!(store.lookup("k", ts("2026-04-01T00:00:00Z")), Lookup::KnownEmpty);
    let span = DarkInterval {
        from: ts("2026-02-01T00:00:00Z"),
        to: Some(ts("2026-04-01T00:00:00Z")),
    };
    assert!(span.contains(ts("2026-02-01T00:00:00Z")));
    assert!(!span.contains(ts("2026-04-01T00:00:00Z")));
}

#[test]
fn the_history_only_grows_and_is_numbered() {
    let t = ts("2026-01-01T00:00:00Z");
    let mut store = fresh();
    let mut seen: Vec<String> = Vec::new();
    for i in 0..4u64 {
        if i % 2 == 0 {
            store.register_at("k", vec![entry("https://a.example/x", t)], t);
        } else {
            store.revoke_at("k", i, t, "r", t);
        }
        let now = store.journal_from(0);
        assert_eq!(now[..seen.len()], seen[..]);
        assert_eq!(now.len(), seen.len() + 1);
        seen = now;
    }
    for (i, line) in seen.iter().enumerate() {
        assert_eq!(json(line).u64_field("seq"), Some(i as u64 + 1));
    }
}

#[test]
fn pages_of_the_history_are_cut_to_size() {
    let t = ts("2026-01-01T00:00:00Z");
    let mut store = fresh();
    for _ in 0..5 {
        store.register_at("k", vec![entry("https://a.example/x", t)], t);
    }
    let seqs = |limit: usize, offset: usize| -> Vec<u64> {
        match store.log_json(limit, offset).get("records") {
            Some(Json::Array(v)) => v.iter().map(|r| r.u64_field("seq").unwrap()).collect(),
            other => panic!("{other:?}"),
        }
    };
    assert_eq!(seqs(2, 1), vec![2, 3]);
    assert_eq!(seqs(100, 3), vec![4, 5]);
    assert_eq!(seqs(usize::MAX, 4), vec![5]);
    assert!(seqs(3, 5).is_empty());
    assert!(seqs(0, 0).is_empty());
    assert_eq!(store.log_json(1, 9).u64_field("total"), Some(5));
    assert_eq!(store.log_json(1, 9).u64_field("offset"), Some(9));
}

#[test]
fn cached_answers_are_kept_by_key() {
    let t = ts("2026-01-01T00:00:00Z");
    let mut store = fresh();
    assert!(store.cache_get("k").is_none());
    store.cache_put("k", CacheEntry { fetched_at: t, entries: vec![entry("urn:1", t)] });
    store.cache_put("l", CacheEntry { fetched_at: t, entries: vec![] });
    store.cache_put(
        "k",
        CacheEntry { fetched_at: ts("2026-01-02T00:00:00Z"), entries: vec![entry("urn:2", t)] },
    );
    assert_eq!(store.cache_get("k").unwrap().entries[0].href, "urn:2");
    assert!(store.cache_get("l").unwrap().entries.is_empty());
    assert_eq!(store.log_len(), 0);
}

#[test]
fn revocations_are_annotated_for_administrators() {
    let t = ts("2026-01-01T00:00:00Z");
    let mut store = fresh();
    store.register_at("k", vec![entry("urn:1", t), entry("urn:2", t)], t);
    store.revoke_at("k", 2, t, "bad link", t);
    let view = store.admin_view("k").unwrap();
    assert_eq!(view.str_field("identifier"), Some("k"));
    assert_eq!(view.u64_field("recordCount"), Some(3));
    let entries = match view.get("entries") {
        Some(Json::Array(v)) => v,
        other => panic!("{other:?}"),
    };
    assert!(entries[0].get("revoked").is_none());
    let note = entries[1].get("revoked").unwrap();
    assert_eq!(note.str_field("reason"), Some("bad link"));
    assert_eq!(note.str_field("effectiveAt"), Some("2026-01-01T00:00:00Z"));
    assert!(store.admin_view("unknown").is_none());
    assert!(store.has_entry("k", 2) && !store.has_entry("k", 3) && !store.has_entry("l", 1));
    assert!(store.knows("k") && !store.knows("l"));
}
