use unidpp_resolver::json::{parse_json, print_compact, print_pretty, put, put_text, text_array, Json};
use unidpp_resolver::linkset::{
    emit_document, emit_document_full, entries_from_document, entry_from_link_object, link_object,
    parse_document,
};
use unidpp_resolver::store::{Correlation, LinkEntry, Supersession};
use unidpp_resolver::text::{read_signed_number, read_whole_number};
use unidpp_resolver::Timestamp;

const FIXTURE: &str = r#"{
  "linkset": [
    {
      "anchor": "urn:iso:std:iso-iec:15459:unidpp:inst:84120099012345",
      "uri": "https://dpp.unidpp.org/eu/84120099012345",
      "rel": "dpp",
      "hreflang": ["en", "fr"],
      "type": "application/json",
      "unidpp:profile": "urn:unidpp:profile:eu-espr-electronics",
      "unidpp:role": "consumer",
      "unidpp:region": "EU"
    },
    {
      "anchor": "urn:iso:std:iso-iec:15459:unidpp:inst:84120099012345",
      "uri": "https://dpp-jp.meti.example.go.jp/passport/84120099012345",
      "rel": "dpp",
      "hreflang": ["ja"],
      "unidpp:profile": "urn:unidpp:profile:jp-meti-pse",
      "unidpp:role": "consumer",
      "unidpp:region": "JP"
    },
    {
      "anchor": "urn:iso:std:iso-iec:15459:unidpp:inst:84120099012345",
      "uri": "https://dpp.unidpp.org/generic/84120099012345",
      "rel": "dpp",
      "hreflang": ["*"],
      "unidpp:profile": "*",
      "unidpp:role": "*",
      "unidpp:region": "*"
    },
    {
      "anchor": "urn:iso:std:iso-iec:15459:unidpp:inst:84120099012345",
      "uri": "https://dpp.unidpp.org/recycler/84120099012345",
      "rel": "dpp",
      "hreflang": ["en"],
      "unidpp:profile": "*",
      "unidpp:role": "recycler",
      "unidpp:region": "*"
    }
  ]
}"#;

const T0: Timestamp = Timestamp { secs: 1_800_000_000 };

fn texts(items: &[&str]) -> Json {
    Json::Array(items.iter().map(|s| Json::text(s)).collect())
}

#[test]
fn fixture_parses_and_round_trips() {
    let links = parse_document(FIXTURE).unwrap();
    assert_eq!(links.len(), 4);
    let t0 = Timestamp::unix_epoch();
    let entries: Vec<LinkEntry> =
        links.iter().map(|l| entry_from_link_object(l, t0).unwrap()).collect();
    // From entries to the wire the fixture's shapes are kept.
    let refs: Vec<&LinkEntry> = entries.iter().collect();
    let doc = emit_document("urn:iso:std:iso-iec:15459:unidpp:inst:84120099012345", &refs);
    let round = parse_document(&doc).unwrap();
    assert_eq!(round.len(), 4);
    for (given, rt) in links.iter().zip(round.iter()) {
        for k in [
            "anchor",
            "uri",
            "rel",
            "hreflang",
            "unidpp:profile",
            "unidpp:role",
            "unidpp:region",
        ] {
            assert_eq!(given.get(k), rt.get(k), "field {k}");
        }
        assert!(rt.get("unidpp:as-of").unwrap().as_str().is_some());
    }
    // multi-language lists survive
    assert_eq!(round[0].get("hreflang").unwrap(), &texts(&["en", "fr"]));
    // the default applies where there is no as-of
    let default = entry_from_link_object(&links[0], T0).unwrap();
    assert_eq!(default.as_of, T0);
}

#[test]
fn accepts_single_link_and_bare_array() {
    let single = r#"{"anchor":"a","uri":"https://x/","rel":"dpp"}"#;
    assert_eq!(parse_document(single).unwrap().len(), 1);
    let arr = r#"[{"anchor":"a","uri":"https://x/","rel":"dpp"}]"#;
    assert_eq!(parse_document(arr).unwrap().len(), 1);
}

#[test]
fn rejects_malformed_documents() {
    assert!(parse_document("{").is_err());
    assert!(parse_document(r#"{"linkset":[{"uri":"x","rel":"dpp"}]}"#).is_err());
    assert!(parse_document(r#"{"linkset":"nope"}"#).is_err());
    assert!(parse_document("42").is_err());
}

#[test]
fn malformed_documents_are_complained_of_exactly() {
    let said = |text: &str| parse_document(text).unwrap_err();
    assert!(said("{").starts_with("invalid linkset JSON: EOF while parsing"));
    assert_eq!(said(r#"{"linkset":"nope"}"#), "`linkset` must be an array");
    assert_eq!(said("42"), "linkset document must be an object or array");
    assert_eq!(said("[1]"), "linkset entry must be an object");
    assert_eq!(said(r#"[{"uri":"x","rel":"dpp"}]"#), "link requires string `anchor`");
    assert_eq!(said(r#"[{"anchor":"x","rel":"dpp"}]"#), "link requires string `uri`");
    assert_eq!(said(r#"[{"anchor":"x","uri":"y","rel":1}]"#), "link requires string `rel`");
    assert!(parse_document("[]").unwrap().is_empty());
}

#[test]
fn malformed_links_are_complained_of_exactly() {
    let said =
        |text: &str| entry_from_link_object(&parse_json(text).unwrap(), T0).unwrap_err();
    assert_eq!(said("[]"), "link must be an object");
    assert_eq!(said("{}"), "link requires string `uri`");
    assert_eq!(said(r#"{"uri":"x"}"#), "link requires string `rel`");
    assert_eq!(
        said(r#"{"uri":"x","rel":"y","hreflang":[1]}"#),
        "`hreflang` array items must be strings"
    );
    assert_eq!(
        said(r#"{"uri":"x","rel":"y","hreflang":7}"#),
        "`hreflang` must be a string or array of strings"
    );
    assert_eq!(
        said(r#"{"uri":"x","rel":"y","unidpp:as-of":"soon"}"#),
        "invalid RFC 3339 UTC timestamp `soon`"
    );
    assert_eq!(
        said(r#"{"uri":"x","rel":"y","unidpp:as-of":"2026-01-02T00:00:00Z","unidpp:expiry":"2026-01-01T00:00:00Z"}"#),
        "`unidpp:expiry` 2026-01-01T00:00:00Z before `unidpp:as-of` 2026-01-02T00:00:00Z"
    );
    assert_eq!(said(r#"{"uri":"x","rel":"y","title":1}"#), "`title` must be a string");
}

fn full_entry() -> LinkEntry {
    LinkEntry {
        id: 3,
        link_type: "dpp".into(),
        href: "https://a.example/\u{e9}".into(),
        title: Some("A \"title\"".into()),
        media_type: Some("text/html".into()),
        profile: Some("urn:p".into()),
        role: None,
        languages: vec!["fr".into(), "de".into()],
        region: Some("EU".into()),
        as_of: T0,
        expiry: Some(Timestamp { secs: T0.secs + 5 }),
    }
}

#[test]
fn links_and_documents_read_back() {
    let e = full_entry();
    let mut back = entry_from_link_object(&link_object("anchor", &e), Timestamp::unix_epoch())
        .unwrap();
    assert_eq!(back.id, 0);
    back.id = 3;
    assert_eq!(back, e);

    let s = Supersession {
        successor: "gs1:(01)04006381333931".into(),
        effective_at: T0,
        authority: "a".into(),
        reason: "r".into(),
    };
    let c = Correlation {
        other: "k".into(),
        assertor: "me".into(),
        evidence: "e".into(),
        direction: "mutual".into(),
        recorded_at: T0,
    };
    let text = emit_document_full("anchor", &[&e, &e], Some(&s), &[c]);
    let read = entries_from_document(&text, Timestamp::unix_epoch()).unwrap();
    assert_eq!(read.len(), 2);
    assert_eq!(read[1].title, e.title);
    let doc = parse_json(&text).unwrap();
    assert_eq!(doc.str_field("unidpp:superseded-by"), Some("gs1:(01)04006381333931"));
    assert_eq!(doc.str_field("unidpp:superseded-by-authority"), Some("a"));
    assert_eq!(doc.str_field("unidpp:supersession-reason"), Some("r"));
    match doc.get("unidpp:correlated-with") {
        Some(Json::Array(v)) => assert_eq!(v[0].str_field("identifier"), Some("k")),
        other => panic!("{other:?}"),
    }
}

#[test]
fn documents_are_printed_over_lines_with_sorted_keys() {
    let mut e = full_entry();
    e.title = None;
    e.media_type = None;
    e.languages = Vec::new();
    e.expiry = None;
    e.href = "https://x/".into();
    let text = emit_document("a", &[&e]);
    assert_eq!(
        text,
        "{\n  \"linkset\": [\n    {\n      \"anchor\": \"a\",\n      \"hreflang\": [\n        \"*\"\n      ],\n      \"rel\": \"dpp\",\n      \"unidpp:as-of\": \"2027-01-15T08:00:00Z\",\n      \"unidpp:profile\": \"urn:p\",\n      \"unidpp:region\": \"EU\",\n      \"unidpp:role\": \"*\",\n      \"uri\": \"https://x/\"\n    }\n  ]\n}"
    );
    assert_eq!(emit_document("a", &[]), "{\n  \"linkset\": []\n}");
}

#[test]
fn json_text_becomes_values_and_back() {
    let text = r#"{"a":[null,true,18446744073709551615,-7,1.5,"é\n"],"b":{},"a":[1]}"#;
    let v = parse_json(text).unwrap();
    // of two fields with one key the later counts
    assert_eq!(v.get("a"), Some(&Json::Array(vec![Json::Number(1)])));
    let items = parse_json(r#"[null,true,18446744073709551615,-7,1.5,"é\n"]"#).unwrap();
    match &items {
        Json::Array(l) => {
            assert_eq!(l[0], Json::Null);
            assert_eq!(l[1], Json::Bool(true));
            assert_eq!(l[2], Json::Number(u64::MAX));
            assert_eq!(l[3], Json::Negative(-7));
            assert_eq!(l[4], Json::Decimal("1.5".into()));
            assert_eq!(l[5], Json::Str("\u{e9}\n".into()));
        }
        other => panic!("{other:?}"),
    }
    let mut f: Vec<(String, Json)> = Vec::new();
    put_text(&mut f, "k", "v");
    put(&mut f, "n", Json::Negative(-7));
    put(&mut f, "l", text_array(&vec!["x\ny".to_string()]));
    put_text(&mut f, "k", "w");
    let j = Json::Object(f);
    assert_eq!(print_compact(&j), r#"{"k":"w","l":["x\ny"],"n":-7}"#);
    assert_eq!(
        print_pretty(&j),
        "{\n  \"k\": \"w\",\n  \"l\": [\n    \"x\\ny\"\n  ],\n  \"n\": -7\n}"
    );
    assert_eq!(j.str_field("k"), Some("w"));
    assert_eq!(parse_json(&print_compact(&j)).unwrap().str_field("k"), Some("w"));
    let copy = j.clone();
    assert_eq!(copy, j);
    assert_eq!(
        parse_json("{\"a\"").unwrap_err(),
        "EOF while parsing an object at line 1 column 4"
    );
    assert_eq!(Json::Null.get("a"), None);
    assert_eq!(Json::Null.u64_field("a"), None);
}

#[test]
fn timestamps_read_and_write() {
    for (text, secs) in [
        ("1970-01-01T00:00:00Z", 0),
        ("2026-01-01T00:00:00Z", 1767225600),
        ("2024-02-29T23:59:59Z", 1709251199),
        ("0000-01-01T00:00:00Z", -62167219200),
        ("9999-12-31T23:59:59Z", 253402300799),
    ] {
        assert_eq!(Timestamp::parse(text).unwrap().secs, secs, "{text}");
        assert_eq!(Timestamp { secs }.to_string(), text);
    }
    for bad in [
        "2026-02-29T00:00:00Z",
        "2026-13-01T00:00:00Z",
        "2026-00-01T00:00:00Z",
        "2026-01-01T24:00:00Z",
        "2026-01-01T00:60:00Z",
        "2026-01-01T00:00:60Z",
        "2026-01-01 00:00:00Z",
        "2026-01-01T00:00:00+00:00",
        "2026-01-01T00:00:00",
        "",
    ] {
        assert_eq!(
            Timestamp::parse(bad).unwrap_err(),
            format!("invalid RFC 3339 UTC timestamp `{bad}`")
        );
    }
    assert!(Timestamp::now().secs > 1_700_000_000);
    assert_eq!(Timestamp::from_clock(Some(7)).secs, 7);
    assert_eq!(Timestamp::from_clock(Some(u64::MAX)).secs, i64::MAX);
    assert_eq!(Timestamp::from_clock(None), Timestamp::unix_epoch());
}

#[test]
fn numbers_are_read_within_their_bounds() {
    assert_eq!(read_whole_number("+0042", 100), Some(42));
    assert_eq!(read_whole_number("101", 100), None);
    assert_eq!(read_whole_number("-1", 100), None);
    assert_eq!(read_whole_number("+", 100), None);
    assert_eq!(read_whole_number("18446744073709551615", u64::MAX), Some(u64::MAX));
    assert_eq!(read_whole_number("18446744073709551616", u64::MAX), None);
    assert_eq!(read_signed_number("-9223372036854775808"), Some(i64::MIN));
    assert_eq!(read_signed_number("-9223372036854775809"), None);
    assert_eq!(read_signed_number("9223372036854775807"), Some(i64::MAX));
    assert_eq!(read_signed_number("9223372036854775808"), None);
    assert_eq!(read_signed_number("+-1"), None);
    assert_eq!(read_signed_number(""), None);
}

#[test]
fn json_nests_to_the_limit_of_the_reader() {
    let nested = |n: usize| {
        let mut j = Json::Array(Vec::new());
        for _ in 1..n {
            j = Json::Array(vec![j]);
        }
        j
    };
    let deep = nested(127);
    for text in [print_compact(&deep), print_pretty(&deep)] {
        assert_eq!(parse_json(&text).unwrap(), deep);
    }
    let text = format!("{}{}", "[".repeat(128), "]".repeat(128));
    assert!(parse_json(&text).unwrap_err().starts_with("recursion limit exceeded"));
}

#[test]
fn every_character_survives_printing() {
    let mut s: String = (0u32..0x2100).filter_map(char::from_u32).collect();
    s.push('\u{10ffff}');
    let mut f: Vec<(String, Json)> = Vec::new();
    put_text(&mut f, &s, &s);
    let j = Json::Object(f);
    let line = print_compact(&j);
    assert!(!line.contains('\n') && line.starts_with('{'));
    assert_eq!(parse_json(&line).unwrap(), j);
    assert_eq!(parse_json(&print_pretty(&j)).unwrap(), j);
}
