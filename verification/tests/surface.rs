//! The resolver's surface from request to reply: routing, time, dark
//! identities, carriers, the intermediary mode and administration.

use serde_json::Value;
use unidpp_resolver::admin::{
    admin_correlate, admin_dark, admin_identifier, admin_log, admin_register, admin_replace,
    admin_revoke, admin_supersede,
};
use unidpp_resolver::api::{healthz, normalize, path_entry, resolve_query, Resolution};
use unidpp_resolver::discovery::discovery_reply;
use unidpp_resolver::gs1dl::percent_decode;
use unidpp_resolver::linkset::entry_from_link_object;
use unidpp_resolver::linkset::parse_document;
use unidpp_resolver::proxy::{
    encode_query_component, judge_answer, judge_bytes, plan, read_answer, settle, FetchOutcome,
    Plan,
};
use unidpp_resolver::store::LinkEntry;
use unidpp_resolver::{Config, Reply, Store, Timestamp};

const EU_PROFILE: &str = "urn:unidpp:profile:eu-espr-electronics";
const JP_PROFILE: &str = "urn:unidpp:profile:jp-meti-pse";
const EAN_ID: &str = "gs1:(01)06901234567892";
const ISO_ID: &str = "iso-15459:urn:iso:std:iso-iec:15459:unidpp:inst:84120099012345";
const AS_OF: &str = "2026-01-01T00:00:00Z";
const BASE: &str = "http://upstream.test";

fn ts(s: &str) -> Timestamp {
    Timestamp::parse(s).unwrap()
}

/// A resolver with a clock that stands where it is put.
struct Server {
    store: Store,
    config: Config,
    now: Timestamp,
}

fn spawn() -> Server {
    with_config(Config::default())
}

fn with_config(config: Config) -> Server {
    Server { store: Store::new(), config, now: ts("2026-09-01T12:00:00Z") }
}

fn percent_decode_plus(s: &str) -> Option<String> {
    percent_decode(&s.replace('+', " "))
}

fn params_of(query: &str) -> Vec<(String, String)> {
    query
        .split('&')
        .filter(|p| !p.is_empty())
        .map(|p| {
            let (k, v) = p.split_once('=').unwrap_or((p, ""));
            (percent_decode_plus(k).unwrap(), percent_decode_plus(v).unwrap())
        })
        .collect()
}

impl Server {
    fn get_with(&mut self, target: &str, accept: Option<&str>, up: Option<&mut Server>) -> Reply {
        let (path, query) = target.split_once('?').unwrap_or((target, ""));
        let params = params_of(query);
        let has_upstream = self.config.upstream.is_some();
        let done = match path {
            "/" | "/.well-known/unidpp-resolver" => {
                return discovery_reply(&self.config, "0.1.0", "dev")
            }
            "/healthz" => return healthz(),
            "/admin/log" => {
                return admin_log(&self.store, &self.config.admin_token, None, &params)
            }
            "/resolve" => resolve_query(&self.store, has_upstream, &params, accept, self.now),
            _ => match path.strip_prefix("/admin/identifiers/") {
                Some(id) => {
                    let id = percent_decode_plus(id).unwrap();
                    return admin_identifier(&self.store, &self.config.admin_token, None, &id);
                }
                None => path_entry(&self.store, has_upstream, path, &params, accept, self.now),
            },
        };
        match done {
            Resolution::Done(reply) => reply,
            Resolution::AskUpstream(req) => {
                let base = self.config.upstream.clone().unwrap();
                match plan(&self.store, &base, self.config.cache_ttl_secs, &req, self.now) {
                    Plan::Serve(reply) => reply,
                    Plan::Fetch { url, stale } => {
                        let outcome = match up {
                            Some(server) => {
                                let rest = url.strip_prefix(BASE).unwrap();
                                let answer = server.get_with(rest, None, None);
                                judge_answer(answer.status, &answer.body, self.now)
                            }
                            None => FetchOutcome::Error("connection refused".to_string()),
                        };
                        settle(&mut self.store, &req, stale, self.now, outcome)
                    }
                }
            }
        }
    }

    fn get(&mut self, target: &str) -> Reply {
        self.get_with(target, None, None)
    }

    fn send(&mut self, method: &str, path: &str, body: &str, token: Option<&str>) -> Reply {
        let header = token.map(|t| format!("Bearer {t}"));
        let auth = header.as_deref();
        let guard = self.config.admin_token.clone();
        let now = self.now;
        let store = &mut self.store;
        let reply = match (method, path) {
            ("POST", "/admin/linksets") => admin_register(store, &guard, auth, body, now),
            ("PUT", "/admin/linksets") => admin_replace(store, &guard, auth, body, now),
            ("POST", "/admin/revocations") => admin_revoke(store, &guard, auth, body, now),
            ("POST", "/admin/dark") => admin_dark(store, &guard, auth, body, now),
            ("POST", "/admin/correlations") => admin_correlate(store, &guard, auth, body, now),
            ("POST", "/admin/supersessions") => admin_supersede(store, &guard, auth, body, now),
            ("POST", "/normalize") => Some(normalize(body)),
            other => panic!("{other:?}"),
        };
        reply.unwrap()
    }

    fn register(&mut self, identifier: &str, links: &str) -> Reply {
        let body = format!(r#"{{"identifier":"{identifier}","links":{links}}}"#);
        self.send("POST", "/admin/linksets", &body, None)
    }
}

fn enc(s: &str) -> String {
    encode_query_component(s)
}

fn json_of(reply: &Reply) -> Value {
    serde_json::from_str(&reply.body).expect("reply JSON")
}

fn links_of(reply: &Reply) -> Vec<Value> {
    match &json_of(reply)["linkset"] {
        Value::Array(v) => v.clone(),
        other => panic!("{other:?}"),
    }
}

fn four_links() -> String {
    format!(
        r#"[
        {{"linkType": "dpp", "href": "https://dpp.unidpp.org/eu/1",
         "profile": "{EU_PROFILE}", "role": "consumer", "language": ["en", "fr"],
         "region": "EU", "asOf": "{AS_OF}", "type": "application/json",
         "title": "EU ESPR passport"}},
        {{"linkType": "dpp", "href": "https://dpp-jp.meti.example.go.jp/passport/1",
         "profile": "{JP_PROFILE}", "role": "consumer", "language": ["ja"],
         "region": "JP", "asOf": "{AS_OF}"}},
        {{"linkType": "dpp", "href": "https://dpp.unidpp.org/generic/1", "asOf": "{AS_OF}"}},
        {{"linkType": "dpp", "href": "https://dpp.unidpp.org/recycler/1",
         "role": "recycler", "language": ["en"], "asOf": "{AS_OF}"}}
    ]"#
    )
}

fn one_link(href: &str) -> String {
    format!(r#"[{{"linkType": "dpp", "href": "{href}", "asOf": "{AS_OF}"}}]"#)
}

#[test]
fn routing_specificity_exact_over_fallback_over_default() {
    let mut server = spawn();
    assert_eq!(server.register(ISO_ID, &four_links()).status, 201);

    // Exact profile, role, language and region: the EU link wins, and the
    // wildcard stays in the reply.
    let resp = server.get(&format!(
        "/resolve?identifier={}&profile={}&role=consumer&lang=fr&region=EU",
        enc(ISO_ID),
        enc(EU_PROFILE)
    ));
    assert_eq!(resp.status, 200);
    let links = links_of(&resp);
    assert_eq!(links[0]["uri"], "https://dpp.unidpp.org/eu/1");
    assert!(links.len() >= 2, "multi-link response keeps wildcard alternates");
    assert_eq!(resp.header("link").unwrap(), "<https://dpp.unidpp.org/eu/1>; rel=\"dpp\"");
    assert_eq!(
        resp.header("x-unidpp-context").unwrap(),
        format!("profile={EU_PROFILE};role=consumer;lang=fr;region=EU")
    );

    // The primary subtag: ja-JP routes to the ja link.
    let resp = server.get(&format!(
        "/resolve?identifier={}&profile={}&role=consumer&lang=ja-JP&region=JP",
        enc(ISO_ID),
        enc(JP_PROFILE)
    ));
    let links = links_of(&resp);
    assert_eq!(links[0]["uri"], "https://dpp-jp.meti.example.go.jp/passport/1");

    // A language mismatch falls back to the wildcard.
    let resp = server.get(&format!(
        "/resolve?identifier={}&profile={}&role=consumer&lang=en&region=JP",
        enc(ISO_ID),
        enc(JP_PROFILE)
    ));
    let links = links_of(&resp);
    assert_eq!(links[0]["uri"], "https://dpp.unidpp.org/generic/1");

    // Role routing without a profile preference.
    let resp = server.get(&format!("/resolve?identifier={}&role=recycler", enc(ISO_ID)));
    let links = links_of(&resp);
    assert_eq!(links[0]["uri"], "https://dpp.unidpp.org/recycler/1");

    // No context at all: all four links in the order of registration, and the
    // default link from the scores.
    let resp = server.get(&format!("/resolve?identifier={}", enc(ISO_ID)));
    let links = links_of(&resp);
    assert_eq!(links.len(), 4);
    let uris: Vec<&str> = links.iter().map(|l| l["uri"].as_str().unwrap()).collect();
    assert_eq!(
        uris,
        vec![
            "https://dpp.unidpp.org/eu/1",
            "https://dpp-jp.meti.example.go.jp/passport/1",
            "https://dpp.unidpp.org/generic/1",
            "https://dpp.unidpp.org/recycler/1"
        ]
    );
    assert_eq!(resp.header("link").unwrap(), "<https://dpp.unidpp.org/eu/1>; rel=\"dpp\"");

    // A link type that nothing serves: an empty document, not a 404.
    let resp =
        server.get(&format!("/resolve?identifier={}&linkType=dss-archive", enc(ISO_ID)));
    assert_eq!(resp.status, 200);
    assert_eq!(links_of(&resp).len(), 0);
}

#[test]
fn as_of_reconstruction_and_replacement_history() {
    let mut server = spawn();
    // v1 is valid from January to June 2026, v2 from June 2026.
    server.register(
        EAN_ID,
        r#"[
            {"linkType": "dpp", "href": "https://dpp.example.org/v1",
             "asOf": "2026-01-01T00:00:00Z", "expiry": "2026-06-01T00:00:00Z"},
            {"linkType": "dpp", "href": "https://dpp.example.org/v2",
             "asOf": "2026-06-01T00:00:00Z"}
        ]"#,
    );
    let at = |when: &str| format!("/resolve?identifier={}&asof={}", enc(EAN_ID), enc(when));
    let resp = server.get(&at("2026-03-01T00:00:00Z"));
    assert_eq!(resp.status, 200);
    assert_eq!(links_of(&resp)[0]["uri"], "https://dpp.example.org/v1");
    assert_eq!(resp.header("x-as-of").unwrap(), "2026-03-01T00:00:00Z");

    let resp = server.get(&at("2026-07-01T00:00:00Z"));
    assert_eq!(links_of(&resp)[0]["uri"], "https://dpp.example.org/v2");

    // Before any entry: the reply that gives no information.
    let resp = server.get(&at("2025-06-01T00:00:00Z"));
    assert_eq!(resp.status, 404);
    assert_eq!(resp.body, "{\"error\":\"not found\"}");

    // Replace: a revocation and a new registration.
    let body = format!(
        r#"{{"identifier":"{EAN_ID}","links":[{{"linkType":"dpp","href":"https://dpp.example.org/v3"}}]}}"#
    );
    let resp = server.send("PUT", "/admin/linksets", &body, None);
    assert_eq!(resp.status, 200);
    let replaced = json_of(&resp);
    assert_eq!(replaced["revoked"].as_array().unwrap().len(), 1);

    // After the replacement v3; before it, and after June, v2.
    let resp = server.get(&at("2030-01-01T00:00:00Z"));
    assert_eq!(links_of(&resp)[0]["uri"], "https://dpp.example.org/v3");
    let resp = server.get(&at("2026-08-01T00:00:00Z"));
    assert_eq!(links_of(&resp)[0]["uri"], "https://dpp.example.org/v2");

    // The administrative view keeps the revoked entry with its annotation.
    let resp = server.get(&format!("/admin/identifiers/{}", enc(EAN_ID)));
    let view = json_of(&resp);
    let entries = view["entries"].as_array().unwrap();
    assert_eq!(entries.len(), 3);
    assert!(entries.iter().any(|e| e.get("revoked").is_some()));

    // The history: two registrations, the revocation and the replacement.
    let resp = server.get("/admin/log?limit=100");
    let log = json_of(&resp);
    assert_eq!(log["total"], 4);
    let records = log["records"].as_array().unwrap();
    let seqs: Vec<u64> = records.iter().map(|r| r["seq"].as_u64().unwrap()).collect();
    assert!(seqs.windows(2).all(|w| w[0] < w[1]));
    assert!(records.iter().any(|r| r["op"] == "revoke-entry"));
    assert!(records.iter().any(|r| r["op"] == "register-entry"));
}

#[test]
fn dark_identity_indistinguishable_from_unknown() {
    let mut server = spawn();
    const UNKNOWN: &str = "gs1:(01)04006381333931";
    server.register(ISO_ID, &four_links());
    const DARK: &str = "iso-15459:urn:iso:std:iso-iec:15459:unidpp:inst:777";
    server.register(DARK, &one_link("https://secret.example.org/x"));
    let body = format!(r#"{{"identifier":"{DARK}","dark":true}}"#);
    assert_eq!(server.send("POST", "/admin/dark", &body, None).status, 200);

    // The dark identity and an unknown one cannot be told apart.
    let dark_get = server.get(&format!("/resolve?identifier={}", enc(DARK)));
    let unknown_get = server.get(&format!("/resolve?identifier={}", enc(UNKNOWN)));
    assert_eq!(dark_get.status, 404);
    assert_eq!(unknown_get.status, 404);
    assert_eq!(dark_get.body, unknown_get.body);
    assert_eq!(dark_get.header("content-type"), unknown_get.header("content-type"));
    assert_eq!(dark_get, unknown_get);
    assert!(dark_get.header("x-unidpp-context").is_none());
    assert!(dark_get.header("link").is_none());

    // As of an instant before the darkening it is denied too.
    let historical =
        server.get(&format!("/resolve?identifier={}&asof=2020-01-01T00:00:00Z", enc(DARK)));
    assert_eq!(historical.status, 404);
    assert_eq!(historical.body, unknown_get.body);

    // The path form of an identifier that is not registered.
    let path_unknown = server.get("/01/06901234567892/linkset");
    assert_eq!(path_unknown.status, 404);

    // Clearing restores resolution.
    let body = format!(r#"{{"identifier":"{DARK}","dark":false}}"#);
    assert_eq!(server.send("POST", "/admin/dark", &body, None).status, 200);
    let restored = server.get(&format!("/resolve?identifier={}", enc(DARK)));
    assert_eq!(restored.status, 200);
    assert_eq!(links_of(&restored)[0]["uri"], "https://secret.example.org/x");
}

#[test]
fn legacy_ean_and_carrier_forms() {
    let mut server = spawn();
    server.register(EAN_ID, &four_links());

    // A bare EAN-13 by query.
    let resp = server.get(&format!("/resolve?carrier={}", enc("6901234567892")));
    assert_eq!(resp.status, 200);
    assert_eq!(links_of(&resp)[0]["anchor"], "(01)06901234567892");

    // The GDS path.
    let resp = server.get("/g/6901234567892/linkset");
    assert_eq!(resp.status, 200);
    assert_eq!(links_of(&resp).len(), 4);

    // The application identifier path with a serial.
    server.register("gs1:(01)06901234567892(21)AB2026111", &one_link("https://item.example.org/1"));
    let resp = server.get("/01/06901234567892/21/AB2026111/linkset");
    assert_eq!(resp.status, 200);
    assert_eq!(links_of(&resp)[0]["uri"], "https://item.example.org/1");

    // A Digital Link URI, percent-encoded as a parameter.
    let dl = "https://id.example.com/01/06901234567892?10=LOT42";
    server.register("gs1:(01)06901234567892(10)LOT42", &one_link("https://batch.example.org/1"));
    let resp = server.get(&format!("/resolve?carrier={}", enc(dl)));
    assert_eq!(resp.status, 200);
    assert_eq!(links_of(&resp)[0]["uri"], "https://batch.example.org/1");
    // The same batch by path, the lot as a qualifier in the query.
    let resp = server.get("/01/06901234567892/linkset?10=LOT42");
    assert_eq!(links_of(&resp)[0]["uri"], "https://batch.example.org/1");

    // A bad check digit is a syntax error, not a 404.
    let resp = server.get(&format!("/resolve?carrier={}", enc("6901234567893")));
    assert_eq!(resp.status, 400);
    let resp = server.get("/g/6901234567893/linkset");
    assert_eq!(resp.status, 400);

    // A URN passes through.
    server.register(ISO_ID, &one_link("https://dpp.unidpp.org/eu/1"));
    let resp = server.get(&format!(
        "/resolve?carrier={}",
        enc("urn:iso:std:iso-iec:15459:unidpp:inst:84120099012345")
    ));
    assert_eq!(resp.status, 200);
    assert_eq!(
        links_of(&resp)[0]["anchor"],
        "urn:iso:std:iso-iec:15459:unidpp:inst:84120099012345"
    );

    // Normalization.
    let resp = server.send(
        "POST",
        "/normalize",
        r#"{"carrier":"https://gds.example.cn/g/6901234567892/AB2026111"}"#,
        None,
    );
    assert_eq!(resp.status, 200);
    let v = json_of(&resp);
    assert_eq!(v["kind"], "gbt-33993");
    assert_eq!(v["origin"], "gds-path");
    assert_eq!(v["identifier"]["value"], "(01)06901234567892(21)AB2026111");
    assert_eq!(v["identifier"]["granularity"], "item");
    assert_eq!(v["identifier"]["scheme"], "gs1");
    assert_eq!(v["resolverBaseUrl"], "https://gds.example.cn");
}

const FIXTURE: &str = r#"{
  "linkset": [
    {"anchor": "urn:iso:std:iso-iec:15459:unidpp:inst:84120099012345",
     "uri": "https://dpp.unidpp.org/eu/84120099012345",
     "rel": "dpp", "hreflang": ["en", "fr"], "type": "application/json",
     "unidpp:profile": "urn:unidpp:profile:eu-espr-electronics",
     "unidpp:role": "consumer", "unidpp:region": "EU"},
    {"anchor": "urn:iso:std:iso-iec:15459:unidpp:inst:84120099012345",
     "uri": "https://dpp-jp.meti.example.go.jp/passport/84120099012345",
     "rel": "dpp", "hreflang": ["ja"],
     "unidpp:profile": "urn:unidpp:profile:jp-meti-pse",
     "unidpp:role": "consumer", "unidpp:region": "JP"},
    {"anchor": "urn:iso:std:iso-iec:15459:unidpp:inst:84120099012345",
     "uri": "https://dpp.unidpp.org/generic/84120099012345",
     "rel": "dpp", "hreflang": ["*"],
     "unidpp:profile": "*", "unidpp:role": "*", "unidpp:region": "*"},
    {"anchor": "urn:iso:std:iso-iec:15459:unidpp:inst:84120099012345",
     "uri": "https://dpp.unidpp.org/recycler/84120099012345",
     "rel": "dpp", "hreflang": ["en"],
     "unidpp:profile": "*", "unidpp:role": "recycler", "unidpp:region": "*"}
  ]
}"#;

#[test]
fn linkset_format_conformance_with_ts_fixture_shapes() {
    let mut server = spawn();
    // Wire links, store entries, registration.
    let fixture_links = parse_document(FIXTURE).unwrap();
    let t0 = Timestamp::parse(AS_OF).unwrap();
    let entries: Vec<String> = fixture_links
        .iter()
        .map(|l| {
            let entry: LinkEntry = entry_from_link_object(l, t0).unwrap();
            unidpp_resolver::json::print_compact(&entry.to_json())
        })
        .collect();
    let resp = server.register(ISO_ID, &format!("[{}]", entries.join(",")));
    assert_eq!(resp.status, 201);

    // Fetched back, the fields are those of the fixture.
    let resp = server.get(&format!("/resolve?identifier={}", enc(ISO_ID)));
    assert_eq!(resp.status, 200);
    assert_eq!(resp.header("content-type").unwrap(), "application/linkset+json");
    let out = links_of(&resp);
    assert_eq!(out.len(), 4);
    let fixture: Value = serde_json::from_str(FIXTURE).unwrap();
    for (fixture, wire) in fixture["linkset"].as_array().unwrap().iter().zip(out.iter()) {
        for key in [
            "anchor",
            "uri",
            "rel",
            "hreflang",
            "type",
            "unidpp:profile",
            "unidpp:role",
            "unidpp:region",
        ] {
            assert_eq!(fixture.get(key), wire.get(key), "field {key}");
        }
        assert_eq!(wire["unidpp:as-of"], AS_OF);
    }
    // Lists of languages survive; the wildcard stays ["*"].
    assert_eq!(out[0]["hreflang"], Value::from(vec!["en", "fr"]));
    assert_eq!(out[2]["hreflang"], Value::from(vec!["*"]));

    // The document that was written is one that can be read.
    assert_eq!(parse_document(&resp.body).unwrap().len(), 4);

    // Context routing over the fixture.
    let resp = server.get(&format!(
        "/resolve?identifier={}&profile={}&role=consumer&lang=fr&region=EU",
        enc(ISO_ID),
        enc(EU_PROFILE)
    ));
    assert_eq!(links_of(&resp)[0]["uri"], "https://dpp.unidpp.org/eu/84120099012345");
}

fn intermediary(ttl: i64) -> Server {
    with_config(Config {
        upstream: Some(format!("{BASE}//")),
        cache_ttl_secs: ttl,
        ..Config::default()
    })
}

#[test]
fn national_intermediary_caches_stamps_and_serves_stale() {
    let mut upstream = spawn();
    upstream.register(
        EAN_ID,
        &format!(
            r#"[{{"linkType": "dpp", "href": "https://dpp.example.org/eu/9", "asOf": "{AS_OF}"}},
               {{"linkType": "dpp", "href": "https://dpp.example.org/recycler/9",
                 "role": "recycler", "asOf": "{AS_OF}"}}]"#
        ),
    );
    let mut node = intermediary(1);
    let target = format!("/resolve?identifier={}", enc(EAN_ID));

    // A miss is fetched upstream, stamped and cached.
    let resp = node.get_with(&target, None, Some(&mut upstream));
    assert_eq!(resp.status, 200);
    assert_eq!(resp.header("x-cache").unwrap(), "miss");
    let as_of = resp.header("x-as-of").unwrap().to_string();
    assert!(Timestamp::parse(&as_of).is_ok());
    assert_eq!(links_of(&resp).len(), 2);

    // A hit is served from the cache with the stamp of the fetch.
    let resp = node.get(&target);
    assert_eq!(resp.header("x-cache").unwrap(), "hit");
    assert_eq!(resp.header("x-as-of").unwrap(), as_of);

    // Context routing works on the cached view.
    let resp = node.get(&format!("{target}&role=recycler"));
    assert_eq!(links_of(&resp)[0]["uri"], "https://dpp.example.org/recycler/9");

    // Past its time and without the upstream, the cached answer goes on.
    node.now = Timestamp { secs: node.now.secs + 2 };
    let resp = node.get(&target);
    assert_eq!(resp.status, 200);
    assert_eq!(resp.header("x-cache").unwrap(), "stale");
    assert_eq!(links_of(&resp).len(), 2);
    assert_eq!(resp.header("x-as-of").unwrap(), as_of);

    // With the upstream back it is refreshed.
    let resp = node.get_with(&target, None, Some(&mut upstream));
    assert_eq!(resp.header("x-cache").unwrap(), "refresh");
    assert_eq!(resp.header("x-as-of").unwrap(), node.now.to_string());
    assert_eq!(node.get(&target).header("x-cache").unwrap(), "hit");
}

#[test]
fn intermediary_dark_and_local_precedence() {
    let mut upstream = spawn();
    upstream.register(EAN_ID, &one_link("https://dpp.example.org/upstream-ean"));
    upstream.register(ISO_ID, &one_link("https://dpp.example.org/upstream-iso"));
    let mut node = intermediary(300);

    // What is registered here takes precedence.
    node.register(EAN_ID, &one_link("https://dpp.example.org/local-ean"));
    let target = format!("/resolve?identifier={}", enc(EAN_ID));
    let resp = node.get_with(&target, None, Some(&mut upstream));
    assert_eq!(resp.status, 200);
    assert_eq!(links_of(&resp)[0]["uri"], "https://dpp.example.org/local-ean");
    assert!(resp.header("x-cache").is_none(), "local answers are not cache-stamped");

    // What is dark here is never asked of the upstream.
    let body = format!(r#"{{"identifier":"{ISO_ID}","dark":true}}"#);
    assert_eq!(node.send("POST", "/admin/dark", &body, None).status, 200);
    let target = format!("/resolve?identifier={}", enc(ISO_ID));
    let dark_resp = node.get_with(&target, None, Some(&mut upstream));
    assert_eq!(dark_resp.status, 404);
    let unknown = node.get_with(
        &format!("/resolve?identifier={}", enc("gs1:(01)04006381333931")),
        None,
        Some(&mut upstream),
    );
    assert_eq!(dark_resp.body, unknown.body);
}

#[test]
fn discovery_document_declares_keys_and_contexts() {
    let mut server = spawn();
    for path in ["/.well-known/unidpp-resolver", "/"] {
        let resp = server.get(path);
        assert_eq!(resp.status, 200);
        let doc = json_of(&resp);
        assert_eq!(
            doc["identifierKeys"]["gs1ApplicationIdentifiers"],
            Value::from(vec!["01", "10", "21"])
        );
        assert_eq!(doc["identifierKeys"]["carrierSyntaxes"].as_array().unwrap().len(), 6);
        assert_eq!(
            doc["contextRouting"]["dimensions"],
            Value::from(vec!["profile", "role", "language", "region"])
        );
        assert_eq!(doc["linkset"]["mediaType"], "application/linkset+json");
        assert_eq!(doc["linkTypes"]["default"], "dpp");
        assert_eq!(doc["nationalIntermediary"]["enabled"], false);
        assert_eq!(doc["enumerationResistance"]["identifierListing"], "none");
    }
    let mut node = intermediary(300);
    let resp = node.get("/.well-known/unidpp-resolver");
    assert_eq!(json_of(&resp)["nationalIntermediary"]["enabled"], true);
}

#[test]
fn bare_path_redirects_to_the_default_link() {
    let mut server = spawn();
    server.register(EAN_ID, &four_links());

    // No context: the most specific destination, first registered among equals.
    let resp = server.get("/01/06901234567892");
    assert_eq!(resp.status, 303);
    assert_eq!(resp.header("location").unwrap(), "https://dpp.unidpp.org/eu/1");
    assert!(resp.header("x-as-of").is_some());

    // The context applies to the redirect too.
    let resp = server.get("/g/6901234567892?role=recycler");
    assert_eq!(resp.status, 303);
    assert_eq!(resp.header("location").unwrap(), "https://dpp.unidpp.org/recycler/1");

    // An unknown identifier is never redirected.
    let resp = server.get("/01/4006381333931");
    assert_eq!(resp.status, 404);
}

#[test]
fn admin_requires_the_bearer_token_when_configured() {
    let mut server = with_config(Config {
        admin_token: Some("s3cret".to_string()),
        ..Config::default()
    });
    let body = format!(
        r#"{{"identifier":"{EAN_ID}","links":{}}}"#,
        one_link("https://dpp.example.org/x")
    );
    assert_eq!(server.send("POST", "/admin/linksets", &body, None).status, 401);
    assert_eq!(server.send("POST", "/admin/linksets", &body, Some("wrong")).status, 401);
    assert_eq!(server.send("POST", "/admin/linksets", &body, Some("s3cret")).status, 201);
    assert_eq!(server.get("/admin/log").status, 401);
    assert_eq!(server.get("/admin/identifiers/x").body, "{\"error\":\"unauthorized\"}");

    // Resolution needs no token.
    let resp = server.get(&format!("/resolve?identifier={}", enc(EAN_ID)));
    assert_eq!(resp.status, 200);
}

#[test]
fn healthz_and_bad_requests() {
    let mut server = spawn();
    assert_eq!(server.get("/healthz").status, 200);

    // Nothing named, a bad instant, both named.
    assert_eq!(server.get("/resolve").status, 400);
    assert_eq!(
        server.get(&format!("/resolve?identifier={}&asof=Yesterday", enc(EAN_ID))).status,
        400
    );
    assert_eq!(server.get("/resolve?carrier=1&identifier=2").status, 400);
    // A malformed body.
    assert_eq!(server.send("POST", "/admin/linksets", "{", None).status, 400);
    // The target must be an absolute URI.
    let resp = server.send(
        "POST",
        "/admin/linksets",
        r#"{"identifier":"gs1:(01)06901234567892","links":[{"linkType":"dpp","href":"relative"}]}"#,
        None,
    );
    assert_eq!(resp.status, 400);
}

fn said(reply: &Reply) -> String {
    assert_eq!(reply.status, 400);
    json_of(reply)["error"].as_str().unwrap().to_string()
}

#[test]
fn bad_queries_are_told_what_is_wrong() {
    let mut server = spawn();
    assert_eq!(
        said(&server.get("/resolve")),
        "one of `carrier` or `identifier` is required"
    );
    assert_eq!(
        said(&server.get("/resolve?carrier=1&identifier=2")),
        "`carrier` and `identifier` are mutually exclusive"
    );
    assert_eq!(said(&server.get("/resolve?carrier=hello")), "unrecognized carrier");
    assert_eq!(
        said(&server.get("/resolve?carrier=6901234567893")),
        "invalid carrier (check digit / values)"
    );
    assert_eq!(
        said(&server.get("/resolve?identifier=6901234567892&asof=x")),
        "invalid RFC 3339 UTC timestamp `x`"
    );
    assert_eq!(
        said(&server.get("/01/09506000134353")),
        "invalid carrier (check digit / values)"
    );
    // what is no carrier key at all is not found
    for path in ["//", "/wiki/Page", "/01%zz", "/linkset", "/favicon.ico"] {
        assert_eq!(server.get(path).status, 404, "{path}");
    }
    assert_eq!(
        said(&server.send("POST", "/normalize", "{}", None)),
        "`carrier` is required"
    );
    assert_eq!(
        said(&server.send("POST", "/normalize", r#"{"carrier":"hello"}"#, None)),
        "unrecognized carrier"
    );
    assert!(said(&server.send("POST", "/normalize", "", None)).starts_with("invalid JSON body: EOF"));
}

#[test]
fn bad_administrative_bodies_are_told_what_is_wrong() {
    let mut server = spawn();
    server.register(EAN_ID, &one_link("https://a.example/1"));
    let mut post = |path: &str, body: &str| said(&server.send("POST", path, body, None));
    assert!(post("/admin/dark", "{").starts_with("invalid JSON body: EOF while parsing"));
    assert_eq!(post("/admin/linksets", "{}"), "`identifier` is required");
    assert_eq!(
        post("/admin/linksets", r#"{"identifier":"6901234567892"}"#),
        "`links` must be a non-empty array"
    );
    assert_eq!(
        post("/admin/linksets", r#"{"identifier":"6901234567892","links":[]}"#),
        "`links` must be a non-empty array"
    );
    assert_eq!(
        post("/admin/linksets", r#"{"identifier":"6901234567892","links":[7]}"#),
        "link entry must be an object"
    );
    assert_eq!(
        post("/admin/revocations", r#"{"identifier":"6901234567892"}"#),
        "`entryId` is required"
    );
    assert_eq!(
        post("/admin/revocations", r#"{"identifier":"6901234567892","entryId":1,"effectiveAt":1}"#),
        "`effectiveAt` must be an RFC 3339 string"
    );
    assert_eq!(
        post("/admin/revocations", r#"{"identifier":"6901234567892","entryId":9}"#),
        "entry 9 is not registered for `gs1:(01)06901234567892`"
    );
    assert_eq!(
        post("/admin/dark", r#"{"identifier":"6901234567892","dark":"yes"}"#),
        "`dark` (boolean) is required"
    );
    assert_eq!(
        post("/admin/supersessions", r#"{"identifier":"6901234567892"}"#),
        "`successor` is required"
    );
    assert_eq!(
        post("/admin/supersessions", r#"{"identifier":"6901234567892","successor":"  "}"#),
        "`successor` must not be empty — an unstated successor is a revocation, not a rotation"
    );
    assert_eq!(
        post("/admin/supersessions", r#"{"identifier":"4006381333931","successor":"x"}"#),
        "identifier `gs1:(01)04006381333931` is not known here — register it before recording its rotation"
    );
    assert_eq!(
        post("/admin/correlations", r#"{"identifier":"6901234567892"}"#),
        "`identifierB` is required"
    );
    assert_eq!(
        post("/admin/correlations", r#"{"identifier":"6901234567892","identifierB":" "}"#),
        "`identifierB` must not be empty"
    );
    assert!(post(
        "/admin/correlations",
        r#"{"identifier":"6901234567892","identifierB":"gs1:nope"}"#
    )
    .starts_with("`identifierB`: "));
    assert_eq!(
        post("/admin/correlations", r#"{"identifier":"6901234567892","identifierB":"6901234567892"}"#),
        "a self-correlation states nothing"
    );
    assert_eq!(
        post(
            "/admin/correlations",
            r#"{"identifier":"6901234567892","identifierB":"4006381333931","direction":"up"}"#
        ),
        "`direction` must be one of `mutual`, `from-a`, `from-b`"
    );
    assert_eq!(
        post(
            "/admin/correlations",
            r#"{"identifier":"4006381333931","identifierB":"6901234567892"}"#
        ),
        "identifier `gs1:(01)04006381333931` is not known here — register it before correlating it"
    );
    // nothing of this was recorded
    assert_eq!(json_of(&server.get("/admin/log"))["total"], 1);
}

#[test]
fn administrative_requests_are_answered_with_what_was_done() {
    let mut server = spawn();
    let resp = server.register(EAN_ID, &one_link("https://a.example/1"));
    let v = json_of(&resp);
    assert_eq!(v["identifier"], EAN_ID);
    assert_eq!(v["registered"][0]["id"], 1);
    assert_eq!(v["recordCount"], 1);

    let resp = server.send(
        "POST",
        "/admin/revocations",
        &format!(r#"{{"identifier":"{EAN_ID}","entryId":1,"effectiveAt":"2027-01-01T00:00:00Z"}}"#),
        None,
    );
    assert_eq!(resp.status, 200);
    let v = json_of(&resp);
    assert_eq!(v["revoked"], 1);
    assert_eq!(v["effectiveAt"], "2027-01-01T00:00:00Z");
    let resp = server.get("/admin/log?offset=1");
    assert_eq!(json_of(&resp)["records"][0]["reason"], "revoked");

    let resp = server.send(
        "POST",
        "/admin/dark",
        &format!(r#"{{"identifier":"{EAN_ID}","dark":false}}"#),
        None,
    );
    let v = json_of(&resp);
    assert_eq!(v["dark"], false);
    assert_eq!(v["seq"], 3);
    assert_eq!(v["effectiveAt"], "2026-09-01T12:00:00Z");

    let resp = server.get("/admin/log?limit=nonsense&offset=2");
    assert_eq!(json_of(&resp)["records"].as_array().unwrap().len(), 1);
    assert_eq!(server.get("/admin/identifiers/unknown").status, 404);
}

#[test]
fn rotations_and_correlations_are_stated() {
    let mut server = spawn();
    server.register(EAN_ID, &one_link("https://a.example/1"));
    let resp = server.send(
        "POST",
        "/admin/supersessions",
        &format!(
            r#"{{"identifier":"{EAN_ID}","successor":" next ","effectiveAt":"2026-06-01T00:00:00Z","authority":"A","reason":"R"}}"#
        ),
        None,
    );
    assert_eq!(resp.status, 200);
    let v = json_of(&resp);
    assert_eq!(v["supersededBy"], "next");
    assert_eq!(v["record"]["op"], "supersede");
    assert_eq!(v["record"]["seq"], 2);
    for direction in ["mutual", "from-a"] {
        let resp = server.send(
            "POST",
            "/admin/correlations",
            &format!(
                r#"{{"identifierA":"{EAN_ID}","identifierB":"4006381333931","assertor":"me","direction":"{direction}"}}"#
            ),
            None,
        );
        assert_eq!(resp.status, 201);
        assert_eq!(json_of(&resp)["identifierB"], "gs1:(01)04006381333931");
    }

    // Links with statements: in the headers, each counterpart once, and in the
    // document with every claim.
    let resp = server.get(&format!("/resolve?identifier={}", enc(EAN_ID)));
    assert_eq!(resp.header("x-unidpp-superseded-by").unwrap(), "next");
    assert_eq!(resp.header("x-unidpp-correlated-with").unwrap(), "gs1:(01)04006381333931");
    let doc = json_of(&resp);
    assert_eq!(doc["unidpp:superseded-effective-at"], "2026-06-01T00:00:00Z");
    assert_eq!(doc["unidpp:correlated-with"].as_array().unwrap().len(), 2);
    let resp = server.get("/01/06901234567892");
    assert_eq!(resp.header("x-unidpp-superseded-by").unwrap(), "next");

    // Before the rotation nothing is said of it.
    let resp =
        server.get(&format!("/resolve?identifier={}&asof=2026-05-01T00:00:00Z", enc(EAN_ID)));
    assert_eq!(resp.status, 200);
    assert!(resp.header("x-unidpp-superseded-by").is_none());
    assert!(resp.header("x-unidpp-correlated-with").is_none());

    // The counterpart is not registered here, but its claims are stated, and
    // no upstream is asked.
    let resp = server.get("/resolve?identifier=4006381333931");
    assert_eq!(resp.status, 404);
    assert_eq!(resp.header("content-type").unwrap(), "application/json");
    assert_eq!(resp.header("x-as-of").unwrap(), server.now.to_string());
    let body = json_of(&resp);
    assert_eq!(body["error"], "not found");
    assert_eq!(body["unidpp:correlated-with"][0]["identifier"], EAN_ID);

    // Without links in force the successor is stated.
    server.send(
        "POST",
        "/admin/revocations",
        &format!(r#"{{"identifier":"{EAN_ID}","entryId":1}}"#),
        None,
    );
    let resp = server.get(&format!("/resolve?identifier={}", enc(EAN_ID)));
    assert_eq!(resp.status, 404);
    let body = json_of(&resp);
    assert_eq!(body["unidpp:superseded-by"], "next");
    assert_eq!(body["unidpp:superseded-by-authority"], "A");
    assert_eq!(body["unidpp:supersession-reason"], "R");
    let resp =
        server.get(&format!("/resolve?identifier={}&asof=2099-01-01T00:00:00Z", enc(EAN_ID)));
    assert_eq!(resp.status, 404);
    assert_eq!(resp.header("x-as-of").unwrap(), "2099-01-01T00:00:00Z");
    assert_eq!(json_of(&resp)["unidpp:superseded-by"], "next");

    // Dark stays bare.
    server.send("POST", "/admin/dark", &format!(r#"{{"identifier":"{EAN_ID}","dark":true}}"#), None);
    let resp = server.get(&format!("/resolve?identifier={}", enc(EAN_ID)));
    assert_eq!(resp.body, "{\"error\":\"not found\"}");
    assert!(resp.header("x-as-of").is_none());
}

#[test]
fn exhausted_entry_numbers_stop_registrations_only() {
    let line = format!(
        r#"{{"op":"register-entry","identifier":"{EAN_ID}","seq":1,"recordedAt":"{AS_OF}",
            "entry":{{"id":18446744073709551614,"linkType":"dpp","href":"https://a.example/1","asOf":"{AS_OF}"}}}}"#
    );
    let mut server = spawn();
    let (store, said) = Store::open(&vec![line], server.now);
    assert!(said.is_empty());
    server.store = store;
    for (path, body) in [
        ("/admin/supersessions", r#""successor":"next""#),
        ("/admin/correlations", r#""identifierB":"4006381333931""#),
        ("/admin/revocations", r#""entryId":18446744073709551614"#),
        ("/admin/dark", r#""dark":true"#),
    ] {
        let resp =
            server.send("POST", path, &format!(r#"{{"identifier":"{EAN_ID}",{body}}}"#), None);
        assert!(resp.status == 200 || resp.status == 201, "{path}");
    }
    assert_eq!(server.store.log_len(), 5);
    // No number is left, and nothing is changed for want of one.
    let body = format!(r#"{{"identifier":"{EAN_ID}","links":{}}}"#, one_link("https://b.example/"));
    assert!(admin_register(&mut server.store, &None, None, &body, server.now).is_none());
    assert!(admin_replace(&mut server.store, &None, None, &body, server.now).is_none());
    assert_eq!(server.store.log_len(), 5);
}

#[test]
fn a_replacement_is_stamped_and_takes_over() {
    let mut server = spawn();
    server.register(EAN_ID, &one_link("https://a.example/1"));
    let links = r#"[{"linkType":"dpp","href":"https://b.example/","asOf":"2026-06-01T00:00:00Z"},
                    {"linkType":"dpp","href":"https://c.example/","asOf":"2026-06-01T00:00:00Z"}]"#;
    let resp = server.send(
        "PUT",
        "/admin/linksets",
        &format!(
            r#"{{"identifier":"{EAN_ID}","links":{links},"effectiveAt":"2026-06-01T00:00:00Z"}}"#
        ),
        None,
    );
    assert_eq!(resp.status, 200);
    let v = json_of(&resp);
    assert_eq!(v["revoked"][0], 1);
    assert_eq!(v["revoked"].as_array().unwrap().len(), 1);
    assert_eq!(v["recordCount"], 4);
    let hrefs = |server: &mut Server, t: &str| {
        let resp = server.get(&format!("/resolve?identifier={}&asof={t}", enc(EAN_ID)));
        let uris: Vec<String> =
            links_of(&resp).iter().map(|l| l["uri"].as_str().unwrap().to_string()).collect();
        uris
    };
    assert_eq!(hrefs(&mut server, "2026-05-31T23:59:59Z"), ["https://a.example/1"]);
    for t in ["2026-06-01T00:00:00Z", "2030-01-01T00:00:00Z"] {
        assert_eq!(hrefs(&mut server, t), ["https://b.example/", "https://c.example/"]);
    }
}

#[test]
fn the_accept_header_routes_where_nothing_else_does() {
    let mut server = spawn();
    server.register(
        EAN_ID,
        &format!(
            r#"[{{"linkType":"dpp","href":"https://m.example/","role":"machine","asOf":"{AS_OF}"}},
               {{"linkType":"dpp","href":"https://c.example/","role":"customs","asOf":"{AS_OF}"}},
               {{"linkType":"dpp","href":"https://h.example/","role":"consumer","asOf":"{AS_OF}"}}]"#
        ),
    );
    for (accept, href) in [
        ("application/untp+json", "https://m.example/"),
        ("application/en18222+json", "https://c.example/"),
        ("text/html,*/*;q=0.1", "https://h.example/"),
    ] {
        let resp = server.get_with("/01/06901234567892", Some(accept), None);
        assert_eq!(resp.header("location"), Some(href));
        let resp = server.get_with("/01/06901234567892/linkset", Some(accept), None);
        assert_eq!(links_of(&resp).len(), 1);
        // an explicit parameter outranks the header
        let resp =
            server.get_with("/01/06901234567892?role=consumer", Some(accept), None);
        assert_eq!(resp.header("location"), Some("https://h.example/"));
    }
    let resp = server.get_with("/01/06901234567892/linkset", Some("image/png"), None);
    assert!(resp.header("x-unidpp-context").is_none());
    assert_eq!(links_of(&resp).len(), 3);
    // nothing for this role: no redirect
    let resp = server.get("/01/06901234567892?role=recycler");
    assert_eq!(resp.status, 404);
    // all link types: no default link is announced
    let resp = server.get("/01/06901234567892/linkset?linkType=all");
    assert!(resp.header("link").is_none());
}

#[test]
fn the_upstream_is_asked_and_its_failures_are_told() {
    let mut node = intermediary(300);
    let target = format!("/resolve?identifier={}", enc(EAN_ID));
    let resp = node.get(&target);
    assert_eq!(resp.status, 502);
    assert_eq!(json_of(&resp)["error"], "upstream unavailable");
    assert_eq!(json_of(&resp)["detail"], "connection refused");

    // an absence upstream is an absence here, and is not cached
    let mut upstream = spawn();
    assert_eq!(node.get_with(&target, None, Some(&mut upstream)).status, 404);
    upstream.register(EAN_ID, &one_link("https://a.example/1"));
    let resp = node.get_with(&target, None, Some(&mut upstream));
    assert_eq!(resp.header("x-cache").unwrap(), "miss");

    // a question as of an instant is handed on and leaves the cache alone
    let resp = node.get_with(
        &format!("{target}&asof=2026-02-01T00:00:00Z"),
        None,
        Some(&mut upstream),
    );
    assert_eq!(resp.header("x-cache").unwrap(), "miss");
    assert_eq!(resp.status, 200);
    let resp = node.get(&format!("{target}&asof=2026-02-01T00:00:00Z"));
    assert_eq!(resp.status, 502);
    assert_eq!(node.get(&target).header("x-cache").unwrap(), "hit");

    match judge_answer(500, "", node.now) {
        FetchOutcome::Error(m) => assert_eq!(m, "upstream returned 500"),
        _ => panic!("an error was expected"),
    }
    match judge_answer(200, "7", node.now) {
        FetchOutcome::Error(m) => {
            assert_eq!(m, "upstream linkset: linkset document must be an object or array")
        }
        _ => panic!("an error was expected"),
    }
    assert!(matches!(judge_answer(404, "", node.now), FetchOutcome::NotFound));
    assert!(matches!(judge_answer(200, "[]", node.now), FetchOutcome::Entries(v) if v.is_empty()));
}

#[test]
fn query_components_are_encoded_and_decode_again() {
    for s in ["gs1:(01)0690/ +&=?%#", "", "\u{e9}\u{4e2d}\u{1f600}", "a-b.c_d~e"] {
        let q = enc(s);
        assert!(q.bytes().all(|b| b.is_ascii_alphanumeric() || b"-._~%".contains(&b)));
        assert_eq!(percent_decode(&q).as_deref(), Some(s));
    }
    assert_eq!(enc("a b/\u{e9}"), "a%20b%2F%C3%A9");
    assert_eq!(enc("a-b.c_d~e"), "a-b.c_d~e");
}

#[test]
fn settings_become_a_configuration() {
    let some = |s: &str| Some(s.to_string());
    let c = Config::from_settings(
        some("0.0.0.0:80"),
        some("t"),
        some("http://up"),
        some("-5"),
        some("/j"),
    );
    assert_eq!(c.bind, "0.0.0.0:80");
    assert_eq!(c.admin_token.as_deref(), Some("t"));
    assert_eq!(c.upstream.as_deref(), Some("http://up"));
    assert_eq!(c.cache_ttl_secs, -5);
    assert_eq!(c.state_file.as_deref(), Some("/j"));
    let doc = json_of(&discovery_reply(&c, "1.2.3", "b7"));
    assert_eq!(doc["nationalIntermediary"]["cacheTtlSeconds"], -5);
    assert_eq!(doc["version"], "1.2.3");
    assert_eq!(doc["build_id"], "b7");
    let c = Config::from_settings(None, some(""), some(""), some("soon"), some(""));
    assert_eq!(c.bind, "127.0.0.1:8080");
    assert!(c.admin_token.is_none() && c.upstream.is_none() && c.state_file.is_none());
    assert_eq!(c.cache_ttl_secs, 300);
}

#[test]
fn answers_of_the_upstream_are_taken_apart() {
    let read = |s: &str| read_answer(s);
    assert_eq!(
        read("HTTP/1.0 200 OK\r\na: b\r\n\r\nx\r\n\r\ny"),
        Ok((200, "x\r\n\r\ny".to_string()))
    );
    assert_eq!(read("HTTP/1.1  404\r\n\r\n"), Ok((404, String::new())));
    assert_eq!(read("HTTP/1.0 200 OK\r\n").unwrap_err(), "malformed HTTP response");
    for bad in ["\r\n\r\n", "HTTP/1.0\r\n\r\n", "HTTP/1.0 OK\r\n\r\n", "a 65536\r\n\r\n"] {
        assert_eq!(read(bad).unwrap_err(), "malformed HTTP status line");
    }

    let mut upstream = spawn();
    upstream.register(EAN_ID, &one_link("https://a.example/é"));
    let resp = upstream.get(&format!("/resolve?identifier={}&linkType=all", enc(EAN_ID)));
    let sent = format!("HTTP/1.0 200 OK\r\ncontent-type: x\r\n\r\n{}", resp.body);
    match judge_bytes(sent.as_bytes(), upstream.now) {
        FetchOutcome::Entries(v) => {
            assert_eq!(v.len(), 1);
            assert_eq!(v[0].href, "https://a.example/é");
        }
        _ => panic!("no entries"),
    }
    // What is no UTF-8 is replaced.
    let mut broken = b"HTTP/1.0 200 OK\r\n\r\n".to_vec();
    broken.push(0xff);
    match judge_bytes(&broken, upstream.now) {
        FetchOutcome::Error(m) => assert!(m.starts_with("upstream linkset: "), "{m}"),
        _ => panic!("no error"),
    }
    assert!(matches!(
        judge_bytes(b"HTTP/1.0 404 Not Found\r\n\r\n", upstream.now),
        FetchOutcome::NotFound
    ));
}

#[test]
fn what_is_administered_survives_a_restart() {
    let mut server = spawn();
    server.register(EAN_ID, &four_links());
    for (method, path, body) in [
        ("POST", "/admin/revocations", r#""entryId":4,"reason":"\u2028 gone""#),
        ("PUT", "/admin/linksets", r#""links":[{"linkType":"dpp","href":"https://b.example/"}]"#),
        ("POST", "/admin/supersessions", r#""successor":"next""#),
        ("POST", "/admin/correlations", r#""identifierB":"4006381333931""#),
        ("POST", "/admin/dark", r#""dark":true"#),
        ("POST", "/admin/dark", r#""dark":false"#),
    ] {
        server.send(method, path, &format!(r#"{{"identifier":"{EAN_ID}",{body}}}"#), None);
    }
    let journal = server.store.journal_from(0);
    assert_eq!(journal.len(), server.store.log_len());
    let (store, said) = Store::open(&journal, ts("2030-01-01T00:00:00Z"));
    assert!(said.is_empty());
    let mut again = Server { store, config: Config::default(), now: server.now };
    let log = |s: &Store| admin_log(s, &None, None, &[]).body;
    assert_eq!(log(&again.store), log(&server.store));
    for target in [
        format!("/resolve?identifier={}", enc(EAN_ID)),
        "/01/06901234567892".to_string(),
        "/resolve?identifier=4006381333931".to_string(),
    ] {
        assert_eq!(again.get(&target), server.get(&target));
    }
    // Numbers go on where they stopped.
    let a = again.register(EAN_ID, &one_link("https://c.example/"));
    assert_eq!(a, server.register(EAN_ID, &one_link("https://c.example/")));
}
