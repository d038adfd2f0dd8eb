use unidpp_resolver::context::{
    primary_subtag, score_entry, select_ordered, EntryRouting, RequestContext,
};
use unidpp_resolver::negotiate::{ACCEPT_CONTEXTS, context_for_accept};
use unidpp_resolver::store::LinkEntry;
use unidpp_resolver::Timestamp;

fn ctx(
    profile: Option<&str>,
    role: Option<&str>,
    language: Option<&str>,
    region: Option<&str>,
) -> RequestContext {
    RequestContext {
        profile: profile.map(str::to_string),
        role: role.map(str::to_string),
        language: language.map(str::to_string),
        region: region.map(str::to_string),
    }
}

fn routing<'a>(
    link_type: &'a str,
    profile: Option<&'a str>,
    role: Option<&'a str>,
    langs: &'a [String],
    region: Option<&'a str>,
) -> EntryRouting<'a> {
    EntryRouting { link_type, profile, role, language: langs, region }
}

fn langs(parts: &[&str]) -> Vec<String> {
    parts.iter().map(|s| s.to_string()).collect()
}

fn role_of(accept: &str) -> Option<String> {
    context_for_accept(accept)?.role
}

#[test]
fn context_key_formats_wildcards() {
    let c = ctx(Some("urn:unidpp:profile:jp-meti-pse"), None, Some("ja-JP"), None);
    assert_eq!(
        c.context_key(),
        "profile=urn:unidpp:profile:jp-meti-pse;role=*;lang=ja-JP;region=*"
    );
    assert_eq!(primary_subtag("fr-CA"), "fr");
}

#[test]
fn scoring_table() {
    let fr = langs(&["fr"]);
    let multi_l = langs(&["en", "fr"]);
    let eu = routing("dpp", Some("urn:p:eu"), Some("consumer"), &fr, Some("EU"));
    // exact on all four dimensions
    let c = ctx(Some("urn:p:eu"), Some("consumer"), Some("fr"), Some("EU"));
    assert_eq!(score_entry(&eu, &c, "dpp"), Some(4 + 4 + 4 + 4));
    // wrong rel
    assert_eq!(score_entry(&eu, &c, "dss-archive"), None);
    // profile mismatch
    let jp = ctx(Some("urn:p:jp"), Some("consumer"), Some("fr"), Some("EU"));
    assert_eq!(score_entry(&eu, &jp, "dpp"), None);
    // no preferences: a specific link scores 2 per dimension
    assert_eq!(score_entry(&eu, &RequestContext::default(), "dpp"), Some(2 + 2 + 2 + 2));
    // a wildcard link with preferences scores 1 per dimension
    let wc = routing("dpp", None, None, &[], None);
    assert_eq!(score_entry(&wc, &c, "dpp"), Some(1 + 1 + 1 + 1));
    // language primary-subtag fallback
    let c2 = ctx(Some("urn:p:eu"), Some("consumer"), Some("fr-CA"), Some("EU"));
    assert_eq!(score_entry(&eu, &c2, "dpp"), Some(4 + 4 + 4 + 3));
    // a language mismatch is no match
    let c3 = ctx(Some("urn:p:eu"), Some("consumer"), Some("ja"), Some("EU"));
    assert_eq!(score_entry(&eu, &c3, "dpp"), None);
    // multi-language lists match on any member
    let multi = routing("dpp", None, None, &multi_l, None);
    assert_eq!(
        score_entry(&multi, &ctx(None, None, Some("fr"), None), "dpp"),
        Some(1 + 1 + 1 + 4)
    );
}

fn link(href: &str, profile: Option<&str>) -> LinkEntry {
    LinkEntry {
        id: 0,
        link_type: "dpp".into(),
        href: href.into(),
        title: None,
        media_type: None,
        profile: profile.map(str::to_string),
        role: None,
        languages: Vec::new(),
        region: None,
        as_of: Timestamp::unix_epoch(),
        expiry: None,
    }
}

#[test]
fn selection_orders_by_score_then_registration() {
    let entries = vec![
        link("https://eu/", Some("urn:p:eu")),
        link("https://generic/", None),
        link("https://jp/", Some("urn:p:jp")),
    ];
    let scored: Vec<&str> = select_ordered(&entries, &RequestContext::default(), "dpp")
        .into_iter()
        .map(|s| s.entry.href.as_str())
        .collect();
    // both specific links score 5 (a tie keeps the order of registration), the
    // wildcard 4
    assert_eq!(scored, vec!["https://eu/", "https://jp/", "https://generic/"]);
}

#[test]
fn selection_drops_what_does_not_match() {
    let entries = vec![
        link("https://generic/", None),
        link("https://jp/", Some("urn:p:jp")),
        link("https://eu/", Some("urn:p:eu")),
    ];
    let c = ctx(Some("urn:p:eu"), None, None, None);
    let scored: Vec<(String, u32)> = select_ordered(&entries, &c, "dpp")
        .into_iter()
        .map(|s| (s.entry.href.clone(), s.score))
        .collect();
    assert_eq!(
        scored,
        vec![("https://eu/".to_string(), 7), ("https://generic/".to_string(), 4)]
    );
    assert!(select_ordered(&entries, &c, "archive").is_empty());
}

#[test]
fn a_wildcard_among_languages_is_any_language() {
    let any = langs(&["ja", "*"]);
    let r = routing("dpp", None, None, &any, None);
    assert_eq!(score_entry(&r, &ctx(None, None, Some("ja"), None), "dpp"), Some(4));
    assert_eq!(score_entry(&r, &RequestContext::default(), "dpp"), Some(4));
}

#[test]
fn empty_contexts_are_told_from_others() {
    assert!(RequestContext::default().is_empty());
    assert!(!ctx(None, None, None, Some("EU")).is_empty());
    assert_eq!(RequestContext::default().context_key(), "profile=*;role=*;lang=*;region=*");
}

#[test]
fn table_maps_each_media_type_to_its_context() {
    assert_eq!(role_of("application/untp+json").as_deref(), Some("machine"));
    assert_eq!(role_of("application/en18222+json").as_deref(), Some("customs"));
    assert_eq!(role_of("text/html").as_deref(), Some("consumer"));
    // The negotiated context routes on the role dimension only.
    let ctx = context_for_accept("application/untp+json").unwrap();
    assert!(ctx.profile.is_none() && ctx.language.is_none() && ctx.region.is_none());
    assert_eq!(ctx.context_key(), "profile=*;role=machine;lang=*;region=*");
}

#[test]
fn q_weights_and_client_order_pick_the_offered_representation() {
    // An unoffered type first: the best offered one still wins.
    assert_eq!(role_of("application/xml, application/untp+json").as_deref(), Some("machine"));
    // Weights reorder the client's preference.
    assert_eq!(
        role_of("text/html;q=0.5, application/untp+json;q=0.9").as_deref(),
        Some("machine")
    );
    assert_eq!(
        role_of("application/untp+json;q=0.5, text/html;q=0.9").as_deref(),
        Some("consumer")
    );
    // Equal weights: the client's order breaks the tie.
    assert_eq!(role_of("text/html, application/untp+json").as_deref(), Some("consumer"));
    assert_eq!(role_of("application/untp+json, text/html").as_deref(), Some("machine"));
    // Media types are case-insensitive; parameters other than q are ignored.
    assert_eq!(
        role_of("APPLICATION/EN18222+JSON; charset=utf-8").as_deref(),
        Some("customs")
    );
    // A browser's list routes to the consumer destination.
    assert_eq!(
        role_of("text/html,application/xhtml+xml,application/xml;q=0.9,image/webp,*/*;q=0.8")
            .as_deref(),
        Some("consumer")
    );
}

#[test]
fn unknown_or_unacceptable_media_types_negotiate_nothing() {
    assert_eq!(role_of("application/json"), None);
    assert_eq!(role_of("*/*"), None);
    assert_eq!(role_of(""), None);
    // A weight of zero is not acceptable: the type is dropped.
    assert_eq!(
        role_of("application/untp+json;q=0, text/html").as_deref(),
        Some("consumer")
    );
    assert_eq!(role_of("application/untp+json;q=0"), None);
    // Malformed weights count in full.
    assert_eq!(role_of("application/untp+json;q=nonsense").as_deref(), Some("machine"));
}

#[test]
fn weights_are_read_as_numbers() {
    let first = |a: &str, b: &str| {
        role_of(&format!("text/html;q={a}, application/untp+json;q={b}")).unwrap() == "consumer"
    };
    // plain, with a bare point, with zeros around, with an exponent
    assert!(first("0.5", ".5"));
    assert!(!first("0.5", "0.50001"));
    assert!(first("00.5000", "5e-1"));
    assert!(!first("9e-2", "0.1"));
    assert!(first("1E1", "9.999"));
    assert!(first("+1", "1."));
    // malformed weights count as 1
    assert!(!first("0.9", "."));
    assert!(!first("0.9", "1e"));
    assert!(!first("0.9", "+"));
    assert!(first("1.1", "e5"));
    for q in ["nan", "NaN", "inf", "INFINITY", "-inf", "-", ""] {
        assert!(!first("0.9", q), "{q}");
        assert!(first(q, "1"), "{q}");
        assert!(first("1.1", q), "{q}");
        assert_eq!(role_of(&format!("application/untp+json;q={q}")).as_deref(), Some("machine"));
    }
    // not acceptable
    for q in ["0", "0.000", "-0", "-1", "0e5", "-1e-3"] {
        assert_eq!(role_of(&format!("text/html;q={q}")), None, "{q}");
    }
    // the last q counts, blanks around it do not
    assert_eq!(role_of("text/html;q=0; q= 1 ").as_deref(), Some("consumer"));
    assert_eq!(role_of("text/html;q=1;q=0"), None);
    assert_eq!(role_of(" ;q=1, ,text/html").as_deref(), Some("consumer"));
}

#[test]
fn the_table_is_declared() {
    assert_eq!(ACCEPT_CONTEXTS.len(), 3);
    assert_eq!(ACCEPT_CONTEXTS[1], ("application/en18222+json", "customs"));
    for (media_type, role) in ACCEPT_CONTEXTS {
        assert_eq!(role_of(media_type).as_deref(), Some(role));
    }
}
