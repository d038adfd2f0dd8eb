use unidpp_resolver::carrier::{
    classify_carrier, classify_path, is_iso15459_urn, parse_carrier, parse_identifier_param,
    CarrierKind, CarrierLookup,
};
use unidpp_resolver::gbt33993::{parse_gbt33993, parse_gds_path, GbtOrigin};
use unidpp_resolver::gs1dl::{
    canonical_element_string, gs1_check_digit, parse_gs1_digital_link, parse_key_path,
    percent_decode, split_url, to_identifier, valid_gtin, Gs1ElementString,
};

#[test]
fn routes_gs1_and_gbt_carriers_to_normalized_identifiers() {
    let dl = parse_carrier("https://id.example.com/01/09506000134352/21/8765").unwrap();
    assert_eq!(dl.kind, CarrierKind::Gs1DigitalLink);
    assert_eq!(dl.resolver_base_url.as_deref(), Some("https://id.example.com"));
    assert_eq!(dl.identifier.key(), "gs1:(01)09506000134352(21)8765");

    let gbt = parse_carrier("https://gds.example.cn/g/6901234567892").unwrap();
    assert_eq!(gbt.kind, CarrierKind::Gbt33993);
    assert_eq!(gbt.identifier.value, "(01)06901234567892");
    assert_eq!(gbt.origin, Some(GbtOrigin::GdsPath.as_str()));
}

#[test]
fn passes_through_15459_urns() {
    let iso = parse_carrier("urn:iso:std:iso-iec:15459:unidpp:inst:84120099012345").unwrap();
    assert_eq!(iso.identifier.scheme, "iso-15459");
    assert_eq!(
        iso.identifier.key(),
        "iso-15459:urn:iso:std:iso-iec:15459:unidpp:inst:84120099012345"
    );
    assert!(parse_carrier("garbage").is_none());
    assert!(parse_carrier("urn:iso:std:iso-iec:15459").is_none());
}

#[test]
fn classification_distinguishes_invalid_from_unrecognized() {
    // A bad check digit in a GDS path is a syntax error.
    assert!(matches!(
        classify_carrier("https://gds.example.cn/g/6901234567893"),
        CarrierLookup::Invalid
    ));
    // A bad check digit in a bare EAN-13 is a syntax error.
    assert!(matches!(classify_carrier("6901234567893"), CarrierLookup::Invalid));
    // A URL shaped like a Digital Link with a bad check digit is a custom
    // code: it parses and resolves as unknown.
    assert!(matches!(
        classify_carrier("https://id.example.com/01/09506000134353"),
        CarrierLookup::Parsed(_)
    ));
    assert!(matches!(
        classify_carrier("https://example.org/wiki/Page"),
        CarrierLookup::Parsed(_)
    ));
    assert!(matches!(classify_carrier("hello world"), CarrierLookup::Unrecognized));
}

#[test]
fn identifier_param_forms() {
    let a = parse_identifier_param("gs1:(01)09506000134352(21)8765").unwrap();
    let b = parse_identifier_param("(01)09506000134352(21)8765").unwrap();
    let c = parse_identifier_param("6901234567892").unwrap();
    let d = parse_identifier_param("iso-15459:urn:iso:std:iso-iec:15459:unidpp:inst:84120099012345")
        .unwrap();
    assert_eq!(a, b);
    assert_eq!(c.value, "(01)06901234567892");
    assert_eq!(c.granularity, "model");
    assert_eq!(d.granularity, "item");
    assert!(parse_identifier_param("(01)09506000134353").is_err());
    assert!(parse_identifier_param("gs1:nope").is_err());
    assert!(parse_identifier_param("").is_err());
}

#[test]
fn gds_path_with_serial_qualifier() {
    let r = parse_gbt33993("https://gds.example.cn/g/6901234567892/AB2026111").unwrap();
    assert_eq!(r.origin, GbtOrigin::GdsPath);
    assert_eq!(r.identifier.value, "(01)06901234567892(21)AB2026111");
    assert_eq!(r.identifier.granularity, "item");
}

#[test]
fn all_numeric_qualifier_is_a_lot() {
    let r = parse_gbt33993("https://gds.example.cn/g/6901234567892/20260901").unwrap();
    assert_eq!(r.identifier.value, "(01)06901234567892(10)20260901");
    assert_eq!(r.identifier.granularity, "batch");
}

#[test]
fn bare_legacy_ean13() {
    let r = parse_gbt33993("6901234567892").unwrap();
    assert_eq!(r.origin, GbtOrigin::LegacyEan13);
    assert_eq!(r.identifier.value, "(01)06901234567892");
    assert_eq!(r.identifier.granularity, "model");
}

#[test]
fn custom_enterprise_codes_keep_their_scheme() {
    let r = parse_gbt33993("https://qr.enterprise.cn/x/MA-2026-8841").unwrap();
    assert_eq!(r.origin, GbtOrigin::CustomCode);
    assert_eq!(r.identifier.scheme, "gbt-33993");
}

#[test]
fn rejects_bad_check_digits() {
    assert!(parse_gbt33993("6901234567893").is_none());
    assert!(parse_gbt33993("https://gds.example.cn/g/6901234567893").is_none());
}

#[test]
fn check_digits() {
    assert_eq!(gs1_check_digit("950600013435"), Some(2));
    assert!(valid_gtin("09506000134352"));
    assert!(!valid_gtin("09506000134353"));
    assert!(valid_gtin("6901234567892"));
    assert!(valid_gtin("4006381333931"));
}

#[test]
fn path_position_ais() {
    let el =
        parse_gs1_digital_link("https://id.example.com/01/09506000134352/21/BP52-000841").unwrap();
    assert_eq!(el.gtin, "09506000134352");
    assert_eq!(el.serial.as_deref(), Some("BP52-000841"));
    let id = to_identifier(&el);
    assert_eq!(id.granularity, "item");
    assert_eq!(id.value, "(01)09506000134352(21)BP52-000841");
}

#[test]
fn query_position_ai_10() {
    let el =
        parse_gs1_digital_link("https://id.example.com/01/09506000134352?10=LOT2026Q3").unwrap();
    assert_eq!(el.lot.as_deref(), Some("LOT2026Q3"));
    assert_eq!(to_identifier(&el).granularity, "batch");
}

#[test]
fn path_and_query_combined() {
    let el =
        parse_gs1_digital_link("https://id.example.com/01/09506000134352/21/8765?10=ABC").unwrap();
    assert_eq!(el.serial.as_deref(), Some("8765"));
    assert_eq!(el.lot.as_deref(), Some("ABC"));
    assert_eq!(canonical_element_string(&el), "(01)09506000134352(10)ABC(21)8765");
}

#[test]
fn rejects_bad_input() {
    assert!(parse_gs1_digital_link("https://id.example.com/01/09506000134353").is_none());
    assert!(parse_gs1_digital_link("https://id.example.com/10/LOT123").is_none());
    assert!(parse_gs1_digital_link("not-a-uri").is_none());
    // A serial that is too long is dropped, and a model-granularity GTIN is
    // left.
    let long = parse_gs1_digital_link(
        "https://id.example.com/01/09506000134352/21/ABCDEFGHIJKLMNOPQRSTUV",
    )
    .unwrap();
    assert_eq!(long.serial, None);
    assert_eq!(to_identifier(&long).granularity, "model");
}

#[test]
fn key_path_form() {
    let segs: Vec<String> =
        ["01", "09506000134352", "21", "8765"].iter().map(|s| s.to_string()).collect();
    let el = parse_key_path(&segs, &[]).unwrap();
    assert_eq!(el.serial.as_deref(), Some("8765"));
    let with_lot = parse_key_path(
        &["01".to_string(), "09506000134352".to_string()],
        &[("10".to_string(), "ABC".to_string())],
    )
    .unwrap();
    assert_eq!(with_lot.lot.as_deref(), Some("ABC"));
}

#[test]
fn a_single_wrong_digit_is_always_found() {
    let good = "09506000134352";
    for place in 0..good.len() {
        for digit in b'0'..=b'9' {
            let mut bytes = good.as_bytes().to_vec();
            if bytes[place] == digit {
                continue;
            }
            bytes[place] = digit;
            let bad = String::from_utf8(bytes).unwrap();
            assert!(!valid_gtin(&bad), "{bad}");
        }
    }
}

#[test]
fn the_check_digit_completes_a_gtin_and_zeros_in_front_keep_it() {
    for data in ["950600013435", "0950600013435", "690123456789", "000000000000"] {
        let digit = gs1_check_digit(data).unwrap();
        let gtin = format!("{data}{digit}");
        assert!(valid_gtin(&gtin), "{gtin}");
    }
    assert!(valid_gtin("06901234567892"));
    assert_eq!(gs1_check_digit("12a"), None);
    assert!(!valid_gtin(""));
    assert!(!valid_gtin("123456789"));
}

#[test]
fn percent_escapes_decode_or_fail() {
    assert_eq!(percent_decode("a%2Fb").as_deref(), Some("a/b"));
    assert_eq!(percent_decode("%C3%A9").as_deref(), Some("\u{e9}"));
    assert_eq!(percent_decode("%C3"), None);
    assert_eq!(percent_decode("%4"), None);
    assert_eq!(percent_decode("%zz"), None);
    assert_eq!(percent_decode("a+b").as_deref(), Some("a+b"));
}

#[test]
fn urls_split_into_origin_segments_and_pairs() {
    let u = split_url("HTTPS://Id.example.com/01/095%2F06//x?10=A+B&&21=c%3Dd").unwrap();
    assert_eq!(u.scheme, "https");
    assert_eq!(u.origin, "https://Id.example.com");
    assert_eq!(u.path_segments, vec!["01", "095/06", "x"]);
    assert_eq!(
        u.query_pairs,
        vec![
            ("10".to_string(), "A B".to_string()),
            ("21".to_string(), "c=d".to_string())
        ]
    );
    assert!(split_url("ftp://x/y").is_none());
    assert!(split_url("https:///y").is_none());
    assert!(split_url("no scheme").is_none());
}

#[test]
fn identifier_keys_name_their_identifiers() {
    for scanned in [
        "https://id.example.com/01/09506000134352/21/8765?10=ABC",
        "https://gds.example.cn/g/6901234567892/20260901",
        "6901234567892",
        "https://qr.enterprise.cn/x/MA-2026-8841",
        "urn:iso:std:iso-iec:15459:unidpp:inst:84120099012345",
    ] {
        let parsed = parse_carrier(scanned).unwrap();
        let again = parse_identifier_param(&parsed.identifier.key()).unwrap();
        assert_eq!(again, parsed.identifier, "{scanned}");
    }
}

#[test]
fn carriers_of_one_gtin_agree() {
    let bare = parse_carrier(" 6901234567892 ").unwrap().identifier;
    let gds = parse_carrier("https://gds.example.cn/g/6901234567892").unwrap().identifier;
    let dl = parse_carrier("https://id.example.com/01/6901234567892").unwrap().identifier;
    assert_eq!(bare, gds);
    assert_eq!(bare, dl);
}

#[test]
fn element_strings_read_back() {
    let el = Gs1ElementString {
        gtin: "09506000134352".to_string(),
        lot: Some("L1".to_string()),
        serial: Some("S/2".to_string()),
    };
    let text = canonical_element_string(&el);
    assert_eq!(text, "(01)09506000134352(10)L1(21)S/2");
    assert_eq!(parse_identifier_param(&text).unwrap(), to_identifier(&el));
}

#[test]
fn paths_classify_like_carriers() {
    let strings = |v: &[&str]| -> Vec<String> { v.iter().map(|s| s.to_string()).collect() };
    match classify_path(&strings(&["g", "6901234567892", "AB1"]), &[]) {
        CarrierLookup::Parsed(p) => assert_eq!(p.identifier.value, "(01)06901234567892(21)AB1"),
        other => panic!("{other:?}"),
    }
    assert!(matches!(
        classify_path(&strings(&["01", "09506000134353"]), &[]),
        CarrierLookup::Invalid
    ));
    assert!(matches!(
        classify_path(&strings(&["wiki", "Page"]), &[]),
        CarrierLookup::Unrecognized
    ));
    assert!(matches!(classify_path(&[], &[]), CarrierLookup::Unrecognized));
    assert!(parse_gds_path(&strings(&["g"])).is_none());
}

#[test]
fn urn_prefixes_are_told_from_urns() {
    assert!(is_iso15459_urn("urn:iso:std:iso-iec:15459:x"));
    assert!(!is_iso15459_urn("urn:iso:std:iso-iec:15459"));
}

#[test]
fn identifier_complaints_say_what_is_wrong() {
    assert!(parse_identifier_param("   ").is_err());
    assert!(parse_identifier_param("(01)09506000134352(99)x").is_err());
    assert!(parse_identifier_param("iso-15459:nonsense").is_err());
    assert!(parse_identifier_param("gbt-33993:nonsense").is_err());
}
