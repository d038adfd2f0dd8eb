//! The discovery document (`/.well-known/unidpp-resolver`): the identifier
//! keys, carrier syntaxes, link types and context dimensions that a resolver
//! supports. Registered identifiers are never part of it.

use vstd::prelude::*;

use crate::config::{Config, ConfigView};
use crate::json;
use crate::json::{Json, JsonValue, put, put_text, text_array};
use crate::negotiate;
use crate::negotiate::ACCEPT_CONTEXTS;
use crate::reply;
use crate::reply::{Reply, pretty_reply};
use crate::text;

verus! {

/// An object without fields.
pub open spec fn no_fields() -> Map<Seq<char>, JsonValue> {
    Map::empty()
}

/// A string value.
pub open spec fn text_json(s: Seq<char>) -> JsonValue {
    JsonValue::Str(s)
}

fn no_field_list() -> (r: Vec<(String, Json)>)
    ensures
        json::fields_model(r@) == no_fields(),
        forall|n: nat| #[trigger] json::fields_printable(json::fields_model(r@), n),
{
    let r: Vec<(String, Json)> = Vec::new();
    assert(json::fields_model(r@) =~= no_fields());
    r
}

/// The link parameters of a linkset document.
pub open spec fn linkset_parameters() -> JsonValue {
    JsonValue::Object(
        no_fields()
            .insert("anchor"@, text_json("identifier (15459 URN, GB/T URL, or canonical GS1 element string)"@))
            .insert("uri"@, text_json("target href"@))
            .insert("rel"@, text_json("linkType"@))
            .insert("hreflang"@, text_json("languages (\"*\" = any)"@))
            .insert("unidpp:profile"@, text_json("profile context (\"*\" = any)"@))
            .insert("unidpp:role"@, text_json("verifier role (\"*\" = any)"@))
            .insert("unidpp:region"@, text_json("request region (\"*\" = any)"@))
            .insert("unidpp:as-of"@, text_json("RFC 3339 validity start"@))
            .insert("unidpp:expiry"@, text_json("RFC 3339 validity end (absent = open)"@)),
    )
}

/// No key of the objects printed here begins with `$`.
proof fn lemma_keys_are_plain()
    ensures
        json::is_plain_key("anchor"@),
        json::is_plain_key("uri"@),
        json::is_plain_key("rel"@),
        json::is_plain_key("hreflang"@),
        json::is_plain_key("unidpp:profile"@),
        json::is_plain_key("unidpp:role"@),
        json::is_plain_key("unidpp:region"@),
        json::is_plain_key("unidpp:as-of"@),
        json::is_plain_key("unidpp:expiry"@),
        json::is_plain_key("mediaType"@),
        json::is_plain_key("specification"@),
        json::is_plain_key("parameters"@),
        json::is_plain_key("schemes"@),
        json::is_plain_key("gs1ApplicationIdentifiers"@),
        json::is_plain_key("gs1CheckDigit"@),
        json::is_plain_key("carrierSyntaxes"@),
        json::is_plain_key("profile"@),
        json::is_plain_key("role"@),
        json::is_plain_key("language"@),
        json::is_plain_key("region"@),
        json::is_plain_key("exactMatch"@),
        json::is_plain_key("primarySubtagFallback"@),
        json::is_plain_key("specificLinkWithoutRequestContext"@),
        json::is_plain_key("wildcard"@),
        json::is_plain_key("tieBreak"@),
        json::is_plain_key("dimensions"@),
        json::is_plain_key("languageTags"@),
        json::is_plain_key("queryParameters"@),
        json::is_plain_key("specificity"@),
        json::is_plain_key("default"@),
        json::is_plain_key("allKeyword"@),
        json::is_plain_key("queryParameter"@),
        json::is_plain_key("queryForm"@),
        json::is_plain_key("pathForm"@),
        json::is_plain_key("redirectForm"@),
        json::is_plain_key("normalize"@),
        json::is_plain_key("format"@),
        json::is_plain_key("responseHeader"@),
        json::is_plain_key("header"@),
        json::is_plain_key("redirect"@),
        json::is_plain_key("unknownIdentifier"@),
        json::is_plain_key("darkIdentifier"@),
        json::is_plain_key("identifierListing"@),
        json::is_plain_key("context"@),
        json::is_plain_key("rule"@),
        json::is_plain_key("mediaTypes"@),
        json::is_plain_key("enabled"@),
        json::is_plain_key("cacheTtlSeconds"@),
        json::is_plain_key("staleServingOnOutage"@),
        json::is_plain_key("cacheHeader"@),
        json::is_plain_key("asOfStampHeader"@),
        json::is_plain_key("service"@),
        json::is_plain_key("version"@),
        json::is_plain_key("build_id"@),
        json::is_plain_key("linkset"@),
        json::is_plain_key("identifierKeys"@),
        json::is_plain_key("contextRouting"@),
        json::is_plain_key("linkTypes"@),
        json::is_plain_key("contentNegotiation"@),
        json::is_plain_key("entryPoints"@),
        json::is_plain_key("asOf"@),
        json::is_plain_key("defaultLinkRule"@),
        json::is_plain_key("nationalIntermediary"@),
        json::is_plain_key("enumerationResistance"@),
{
    reveal_strlit("anchor");
    reveal_strlit("uri");
    reveal_strlit("rel");
    reveal_strlit("hreflang");
    reveal_strlit("unidpp:profile");
    reveal_strlit("unidpp:role");
    reveal_strlit("unidpp:region");
    reveal_strlit("unidpp:as-of");
    reveal_strlit("unidpp:expiry");
    reveal_strlit("mediaType");
    reveal_strlit("specification");
    reveal_strlit("parameters");
    reveal_strlit("schemes");
    reveal_strlit("gs1ApplicationIdentifiers");
    reveal_strlit("gs1CheckDigit");
    reveal_strlit("carrierSyntaxes");
    reveal_strlit("profile");
    reveal_strlit("role");
    reveal_strlit("language");
    reveal_strlit("region");
    reveal_strlit("exactMatch");
    reveal_strlit("primarySubtagFallback");
    reveal_strlit("specificLinkWithoutRequestContext");
    reveal_strlit("wildcard");
    reveal_strlit("tieBreak");
    reveal_strlit("dimensions");
    reveal_strlit("languageTags");
    reveal_strlit("queryParameters");
    reveal_strlit("specificity");
    reveal_strlit("default");
    reveal_strlit("allKeyword");
    reveal_strlit("queryParameter");
    reveal_strlit("queryForm");
    reveal_strlit("pathForm");
    reveal_strlit("redirectForm");
    reveal_strlit("normalize");
    reveal_strlit("format");
    reveal_strlit("responseHeader");
    reveal_strlit("header");
    reveal_strlit("redirect");
    reveal_strlit("unknownIdentifier");
    reveal_strlit("darkIdentifier");
    reveal_strlit("identifierListing");
    reveal_strlit("context");
    reveal_strlit("rule");
    reveal_strlit("mediaTypes");
    reveal_strlit("enabled");
    reveal_strlit("cacheTtlSeconds");
    reveal_strlit("staleServingOnOutage");
    reveal_strlit("cacheHeader");
    reveal_strlit("asOfStampHeader");
    reveal_strlit("service");
    reveal_strlit("version");
    reveal_strlit("build_id");
    reveal_strlit("linkset");
    reveal_strlit("identifierKeys");
    reveal_strlit("contextRouting");
    reveal_strlit("linkTypes");
    reveal_strlit("contentNegotiation");
    reveal_strlit("entryPoints");
    reveal_strlit("asOf");
    reveal_strlit("defaultLinkRule");
    reveal_strlit("nationalIntermediary");
    reveal_strlit("enumerationResistance");
}

fn build_linkset_parameters() -> (r: Json)
    ensures
        r@ == linkset_parameters(),
        json::is_printable(r@, 1),
{
    broadcast use json::lemma_put_printable;

    proof {
        lemma_keys_are_plain();
    }

    let mut f = no_field_list();
    put_text(&mut f, "anchor", "identifier (15459 URN, GB/T URL, or canonical GS1 element string)");
    assert(json::fields_printable(json::fields_model(f@), 0));
    put_text(&mut f, "uri", "target href");
    assert(json::fields_printable(json::fields_model(f@), 0));
    put_text(&mut f, "rel", "linkType");
    assert(json::fields_printable(json::fields_model(f@), 0));
    put_text(&mut f, "hreflang", "languages (\"*\" = any)");
    assert(json::fields_printable(json::fields_model(f@), 0));
    put_text(&mut f, "unidpp:profile", "profile context (\"*\" = any)");
    assert(json::fields_printable(json::fields_model(f@), 0));
    put_text(&mut f, "unidpp:role", "verifier role (\"*\" = any)");
    assert(json::fields_printable(json::fields_model(f@), 0));
    put_text(&mut f, "unidpp:region", "request region (\"*\" = any)");
    assert(json::fields_printable(json::fields_model(f@), 0));
    put_text(&mut f, "unidpp:as-of", "RFC 3339 validity start");
    assert(json::fields_printable(json::fields_model(f@), 0));
    put_text(&mut f, "unidpp:expiry", "RFC 3339 validity end (absent = open)");
    assert(json::fields_printable(json::fields_model(f@), 0));
    Json::Object(f)
}

/// The linkset format.
pub open spec fn linkset_section() -> JsonValue {
    JsonValue::Object(
        no_fields()
            .insert("mediaType"@, text_json("application/linkset+json"@))
            .insert("specification"@, text_json("https://www.rfc-editor.org/rfc/rfc9264"@))
            .insert("parameters"@, linkset_parameters()),
    )
}

fn build_linkset_section() -> (r: Json)
    ensures
        r@ == linkset_section(),
        json::is_printable(r@, 2),
{
    broadcast use json::lemma_put_printable;

    proof {
        lemma_keys_are_plain();
    }

    let mut f = no_field_list();
    put_text(&mut f, "mediaType", "application/linkset+json");
    assert(json::fields_printable(json::fields_model(f@), 1));
    put_text(&mut f, "specification", "https://www.rfc-editor.org/rfc/rfc9264");
    assert(json::fields_printable(json::fields_model(f@), 1));
    let part = build_linkset_parameters();
    put(&mut f, "parameters", part);
    assert(json::fields_printable(json::fields_model(f@), 1));
    Json::Object(f)
}

/// The identifier keys and the carrier syntaxes.
pub open spec fn identifier_section() -> JsonValue {
    JsonValue::Object(
        no_fields()
            .insert("schemes"@, json::text_items(seq!["gs1"@, "gbt-33993"@, "iso-15459"@]))
            .insert("gs1ApplicationIdentifiers"@, json::text_items(seq!["01"@, "10"@, "21"@]))
            .insert("gs1CheckDigit"@, JsonValue::Bool(true))
            .insert("carrierSyntaxes"@, json::text_items(seq!["gs1-digital-link-uri"@, "gs1-application-identifier-path"@, "gbt-33993-gds-path"@, "gbt-33993-custom-code"@, "legacy-ean13"@, "iso-15459-urn"@])),
    )
}

fn build_identifier_section() -> (r: Json)
    ensures
        r@ == identifier_section(),
        json::is_printable(r@, 2),
{
    broadcast use json::lemma_put_printable;

    proof {
        lemma_keys_are_plain();
    }

    let mut f = no_field_list();
    let mut list: Vec<String> = Vec::new();
    list.push("gs1".to_string());
    list.push("gbt-33993".to_string());
    list.push("iso-15459".to_string());
    assert(text::strings(list@) =~= seq!["gs1"@, "gbt-33993"@, "iso-15459"@]);
    proof {
        json::lemma_text_items_printable(text::strings(list@), 1);
    }
    put(&mut f, "schemes", text_array(&list));
    assert(json::fields_printable(json::fields_model(f@), 1));
    let mut list: Vec<String> = Vec::new();
    list.push("01".to_string());
    list.push("10".to_string());
    list.push("21".to_string());
    assert(text::strings(list@) =~= seq!["01"@, "10"@, "21"@]);
    proof {
        json::lemma_text_items_printable(text::strings(list@), 1);
    }
    put(&mut f, "gs1ApplicationIdentifiers", text_array(&list));
    assert(json::fields_printable(json::fields_model(f@), 1));
    put(&mut f, "gs1CheckDigit", Json::Bool(true));
    assert(json::fields_printable(json::fields_model(f@), 1));
    let mut list: Vec<String> = Vec::new();
    list.push("gs1-digital-link-uri".to_string());
    list.push("gs1-application-identifier-path".to_string());
    list.push("gbt-33993-gds-path".to_string());
    list.push("gbt-33993-custom-code".to_string());
    list.push("legacy-ean13".to_string());
    list.push("iso-15459-urn".to_string());
    assert(text::strings(list@) =~= seq!["gs1-digital-link-uri"@, "gs1-application-identifier-path"@, "gbt-33993-gds-path"@, "gbt-33993-custom-code"@, "legacy-ean13"@, "iso-15459-urn"@]);
    proof {
        json::lemma_text_items_printable(text::strings(list@), 1);
    }
    put(&mut f, "carrierSyntaxes", text_array(&list));
    assert(json::fields_printable(json::fields_model(f@), 1));
    Json::Object(f)
}

/// The query parameters of the context dimensions.
pub open spec fn query_parameters() -> JsonValue {
    JsonValue::Object(
        no_fields()
            .insert("profile"@, text_json("profile"@))
            .insert("role"@, text_json("role"@))
            .insert("language"@, text_json("lang"@))
            .insert("region"@, text_json("region"@)),
    )
}

fn build_query_parameters() -> (r: Json)
    ensures
        r@ == query_parameters(),
        json::is_printable(r@, 1),
{
    broadcast use json::lemma_put_printable;

    proof {
        lemma_keys_are_plain();
    }

    let mut f = no_field_list();
    put_text(&mut f, "profile", "profile");
    assert(json::fields_printable(json::fields_model(f@), 0));
    put_text(&mut f, "role", "role");
    assert(json::fields_printable(json::fields_model(f@), 0));
    put_text(&mut f, "language", "lang");
    assert(json::fields_printable(json::fields_model(f@), 0));
    put_text(&mut f, "region", "region");
    assert(json::fields_printable(json::fields_model(f@), 0));
    Json::Object(f)
}

/// The scores of context routing.
pub open spec fn specificity() -> JsonValue {
    JsonValue::Object(
        no_fields()
            .insert("exactMatch"@, JsonValue::Number(4))
            .insert("primarySubtagFallback"@, JsonValue::Number(3))
            .insert("specificLinkWithoutRequestContext"@, JsonValue::Number(2))
            .insert("wildcard"@, JsonValue::Number(1))
            .insert("tieBreak"@, text_json("first-registered wins"@)),
    )
}

fn build_specificity() -> (r: Json)
    ensures
        r@ == specificity(),
        json::is_printable(r@, 1),
{
    broadcast use json::lemma_put_printable;

    proof {
        lemma_keys_are_plain();
    }

    let mut f = no_field_list();
    put(&mut f, "exactMatch", Json::Number(4));
    assert(json::fields_printable(json::fields_model(f@), 0));
    put(&mut f, "primarySubtagFallback", Json::Number(3));
    assert(json::fields_printable(json::fields_model(f@), 0));
    put(&mut f, "specificLinkWithoutRequestContext", Json::Number(2));
    assert(json::fields_printable(json::fields_model(f@), 0));
    put(&mut f, "wildcard", Json::Number(1));
    assert(json::fields_printable(json::fields_model(f@), 0));
    put_text(&mut f, "tieBreak", "first-registered wins");
    assert(json::fields_printable(json::fields_model(f@), 0));
    Json::Object(f)
}

/// The context dimensions and their scoring.
pub open spec fn routing_section() -> JsonValue {
    JsonValue::Object(
        no_fields()
            .insert("dimensions"@, json::text_items(seq!["profile"@, "role"@, "language"@, "region"@]))
            .insert("wildcard"@, text_json("*"@))
            .insert("languageTags"@, text_json("BCP 47, exact match then primary-subtag fallback"@))
            .insert("queryParameters"@, query_parameters())
            .insert("specificity"@, specificity()),
    )
}

fn build_routing_section() -> (r: Json)
    ensures
        r@ == routing_section(),
        json::is_printable(r@, 2),
{
    broadcast use json::lemma_put_printable;

    proof {
        lemma_keys_are_plain();
    }

    let mut f = no_field_list();
    let mut list: Vec<String> = Vec::new();
    list.push("profile".to_string());
    list.push("role".to_string());
    list.push("language".to_string());
    list.push("region".to_string());
    assert(text::strings(list@) =~= seq!["profile"@, "role"@, "language"@, "region"@]);
    proof {
        json::lemma_text_items_printable(text::strings(list@), 1);
    }
    put(&mut f, "dimensions", text_array(&list));
    assert(json::fields_printable(json::fields_model(f@), 1));
    put_text(&mut f, "wildcard", "*");
    assert(json::fields_printable(json::fields_model(f@), 1));
    put_text(&mut f, "languageTags", "BCP 47, exact match then primary-subtag fallback");
    assert(json::fields_printable(json::fields_model(f@), 1));
    let part = build_query_parameters();
    put(&mut f, "queryParameters", part);
    assert(json::fields_printable(json::fields_model(f@), 1));
    let part = build_specificity();
    put(&mut f, "specificity", part);
    assert(json::fields_printable(json::fields_model(f@), 1));
    Json::Object(f)
}

/// The link types.
pub open spec fn link_type_section() -> JsonValue {
    JsonValue::Object(
        no_fields()
            .insert("default"@, text_json("dpp"@))
            .insert("allKeyword"@, text_json("all"@))
            .insert("queryParameter"@, text_json("linkType"@)),
    )
}

fn build_link_type_section() -> (r: Json)
    ensures
        r@ == link_type_section(),
        json::is_printable(r@, 1),
{
    broadcast use json::lemma_put_printable;

    proof {
        lemma_keys_are_plain();
    }

    let mut f = no_field_list();
    put_text(&mut f, "default", "dpp");
    assert(json::fields_printable(json::fields_model(f@), 0));
    put_text(&mut f, "allKeyword", "all");
    assert(json::fields_printable(json::fields_model(f@), 0));
    put_text(&mut f, "queryParameter", "linkType");
    assert(json::fields_printable(json::fields_model(f@), 0));
    Json::Object(f)
}

/// The entry points.
pub open spec fn entry_point_section() -> JsonValue {
    JsonValue::Object(
        no_fields()
            .insert("queryForm"@, text_json("/resolve?carrier=<carrier>|identifier=<normalized>"@))
            .insert("pathForm"@, text_json("/<carrier-key>/linkset (linkset document)"@))
            .insert("redirectForm"@, text_json("/<carrier-key> (303 to the default link)"@))
            .insert("normalize"@, text_json("POST /normalize {\"carrier\": ...}"@)),
    )
}

fn build_entry_point_section() -> (r: Json)
    ensures
        r@ == entry_point_section(),
        json::is_printable(r@, 1),
{
    broadcast use json::lemma_put_printable;

    proof {
        lemma_keys_are_plain();
    }

    let mut f = no_field_list();
    put_text(&mut f, "queryForm", "/resolve?carrier=<carrier>|identifier=<normalized>");
    assert(json::fields_printable(json::fields_model(f@), 0));
    put_text(&mut f, "pathForm", "/<carrier-key>/linkset (linkset document)");
    assert(json::fields_printable(json::fields_model(f@), 0));
    put_text(&mut f, "redirectForm", "/<carrier-key> (303 to the default link)");
    assert(json::fields_printable(json::fields_model(f@), 0));
    put_text(&mut f, "normalize", "POST /normalize {\"carrier\": ...}");
    assert(json::fields_printable(json::fields_model(f@), 0));
    Json::Object(f)
}

/// Resolution as of an instant.
pub open spec fn as_of_section() -> JsonValue {
    JsonValue::Object(
        no_fields()
            .insert("queryParameter"@, text_json("asof"@))
            .insert("format"@, text_json("RFC 3339 UTC"@))
            .insert("responseHeader"@, text_json("X-As-Of"@)),
    )
}

fn build_as_of_section() -> (r: Json)
    ensures
        r@ == as_of_section(),
        json::is_printable(r@, 1),
{
    broadcast use json::lemma_put_printable;

    proof {
        lemma_keys_are_plain();
    }

    let mut f = no_field_list();
    put_text(&mut f, "queryParameter", "asof");
    assert(json::fields_printable(json::fields_model(f@), 0));
    put_text(&mut f, "format", "RFC 3339 UTC");
    assert(json::fields_printable(json::fields_model(f@), 0));
    put_text(&mut f, "responseHeader", "X-As-Of");
    assert(json::fields_printable(json::fields_model(f@), 0));
    Json::Object(f)
}

/// How the default link is announced.
pub open spec fn default_link_section() -> JsonValue {
    JsonValue::Object(
        no_fields()
            .insert("header"@, text_json("Link: <uri>; rel=\"<linkType>\" on linkset responses"@))
            .insert("redirect"@, text_json("303 See Other on the bare path form"@)),
    )
}

fn build_default_link_section() -> (r: Json)
    ensures
        r@ == default_link_section(),
        json::is_printable(r@, 1),
{
    broadcast use json::lemma_put_printable;

    proof {
        lemma_keys_are_plain();
    }

    let mut f = no_field_list();
    put_text(&mut f, "header", "Link: <uri>; rel=\"<linkType>\" on linkset responses");
    assert(json::fields_printable(json::fields_model(f@), 0));
    put_text(&mut f, "redirect", "303 See Other on the bare path form");
    assert(json::fields_printable(json::fields_model(f@), 0));
    Json::Object(f)
}

/// What is not told.
pub open spec fn enumeration_section() -> JsonValue {
    JsonValue::Object(
        no_fields()
            .insert("unknownIdentifier"@, text_json("404"@))
            .insert("darkIdentifier"@, text_json("404 (byte-identical to unknown)"@))
            .insert("identifierListing"@, text_json("none"@)),
    )
}

fn build_enumeration_section() -> (r: Json)
    ensures
        r@ == enumeration_section(),
        json::is_printable(r@, 1),
{
    broadcast use json::lemma_put_printable;

    proof {
        lemma_keys_are_plain();
    }

    let mut f = no_field_list();
    put_text(&mut f, "unknownIdentifier", "404");
    assert(json::fields_printable(json::fields_model(f@), 0));
    put_text(&mut f, "darkIdentifier", "404 (byte-identical to unknown)");
    assert(json::fields_printable(json::fields_model(f@), 0));
    put_text(&mut f, "identifierListing", "none");
    assert(json::fields_printable(json::fields_model(f@), 0));
    Json::Object(f)
}

/// One row of the negotiation table.
pub open spec fn row_json(row: (Seq<char>, Seq<char>)) -> JsonValue {
    JsonValue::Object(
        no_fields().insert("mediaType"@, text_json(row.0)).insert(
            "context"@,
            text_json("role="@ + row.1),
        ),
    )
}

/// How content is negotiated.
pub open spec fn negotiation_section() -> JsonValue {
    JsonValue::Object(
        no_fields().insert("header"@, text_json("Accept"@)).insert(
            "rule"@,
            text_json(
                "the most preferred offered media type routes the default link when the request carries no explicit context parameters"@,
            ),
        ).insert(
            "mediaTypes"@,
            JsonValue::Array(negotiate::accept_table().map_values(|row: (Seq<char>, Seq<char>)| row_json(row))),
        ),
    )
}

fn build_row(media_type: &str, role: &str) -> (r: Json)
    ensures
        r@ == row_json((media_type@, role@)),
        json::is_printable(r@, 1),
{
    broadcast use json::lemma_put_printable;

    proof {
        lemma_keys_are_plain();
    }

    let mut f = no_field_list();
    put_text(&mut f, "mediaType", media_type);
    assert(json::fields_printable(json::fields_model(f@), 0));
    let mut s = String::new();
    s.push_str("role=");
    s.push_str(role);
    assert(s@ =~= "role="@ + role@);
    put_text(&mut f, "context", s.as_str());
    assert(json::fields_printable(json::fields_model(f@), 0));
    Json::Object(f)
}

fn build_negotiation_section() -> (r: Json)
    ensures
        r@ == negotiation_section(),
        json::is_printable(r@, 3),
{
    broadcast use json::lemma_put_printable;

    proof {
        lemma_keys_are_plain();
    }

    let ghost rows = negotiate::accept_table().map_values(|row: (Seq<char>, Seq<char>)| row_json(row));
    let mut items: Vec<Json> = Vec::new();
    let mut i: usize = 0;
    while i < ACCEPT_CONTEXTS.len()
        invariant
            i <= 3,
            rows == negotiate::accept_table().map_values(|row: (Seq<char>, Seq<char>)| row_json(row)),
            json::items_model(items@) == rows.take(i as int),
            forall|k: int| 0 <= k < i ==> json::is_printable(#[trigger] rows[k], 1),
        decreases 3 - i,
    {
        let ghost had = items@;
        let row = build_row(ACCEPT_CONTEXTS[i].0, ACCEPT_CONTEXTS[i].1);
        assert(row@ == rows[i as int]);
        items.push(row);
        i += 1;
        assert(items@.drop_last() =~= had);
        assert(rows.take(i as int) =~= rows.take(i - 1).push(rows[i - 1]));
    }
    assert(rows.take(i as int) =~= rows);
    let mut f = no_field_list();
    put_text(&mut f, "header", "Accept");
    assert(json::fields_printable(json::fields_model(f@), 2));
    put_text(
        &mut f,
        "rule",
        "the most preferred offered media type routes the default link when the request carries no explicit context parameters",
    );
    assert(json::fields_printable(json::fields_model(f@), 2));
    assert(json::is_printable(JsonValue::Array(rows), 2));
    put(&mut f, "mediaTypes", Json::Array(items));
    assert(json::fields_printable(json::fields_model(f@), 2));
    Json::Object(f)
}

/// The national-intermediary mode of a deployment.
pub open spec fn intermediary_section(config: ConfigView) -> JsonValue {
    JsonValue::Object(
        no_fields().insert("enabled"@, JsonValue::Bool(config.upstream is Some)).insert(
            "cacheTtlSeconds"@,
            seconds_json(config.cache_ttl_secs),
        ).insert("staleServingOnOutage"@, JsonValue::Bool(true)).insert(
            "cacheHeader"@,
            text_json("X-Cache"@),
        ).insert("asOfStampHeader"@, text_json("X-As-Of"@)),
    )
}

/// A number of seconds.
pub open spec fn seconds_json(n: int) -> JsonValue {
    if n >= 0 {
        JsonValue::Number(n as u64)
    } else {
        JsonValue::Negative(n as i64)
    }
}

fn build_intermediary_section(config: &Config) -> (r: Json)
    ensures
        r@ == intermediary_section(config@),
        json::is_printable(r@, 1),
{
    broadcast use json::lemma_put_printable;

    proof {
        lemma_keys_are_plain();
    }

    let mut f = no_field_list();
    put(&mut f, "enabled", Json::Bool(config.upstream.is_some()));
    assert(json::fields_printable(json::fields_model(f@), 0));
    let ttl = if config.cache_ttl_secs >= 0 {
        Json::Number(config.cache_ttl_secs as u64)
    } else {
        Json::Negative(config.cache_ttl_secs)
    };
    put(&mut f, "cacheTtlSeconds", ttl);
    assert(json::fields_printable(json::fields_model(f@), 0));
    put(&mut f, "staleServingOnOutage", Json::Bool(true));
    assert(json::fields_printable(json::fields_model(f@), 0));
    put_text(&mut f, "cacheHeader", "X-Cache");
    assert(json::fields_printable(json::fields_model(f@), 0));
    put_text(&mut f, "asOfStampHeader", "X-As-Of");
    assert(json::fields_printable(json::fields_model(f@), 0));
    Json::Object(f)
}

/// The discovery document of a deployment: its configuration, and the version
/// and the build it runs.
pub open spec fn discovery(
    config: ConfigView,
    version: Seq<char>,
    build_id: Seq<char>,
) -> JsonValue {
    JsonValue::Object(
        no_fields()
            .insert("profile"@, text_json("https://unidpp.org/ns/resolver/1.0"@))
            .insert("service"@, text_json("unidpp-resolver"@))
            .insert("version"@, text_json(version))
            .insert("build_id"@, text_json(build_id))
            .insert("linkset"@, linkset_section())
            .insert("identifierKeys"@, identifier_section())
            .insert("contextRouting"@, routing_section())
            .insert("linkTypes"@, link_type_section())
            .insert("contentNegotiation"@, negotiation_section())
            .insert("entryPoints"@, entry_point_section())
            .insert("asOf"@, as_of_section())
            .insert("defaultLinkRule"@, default_link_section())
            .insert("nationalIntermediary"@, intermediary_section(config))
            .insert("enumerationResistance"@, enumeration_section()),
    )
}

/// The discovery document of a deployment.
pub fn discovery_json(config: &Config, version: &str, build_id: &str) -> (r: Json)
    ensures
        r@ == discovery(config@, version@, build_id@),
        json::is_printable(r@, 127),
{
    broadcast use json::lemma_put_printable;

    proof {
        lemma_keys_are_plain();
    }

    let mut f = no_field_list();
    put_text(&mut f, "profile", "https://unidpp.org/ns/resolver/1.0");
    put_text(&mut f, "service", "unidpp-resolver");
    put_text(&mut f, "version", version);
    put_text(&mut f, "build_id", build_id);
    assert(json::fields_printable(json::fields_model(f@), 126));
    let part = build_linkset_section();
    proof {
        json::lemma_printable_deeper(part@, 2, 126);
    }
    put(&mut f, "linkset", part);
    assert(json::fields_printable(json::fields_model(f@), 126));
    let part = build_identifier_section();
    proof {
        json::lemma_printable_deeper(part@, 2, 126);
    }
    put(&mut f, "identifierKeys", part);
    assert(json::fields_printable(json::fields_model(f@), 126));
    let part = build_routing_section();
    proof {
        json::lemma_printable_deeper(part@, 2, 126);
    }
    put(&mut f, "contextRouting", part);
    assert(json::fields_printable(json::fields_model(f@), 126));
    let part = build_link_type_section();
    proof {
        json::lemma_printable_deeper(part@, 1, 126);
    }
    put(&mut f, "linkTypes", part);
    assert(json::fields_printable(json::fields_model(f@), 126));
    let part = build_negotiation_section();
    proof {
        json::lemma_printable_deeper(part@, 3, 126);
    }
    put(&mut f, "contentNegotiation", part);
    assert(json::fields_printable(json::fields_model(f@), 126));
    let part = build_entry_point_section();
    proof {
        json::lemma_printable_deeper(part@, 1, 126);
    }
    put(&mut f, "entryPoints", part);
    assert(json::fields_printable(json::fields_model(f@), 126));
    let part = build_as_of_section();
    proof {
        json::lemma_printable_deeper(part@, 1, 126);
    }
    put(&mut f, "asOf", part);
    assert(json::fields_printable(json::fields_model(f@), 126));
    let part = build_default_link_section();
    proof {
        json::lemma_printable_deeper(part@, 1, 126);
    }
    put(&mut f, "defaultLinkRule", part);
    assert(json::fields_printable(json::fields_model(f@), 126));
    let part = build_intermediary_section(config);
    proof {
        json::lemma_printable_deeper(part@, 1, 126);
    }
    put(&mut f, "nationalIntermediary", part);
    assert(json::fields_printable(json::fields_model(f@), 126));
    let part = build_enumeration_section();
    proof {
        json::lemma_printable_deeper(part@, 1, 126);
    }
    put(&mut f, "enumerationResistance", part);
    assert(json::fields_printable(json::fields_model(f@), 126));
    Json::Object(f)
}

/// Reply with the discovery document.
pub fn discovery_reply(config: &Config, version: &str, build_id: &str) -> (r: Reply)
    ensures
        r@ == reply::json_reply(200, json::json_pretty(discovery(config@, version@, build_id@))),
        json::reads_as(r@.body, discovery(config@, version@, build_id@)),
{
    pretty_reply(200, &discovery_json(config, version, build_id))
}

// ---------------------------------------------------------------------------
// Laws
// ---------------------------------------------------------------------------

/// The discovery document declares the intermediary mode exactly where there is
/// an upstream.
pub proof fn law_discovery_declares_the_mode(
    config: ConfigView,
    version: Seq<char>,
    build_id: Seq<char>,
)
    ensures
        json::field(discovery(config, version, build_id), "nationalIntermediary"@) matches Some(s)
            && json::field(s, "enabled"@) == Some(JsonValue::Bool(config.upstream is Some)),
{
    reveal_strlit("nationalIntermediary");
    reveal_strlit("enumerationResistance");
    reveal_strlit("enabled");
    reveal_strlit("cacheTtlSeconds");
    reveal_strlit("staleServingOnOutage");
    reveal_strlit("cacheHeader");
    reveal_strlit("asOfStampHeader");
    assert("nationalIntermediary"@.len() != "enumerationResistance"@.len());
    assert("enabled"@.len() == 7);
}

} // verus!
