//! `@context` expansion of identity and typing tokens, and the scoped-context refusal.

use oce_cxf::context_scope::collect_refusals;
use oce_cxf::diag::{DiagCode, Diagnostic};
use oce_cxf::dto::{Context, CxfDocument, IriRef, JsonValue, Node, OneOrMany};
use oce_cxf::expand::{expand_document, expand_identity, expand_typing, is_absolute_iri, prefix_table, PrefixTable};

fn table(entries: &[(&str, &str)]) -> PrefixTable {
    let mut table = PrefixTable::new();
    for (term, iri) in entries {
        table.insert(term, iri);
    }
    table
}

fn identity(token: &str, table: &PrefixTable) -> Result<String, Vec<Diagnostic>> {
    let mut token = token.to_owned();
    let mut diags = Vec::new();
    expand_identity(&mut token, "@id", None, table, &mut diags);
    if diags.is_empty() {
        Ok(token)
    } else {
        Err(diags)
    }
}

fn text(s: &str) -> JsonValue {
    JsonValue::Str(s.to_owned())
}

fn map(entries: &[(&str, JsonValue)]) -> Vec<(String, JsonValue)> {
    entries.iter().map(|(k, v)| ((*k).to_owned(), v.clone())).collect()
}

#[test]
fn absolute_identity_tokens_pass_through_byte_identical() {
    let table = table(&[("ex", "http://example.org#")]);
    for token in [
        "http://example.org#MinLoop.con.y",
        "urn:open-control:cxf-export:root",
        "mailto:a@b.example",
    ] {
        assert_eq!(identity(token, &table).unwrap(), token);
    }
}

#[test]
fn curie_with_declared_prefix_expands_to_the_concatenated_iri() {
    let table = table(&[("ex", "http://example.org#"), ("S231", "http://s231#")]);
    assert_eq!(
        identity("ex:MinLoop.con", &table).unwrap(),
        "http://example.org#MinLoop.con"
    );
    let mut typing = "S231:RealInput".to_owned();
    expand_typing(&mut typing, &table);
    assert_eq!(typing, "http://s231#RealInput");
}

#[test]
fn whole_token_term_match_wins_even_without_a_colon() {
    let table = table(&[("degC", "http://qudt.org/vocab/unit/DEG_C")]);
    assert_eq!(
        identity("degC", &table).unwrap(),
        "http://qudt.org/vocab/unit/DEG_C"
    );
}

#[test]
fn whole_token_term_match_wins_over_curie_splitting() {
    let table = table(&[
        ("ex", "http://example.org#"),
        ("ex:special", "http://example.org/special"),
    ]);
    assert_eq!(
        identity("ex:special", &table).unwrap(),
        "http://example.org/special"
    );
}

#[test]
fn unknown_prefix_in_absolute_form_passes_through_as_written() {
    let table = table(&[("ex", "http://example.org#")]);
    assert_eq!(identity("vendor:Thing", &table).unwrap(), "vendor:Thing");
    let mut typing = "vendor:Thing".to_owned();
    expand_typing(&mut typing, &table);
    assert_eq!(typing, "vendor:Thing");
}

#[test]
fn unknown_prefix_without_absolute_form_is_refused_as_relative_iri() {
    let table = table(&[("ex", "http://example.org#")]);
    for token in ["2024:MinLoop.con.y", ":x"] {
        let diags = identity(token, &table).unwrap_err();
        assert_eq!(diags.len(), 1, "{token}: {diags:?}");
        assert_eq!(diags[0].code, DiagCode::RelativeIri);
        assert_eq!(diags[0].subject.as_deref(), Some(token));
        assert!(
            diags[0].message.contains(&format!("`{token}`")) && diags[0].message.contains("@base"),
            "{}",
            diags[0].message
        );
        let mut typing = token.to_owned();
        expand_typing(&mut typing, &table);
        assert_eq!(typing, token);
    }
}

#[test]
fn a_spelling_refused_as_a_binding_is_refused_as_an_identity_token() {
    for spelling in ["1st:x", "2024:x", ":x"] {
        let mut binding_diags = Vec::new();
        let context = Context::PrefixMap(map(&[("ex", text(spelling))]));
        prefix_table(&context, &mut binding_diags);
        assert_eq!(binding_diags.len(), 1, "{spelling}: {binding_diags:?}");
        assert_eq!(binding_diags[0].code, DiagCode::NonSubsetConstruct);
        let identity_diags = identity(spelling, &table(&[])).unwrap_err();
        assert_eq!(identity_diags.len(), 1, "{spelling}: {identity_diags:?}");
        assert_eq!(identity_diags[0].code, DiagCode::RelativeIri);
    }
}

#[test]
fn export_root_urn_needs_no_binding_to_survive_byte_identical() {
    assert_eq!(
        identity("urn:open-control:cxf-export:root", &table(&[])).unwrap(),
        "urn:open-control:cxf-export:root"
    );
}

#[test]
fn declaring_the_prefix_rescues_a_scheme_invalid_compact_token() {
    let table = table(&[("2024", "http://example.org#")]);
    assert_eq!(
        identity("2024:MinLoop.con.y", &table).unwrap(),
        "http://example.org#MinLoop.con.y"
    );
}

#[test]
fn double_slash_suffix_stays_verbatim_without_a_scheme_check() {
    let table = table(&[("ex", "http://example.org#")]);
    for token in ["1st://x", "://x"] {
        assert_eq!(identity(token, &table).unwrap(), token);
    }
}

#[test]
fn double_slash_suffix_is_never_treated_as_a_curie() {
    let table = table(&[("http", "http://trap.example/")]);
    assert_eq!(
        identity("http://example.org#A", &table).unwrap(),
        "http://example.org#A"
    );
}

#[test]
fn at_keyword_context_entries_are_skipped_not_refused() {
    let mut diags = Vec::new();
    let context = Context::PrefixMap(map(&[
        ("@version", JsonValue::Number("1.1".to_owned())),
        ("@protected", JsonValue::Bool(true)),
        ("ex", text("http://example.org#")),
    ]));
    let table = prefix_table(&context, &mut diags);
    assert!(diags.is_empty(), "keywords must not refuse: {diags:?}");
    assert_eq!(table.len(), 1);
    assert_eq!(table.get("ex"), Some("http://example.org#"));
}

#[test]
fn non_string_context_term_is_refused_as_malformed_document() {
    let mut diags = Vec::new();
    let context = Context::PrefixMap(map(&[(
        "ex",
        JsonValue::Object(map(&[("@id", text("http://example.org#"))])),
    )]));
    prefix_table(&context, &mut diags);
    assert_eq!(diags.len(), 1);
    assert_eq!(diags[0].code, DiagCode::MalformedDocument);
    assert_eq!(diags[0].subject.as_deref(), Some("ex"));
    assert_eq!(
        diags[0].message,
        "@context term `ex` must map to a simple string IRI, got `{\"@id\":\"http://example.org#\"}`"
    );
}

#[test]
fn list_of_maps_merges_in_order_with_later_bindings_winning() {
    let context = Context::List(vec![
        JsonValue::Object(map(&[
            ("S231", text("http://s231#")),
            ("ex", text("http://first.example#")),
        ])),
        JsonValue::Object(map(&[("ex", text("http://second.example#"))])),
    ]);
    let mut diags = Vec::new();
    let table = prefix_table(&context, &mut diags);
    assert!(diags.is_empty(), "{diags:?}");
    assert_eq!(table.get("ex"), Some("http://second.example#"));
    assert_eq!(table.get("S231"), Some("http://s231#"));
}

#[test]
fn remote_context_references_are_refused_in_both_shapes() {
    for context in [
        Context::Iri("http://example.org/context.jsonld".to_owned()),
        Context::List(vec![
            JsonValue::Object(map(&[("ex", text("http://example.org#"))])),
            text("http://example.org/context.jsonld"),
        ]),
    ] {
        let mut diags = Vec::new();
        prefix_table(&context, &mut diags);
        assert_eq!(diags.len(), 1, "{diags:?}");
        assert_eq!(diags[0].code, DiagCode::NonSubsetConstruct);
        assert_eq!(
            diags[0].subject.as_deref(),
            Some("http://example.org/context.jsonld")
        );
        assert!(diags[0].message.contains("remote"), "{}", diags[0].message);
    }
}

#[test]
fn base_and_vocab_context_keywords_are_refused_naming_the_keyword() {
    for keyword in ["@base", "@vocab"] {
        let mut diags = Vec::new();
        let context = Context::PrefixMap(map(&[
            (keyword, text("http://example.org/")),
            ("ex", text("http://example.org#")),
        ]));
        prefix_table(&context, &mut diags);
        assert_eq!(diags.len(), 1, "{keyword}: {diags:?}");
        assert_eq!(diags[0].code, DiagCode::NonSubsetConstruct);
        assert_eq!(diags[0].subject.as_deref(), Some(keyword));
        assert!(diags[0].message.contains(keyword), "{}", diags[0].message);
    }
}

#[test]
fn non_absolute_prefix_bindings_are_refused_naming_the_term() {
    for value in ["", "example.org/", "../up#", "1st:x"] {
        let mut diags = Vec::new();
        let context = Context::PrefixMap(map(&[("ex", text(value))]));
        prefix_table(&context, &mut diags);
        assert_eq!(diags.len(), 1, "{value:?}: {diags:?}");
        assert_eq!(diags[0].code, DiagCode::NonSubsetConstruct);
        assert_eq!(diags[0].subject.as_deref(), Some("ex"));
        assert!(
            diags[0].message.contains("absolute IRI") && diags[0].message.contains("ex"),
            "{}",
            diags[0].message
        );
    }
}

#[test]
fn absolute_prefix_bindings_pass_the_scheme_predicate() {
    for value in ["http://example.org#", "urn:oce:names#", "S231:x"] {
        let mut diags = Vec::new();
        let context = Context::PrefixMap(map(&[("ex", text(value))]));
        let table = prefix_table(&context, &mut diags);
        assert!(diags.is_empty(), "{value:?}: {diags:?}");
        assert_eq!(table.get("ex"), Some(value));
    }
}

fn reference(id: &str) -> IriRef {
    IriRef { id: id.to_owned(), other: Vec::new() }
}

fn document(context: Context, graph: Vec<Node>) -> CxfDocument {
    CxfDocument { context, graph, other: Vec::new() }
}

fn ex_context() -> Context {
    Context::PrefixMap(map(&[("ex", text("http://example.org#"))]))
}

#[test]
fn has_constant_references_expand_like_every_other_identity_slot() {
    let node = Node {
        id: "ex:M".to_owned(),
        has_constant: OneOrMany::Many(vec![reference("ex:M.limit")]),
        ..Node::default()
    };
    let expanded = expand_document(document(ex_context(), vec![node])).expect("document expands");
    assert_eq!(
        expanded.graph[0].has_constant.as_slice()[0].id,
        "http://example.org#M.limit"
    );
}

#[test]
fn has_instance_references_expand_like_every_other_identity_slot() {
    let node = Node {
        id: "ex:M".to_owned(),
        has_instance: OneOrMany::Many(vec![reference("ex:M.member")]),
        ..Node::default()
    };
    let expanded = expand_document(document(ex_context(), vec![node])).expect("document expands");
    assert_eq!(
        expanded.graph[0].has_instance.as_slice()[0].id,
        "http://example.org#M.member"
    );
}

#[test]
fn relative_identity_token_is_refused_and_relative_typing_token_is_not() {
    let table = table(&[("ex", "http://example.org#")]);
    let diags = identity("MinLoop", &table).unwrap_err();
    assert_eq!(diags.len(), 1);
    assert_eq!(diags[0].code, DiagCode::RelativeIri);
    assert!(diags[0].message.contains("`MinLoop`"), "{}", diags[0].message);
    assert_eq!(diags[0].subject.as_deref(), Some("MinLoop"));
    let mut typing = "MinLoop".to_owned();
    expand_typing(&mut typing, &table);
    assert_eq!(typing, "MinLoop");
}

#[test]
fn relative_reference_names_its_slot_owner_and_token() {
    let table = table(&[]);
    let mut token = "gain.u".to_owned();
    let mut diags = Vec::new();
    expand_identity(
        &mut token,
        "S231:isConnectedTo",
        Some("http://example.org#M.con.y"),
        &table,
        &mut diags,
    );
    assert_eq!(diags.len(), 1);
    assert_eq!(diags[0].code, DiagCode::RelativeIri);
    assert!(
        diags[0].message.contains("S231:isConnectedTo")
            && diags[0].message.contains("`gain.u`")
            && diags[0].message.contains("http://example.org#M.con.y"),
        "{}",
        diags[0].message
    );
    assert_eq!(diags[0].subject.as_deref(), Some("http://example.org#M.con.y"));
}

#[test]
fn empty_id_is_left_for_the_resolver_missing_connector_id_arm() {
    let table = table(&[]);
    assert_eq!(identity("", &table).unwrap(), "");
}

// ---- own checks ----

#[test]
fn the_scheme_predicate_follows_rfc_3986() {
    assert!(is_absolute_iri("http://x"));
    assert!(is_absolute_iri("a+b-c.d:x"));
    assert!(!is_absolute_iri("noscheme"));
    assert!(!is_absolute_iri(":x"));
    assert!(!is_absolute_iri("1st:x"));
    assert!(!is_absolute_iri("a_b:x"));
}

#[test]
fn context_refusals_return_alone_before_any_slot_is_inspected() {
    let node = Node { id: "relative".to_owned(), ..Node::default() };
    let context = Context::PrefixMap(map(&[("@vocab", text("http://example.org/"))]));
    let diags = expand_document(document(context, vec![node])).unwrap_err();
    assert_eq!(diags.len(), 1);
    assert_eq!(diags[0].code, DiagCode::NonSubsetConstruct);
    assert_eq!(
        diags[0].message,
        "@context declares `@vocab`, which changes identity semantics this engine does not implement; write prefix terms or absolute IRIs instead"
    );
}

#[test]
fn every_relative_reference_of_every_node_is_reported_in_order() {
    let a = Node {
        id: "ex:A".to_owned(),
        has_input: OneOrMany::One(reference("in1")),
        is_connected_to: OneOrMany::Many(vec![reference("ex:B"), reference("bad")]),
        types: Some(OneOrMany::One("ex:Gain".to_owned())),
        ..Node::default()
    };
    let b = Node { id: "B".to_owned(), ..Node::default() };
    let diags = expand_document(document(ex_context(), vec![a, b])).unwrap_err();
    let messages: Vec<&str> = diags.iter().map(|d| d.message.as_str()).collect();
    assert_eq!(
        messages,
        vec![
            "S231:hasInput reference `in1` on node `http://example.org#A` is a relative IRI reference and the document declares no @base to resolve it against",
            "S231:isConnectedTo reference `bad` on node `http://example.org#A` is a relative IRI reference and the document declares no @base to resolve it against",
            "@id `B` is a relative IRI reference and the document declares no @base to resolve it against",
        ]
    );
}

#[test]
fn a_clean_document_expands_typing_and_keeps_the_payload() {
    let node = Node {
        id: "ex:M".to_owned(),
        types: Some(OneOrMany::Many(vec!["ex:Kind".to_owned(), "junk".to_owned()])),
        is_of_data_type: Some(reference("ex:Real")),
        size_dims: Some("(2)".to_owned()),
        ..Node::default()
    };
    let expanded = expand_document(document(ex_context(), vec![node])).expect("document expands");
    let m = &expanded.graph[0];
    assert_eq!(m.id, "http://example.org#M");
    assert_eq!(
        m.types,
        Some(OneOrMany::Many(vec!["http://example.org#Kind".to_owned(), "junk".to_owned()]))
    );
    assert_eq!(m.is_of_data_type.as_ref().map(|r| r.id.as_str()), Some("http://example.org#Real"));
    assert_eq!(m.size_dims.as_deref(), Some("(2)"));
}

#[test]
fn scoped_contexts_are_refused_on_nodes_and_references() {
    let scoped = vec![("@context".to_owned(), JsonValue::Object(Vec::new()))];
    let first = Node {
        id: String::new(),
        other: scoped.clone(),
        ..Node::default()
    };
    let second = Node {
        id: "ex:M".to_owned(),
        has_parameter: OneOrMany::One(IriRef { id: "ex:M.k".to_owned(), other: scoped.clone() }),
        is_of_data_type: Some(IriRef { id: "ex:T".to_owned(), other: scoped }),
        ..Node::default()
    };
    let mut diags = Vec::new();
    collect_refusals(&document(ex_context(), vec![first, second]), &mut diags);
    assert_eq!(diags.len(), 3);
    assert_eq!(diags[0].subject.as_deref(), Some("@graph[0]"));
    assert_eq!(
        diags[0].message,
        "node at `@graph[0]` declares a scoped `@context`; node-scoped contexts are not supported; declare required bindings in the document-level `@context`"
    );
    assert_eq!(
        diags[1].message,
        "S231:hasParameter reference `ex:M.k` on node `ex:M` declares a scoped `@context`; node-scoped contexts are not supported; declare required bindings in the document-level `@context`"
    );
    assert!(diags[2].message.starts_with("S231:isOfDataType reference `ex:T` on node `ex:M`"));
    assert!(diags.iter().all(|d| d.code == DiagCode::NonSubsetConstruct));
}

#[test]
fn nested_compact_context_bindings_are_refused_before_identity_expansion() {
    for context in [
        Context::PrefixMap(map(&[("alias", text("ex:A")), ("ex", text("http://example.org#"))])),
        Context::List(vec![
            JsonValue::Object(map(&[("ex", text("http://example.org#"))])),
            JsonValue::Object(map(&[("alias", text("ex:A"))])),
        ]),
    ] {
        let mut diags = Vec::new();
        prefix_table(&context, &mut diags);
        assert_eq!(diags.len(), 1, "{diags:?}");
        assert_eq!(diags[0].code, DiagCode::NonSubsetConstruct);
        assert_eq!(diags[0].subject.as_deref(), Some("alias"));
        assert_eq!(
            diags[0].message,
            "@context term `alias` binds the nested compact IRI `ex:A` through prefix `ex`; \
             nested compact-IRI term definitions are not supported — bind the expanded absolute \
             IRI instead"
        );
    }
}

#[test]
fn declared_scheme_does_not_capture_double_slash_context_values() {
    let context = Context::PrefixMap(map(&[
        ("alias", text("http://example.org#A")),
        ("http", text("http://trap.example/")),
    ]));
    let mut diags = Vec::new();
    let table = prefix_table(&context, &mut diags);
    assert!(diags.is_empty(), "{diags:?}");
    assert_eq!(table.get("alias"), Some("http://example.org#A"));
}

#[test]
fn large_flat_context_preserves_every_binding() {
    let entries: Vec<(String, JsonValue)> =
        (0..50_000).map(|index| (format!("p{index:05}"), text("urn:x"))).collect();
    let context = Context::PrefixMap(entries);
    let mut diags = Vec::new();
    let table = prefix_table(&context, &mut diags);
    assert!(diags.is_empty(), "{diags:?}");
    assert_eq!(table.len(), 50_000);
    assert_eq!(table.get("p49999"), Some("urn:x"));
}
