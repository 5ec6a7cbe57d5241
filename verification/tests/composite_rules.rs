//! Composite contract-rule catalog: identity uniqueness, shape and rendering.

use std::collections::BTreeSet;

use oce_cxf::composite_rules::{composite_rules, render_catalog, RuleKind};
use oce_cxf::diag::DiagCode;
use serde_json::Value as JsonValue;

#[test]
fn rule_ids_and_message_prefixes_are_unique_and_kebab_case() {
    let rules = composite_rules();
    let ids: Vec<&str> = rules.iter().map(|rule| rule.id).collect();
    let unique_ids: BTreeSet<&str> = ids.iter().copied().collect();
    assert_eq!(unique_ids.len(), ids.len(), "rule ids must be unique: {ids:?}");

    let prefixes: Vec<String> = rules.iter().map(|rule| rule.message_prefix()).collect();
    let unique_prefixes: BTreeSet<&String> = prefixes.iter().collect();
    assert_eq!(
        unique_prefixes.len(),
        prefixes.len(),
        "message prefixes must be unique: {prefixes:?}"
    );

    for rule in &rules {
        assert!(
            !rule.id.is_empty()
                && rule
                    .id
                    .chars()
                    .all(|c| c.is_ascii_lowercase() || c.is_ascii_digit() || c == '-'),
            "rule id must be non-empty kebab-case: {:?}",
            rule.id
        );
        assert_eq!(
            rule.message_prefix(),
            format!("composite/{}: ", rule.id),
            "the prefix convention is `composite/<rule-id>: `"
        );
    }
}

#[test]
fn rendered_catalog_parses_and_maps_every_rule_to_its_diag_code() {
    let rules = composite_rules();
    let catalog: JsonValue =
        serde_json::from_str(&render_catalog()).expect("rendered catalog must be valid JSON");
    let entries = catalog.as_object().expect("top-level JSON object");
    assert_eq!(
        entries.len(),
        rules.len(),
        "catalog must carry exactly one entry per contract rule"
    );
    for rule in &rules {
        let entry = entries
            .get(rule.id)
            .unwrap_or_else(|| panic!("catalog entry missing for rule {:?}", rule.id));
        assert_eq!(
            entry["diag_code"],
            JsonValue::String(rule.code.as_str().to_owned()),
            "{}: catalog diag_code must be the emitting DiagCode string",
            rule.id
        );
        assert_eq!(
            entry["message_prefix"],
            JsonValue::String(rule.message_prefix()),
            "{}: catalog message_prefix must match the emission prefix",
            rule.id
        );
        assert!(
            entry["summary"].as_str().is_some_and(|s| !s.is_empty()),
            "{}: catalog summary must be a non-empty string",
            rule.id
        );
    }
}

#[test]
fn tagged_message_rendering_starts_with_the_published_prefix() {
    for rule in &composite_rules() {
        let message = rule.message("detail text");
        assert!(
            message.starts_with(&rule.message_prefix()),
            "{}: message() and message_prefix() must derive from the same id: {message:?}",
            rule.id
        );
        assert_eq!(
            message,
            format!("composite/{}: detail text", rule.id),
            "the tag is a prefix; the remainder stays the human-readable detail"
        );
    }
}

// ---- own checks ----

#[test]
fn repeated_generation_is_byte_identical_and_starts_with_the_first_rule() {
    let catalog = render_catalog();
    assert_eq!(catalog, render_catalog());
    assert!(catalog.starts_with(
        "{\n  \"root-count\": {\n    \"diag_code\": \"MalformedDocument\",\n    \"message_prefix\": \"composite/root-count: \",\n    \"summary\": \"nested classification must select exactly one top composite containsBlock root\"\n  },\n"
    ));
    assert!(catalog.ends_with("\n  }\n}\n"));
}

#[test]
fn a_summary_with_a_quote_is_escaped_in_the_catalog() {
    // The declaration-cycle summary carries an apostrophe, which JSON leaves as it is.
    let catalog = render_catalog();
    assert!(catalog.contains("\"a block's own declarations must not reference each other in a cycle\""));
}

#[test]
fn each_rule_carries_its_published_code() {
    assert_eq!(RuleKind::Replaceable.rule().code, DiagCode::UnresolvedPolymorphism);
    assert_eq!(RuleKind::ArrayInstance.rule().code, DiagCode::NonSubsetConstruct);
    assert_eq!(RuleKind::RootCount.rule().id, "root-count");
    assert_eq!(
        RuleKind::DeclarationCycle.rule().message("x -> x"),
        "composite/declaration-cycle: x -> x"
    );
}
