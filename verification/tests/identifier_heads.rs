use oce_cxf::declaration_scope::identifier_heads;

#[test]
fn numeric_exponent_suffixes_never_yield_identifier_tokens() {
    assert!(identifier_heads("1e-3 + 2E+5 * 10e2").is_empty());
    assert_eq!(identifier_heads("1e-3*k"), vec!["k"]);
}

#[test]
fn qualified_references_do_not_create_scope_dependencies() {
    assert_eq!(
        identifier_heads("Types.Mode.occupied + foo.bar - kBase"),
        vec!["kBase"]
    );
}

#[test]
fn comprehension_sources_use_outer_scope_and_iterators_shadow_the_body() {
    assert_eq!(
        identifier_heads("sum(j + k for j in source)"),
        vec!["source", "k"]
    );
}

#[test]
fn plain_identifiers_tokenize_between_operators_and_literals() {
    assert_eq!(
        identifier_heads("0.01*VMin_flow + max(kA, _b2)"),
        vec!["VMin_flow", "kA", "_b2"],
        "call arguments tokenize; the call head `max` does not"
    );
}

#[test]
fn call_heads_never_yield_identifier_tokens() {
    assert!(identifier_heads("max(1.0, 2.0)").is_empty());
    assert_eq!(identifier_heads("max + 1.0"), vec!["max"]);
    assert_eq!(
        identifier_heads("max (x)"),
        vec!["x"],
        "interior ASCII whitespace still makes `max` a call head; the argument tokenizes"
    );
}

#[test]
fn string_literal_bodies_never_contribute_declaration_heads() {
    for expression in [
        r#""kBase""#,
        r#""Types.Mode.occupied max(x) sibling""#,
        r#""quoted \"sibling\" and \\other""#,
        r#""non-ASCII sibling: Δ""#,
        r#""Trim amount \"triAmo\" and respond amount \"resAmo\" must have opposite signs.""#,
    ] {
        assert!(
            identifier_heads(expression).is_empty(),
            "string contents are not scope lookups: {expression:?}"
        );
    }
    assert_eq!(identifier_heads(r#""shadow" + actual"#), vec!["actual"]);
    assert_eq!(identifier_heads("\"\" + actual"), vec!["actual"]);
    assert_eq!(
        identifier_heads(r#""escaped multibyte \Δ then" + actual"#),
        vec!["actual"]
    );
}

#[test]
fn malformed_string_literals_do_not_manufacture_declaration_heads() {
    for expression in ["\"sibling", "\"sibling\\"] {
        assert!(
            identifier_heads(expression).is_empty(),
            "the expression parser, not the dependency census, diagnoses {expression:?}"
        );
    }
}

#[test]
fn keywords_and_nested_comprehensions() {
    assert_eq!(identifier_heads("if a and not b then c else d"), vec!["a", "b", "c", "d"]);
    assert_eq!(
        identifier_heads("{f(i, w) for i in 1:n, j in m}"),
        vec!["n", "m", "w"]
    );
    assert_eq!(identifier_heads("a + (b * (c))"), vec!["a", "b", "c"]);
    assert_eq!(identifier_heads("a)) + b"), vec!["a", "b"]);
    assert_eq!(identifier_heads("x[k] + y"), vec!["x", "k", "y"]);
}
