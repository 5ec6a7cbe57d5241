//! Nested-composite pre-lowering.

use oce_cxf::composite::{
    collect_leaves, lower, reject_unsupported_constructs, resolve_authored_target, root_composite,
    unsupported_modelica_key, BoundaryBudget, LeafWalk, MAX_COMPOSITE_BOUNDARY_TARGETS,
    MAX_COMPOSITE_BOUNDARY_TARGET_BYTES,
};
use oce_cxf::composite_orientation::CompositeOrientation;
use oce_cxf::diag::{DiagCode, Diagnostic};
use oce_cxf::dto::{Context, CxfDocument, IriRef, JsonValue, Node, OneOrMany};
use oce_cxf::specialize::{is_runtime_composite, Specialization};

const LEAF_CLASS: &str = "http://example.org#Buildings.Controls.OBC.CDL.Reals.MultiplyByParameter";

fn refs(ids: &[&str]) -> OneOrMany<IriRef> {
    match ids.len() {
        0 => OneOrMany::Absent,
        1 => OneOrMany::One(IriRef { id: ids[0].to_owned(), other: Vec::new() }),
        _ => OneOrMany::Many(ids.iter().map(|id| IriRef { id: (*id).to_owned(), other: Vec::new() }).collect()),
    }
}

fn ids(r: &OneOrMany<IriRef>) -> Vec<String> {
    r.as_slice().iter().map(|x| x.id.clone()).collect()
}

fn node(id: &str, class: &str, contains: &[&str], inputs: &[&str], connected: &[&str]) -> Node {
    Node {
        id: id.to_owned(),
        types: Some(OneOrMany::One(class.to_owned())),
        contains_block: refs(contains),
        has_input: refs(inputs),
        is_connected_to: refs(connected),
        ..Node::default()
    }
}

fn document(graph: Vec<Node>) -> CxfDocument {
    CxfDocument { context: Context::PrefixMap(Vec::new()), graph, other: Vec::new() }
}

fn registered(doc: &CxfDocument) -> Vec<bool> {
    doc.graph
        .iter()
        .map(|n| matches!(&n.types, Some(OneOrMany::One(t)) if t == LEAF_CLASS))
        .collect()
}

fn messages(diags: &[Diagnostic]) -> Vec<String> {
    diags.iter().map(|d| d.message.clone()).collect()
}

#[test]
fn registered_cdl_block_with_contains_block_is_not_a_runtime_composite() {
    let node = Node {
        id: "http://example.org#B".to_owned(),
        types: Some(OneOrMany::One("http://example.org#Buildings.Controls.OBC.CDL.Reals.Add".to_owned())),
        contains_block: refs(&["http://example.org#B.protected"]),
        ..Node::default()
    };
    assert!(!is_runtime_composite(&node, true));
}

#[test]
fn boundary_target_budget_accepts_the_limit_and_refuses_before_overflow() {
    let mut budget = BoundaryBudget {
        examined_targets: MAX_COMPOSITE_BOUNDARY_TARGETS - 1,
        examined_target_bytes: 0,
    };
    assert!(budget.examine("http://example.org#at-limit").is_ok());
    assert_eq!(budget.examined_targets, MAX_COMPOSITE_BOUNDARY_TARGETS);
    let diagnostic = budget
        .examine("http://example.org#over-limit")
        .expect_err("the attempted target beyond the limit must reject");
    assert_eq!(diagnostic.code, DiagCode::MalformedDocument);
    assert_eq!(diagnostic.subject, None);
    assert_eq!(budget.examined_targets, MAX_COMPOSITE_BOUNDARY_TARGETS);
}

#[test]
fn boundary_target_byte_budget_accepts_the_limit_and_refuses_before_overflow() {
    let mut budget = BoundaryBudget {
        examined_targets: 0,
        examined_target_bytes: MAX_COMPOSITE_BOUNDARY_TARGET_BYTES - 1,
    };
    assert!(budget.examine("x").is_ok());
    let diagnostic = budget
        .examine("y")
        .expect_err("the attempted byte beyond the limit must reject");
    assert_eq!(diagnostic.code, DiagCode::MalformedDocument);
    assert_eq!(diagnostic.subject, None);
    assert_eq!(
        budget.examined_target_bytes,
        MAX_COMPOSITE_BOUNDARY_TARGET_BYTES
    );
}

#[test]
fn ordinary_direct_target_does_not_consume_boundary_budget() {
    let doc = document(Vec::new());
    let specialization = Specialization::default();
    let boundary = CompositeOrientation::new(&doc, &[], &[], "", &specialization);
    let canonical = boundary.canonical_connections(&doc, "", &specialization);
    let mut budget = BoundaryBudget {
        examined_targets: MAX_COMPOSITE_BOUNDARY_TARGETS,
        examined_target_bytes: MAX_COMPOSITE_BOUNDARY_TARGET_BYTES,
    };
    let mut out = Vec::new();
    resolve_authored_target(
        "http://example.org#leaf.u",
        &boundary,
        &canonical,
        &Vec::new(),
        &specialization,
        &mut budget,
        &mut out,
    )
    .expect("ordinary wiring is outside boundary budgets");
    assert_eq!(out, ["http://example.org#leaf.u"]);
    assert_eq!(budget.examined_targets, MAX_COMPOSITE_BOUNDARY_TARGETS);
    assert_eq!(
        budget.examined_target_bytes,
        MAX_COMPOSITE_BOUNDARY_TARGET_BYTES
    );
}

#[test]
fn byte_budget_counts_utf8_bytes() {
    let mut budget = BoundaryBudget { examined_targets: 0, examined_target_bytes: MAX_COMPOSITE_BOUNDARY_TARGET_BYTES - 2 };
    assert!(budget.examine("Δ").is_ok());
    assert_eq!(budget.examined_target_bytes, MAX_COMPOSITE_BOUNDARY_TARGET_BYTES);
    let diagnostic = budget.examine("x").unwrap_err();
    assert_eq!(
        diagnostic.message,
        "composite boundary resolution exceeds the supported aggregate target IRI byte count (8388608)"
    );
}

#[test]
fn banned_modelica_keys_are_judged_by_their_term() {
    assert!(unsupported_modelica_key("S231:redeclare"));
    assert!(unsupported_modelica_key("http://example.org/ns#extends"));
    assert!(unsupported_modelica_key("a/b:modelicaSource"));
    assert!(unsupported_modelica_key("extendsFrom"));
    assert!(!unsupported_modelica_key("S231:description"));
    assert!(!unsupported_modelica_key("redeclare:x"));
}

#[test]
fn replaceable_and_banned_keys_are_refused_on_active_nodes_only() {
    let mut a = node("a", LEAF_CLASS, &[], &[], &[]);
    a.is_replaceable = Some(true);
    a.other = vec![("S231:redeclare".to_owned(), JsonValue::Null), ("S231:note".to_owned(), JsonValue::Null)];
    let mut b = node("b", LEAF_CLASS, &[], &[], &[]);
    b.is_replaceable = Some(true);
    let doc = document(vec![a, b]);
    let specialization = Specialization { inactive: vec!["b".to_owned()] };
    let mut diags = Vec::new();
    reject_unsupported_constructs(&doc, &specialization, &mut diags);
    assert_eq!(diags.len(), 2);
    assert_eq!(diags[0].code, DiagCode::UnresolvedPolymorphism);
    assert_eq!(diags[0].message, "composite/replaceable: replaceable CXF components must be resolved before import");
    assert_eq!(diags[0].subject.as_deref(), Some("a"));
    assert_eq!(diags[1].code, DiagCode::NonSubsetConstruct);
    assert_eq!(
        diags[1].message,
        "composite/banned-modelica-key: unsupported Modelica construct `S231:redeclare` survived CXF lowering"
    );
}

#[test]
fn the_one_uncontained_composite_is_the_root() {
    let doc = document(vec![
        node("root", "S231:Block", &["sub"], &[], &[]),
        node("sub", "S231:Block", &["leaf"], &[], &[]),
        node("leaf", LEAF_CLASS, &[], &[], &[]),
    ]);
    let mut diags = Vec::new();
    assert_eq!(root_composite(&doc, &registered(&doc), &mut diags), Some("root"));
    assert!(diags.is_empty());
}

#[test]
fn a_pure_containment_cycle_leaves_no_candidate_root() {
    let doc = document(vec![
        node("x", "S231:Block", &["y"], &[], &[]),
        node("y", "S231:Block", &["x"], &[], &[]),
    ]);
    let mut diags = Vec::new();
    assert_eq!(root_composite(&doc, &registered(&doc), &mut diags), None);
    assert_eq!(
        messages(&diags),
        vec!["composite/root-count: expected exactly one top composite root after nested classification, found zero candidate roots"]
    );
    assert_eq!(diags[0].subject, None);
    assert_eq!(diags[0].code, DiagCode::MalformedDocument);
}

#[test]
fn several_candidate_roots_are_refused_about_the_first() {
    let doc = document(vec![
        node("p", "S231:Block", &["l1"], &[], &[]),
        node("l1", LEAF_CLASS, &[], &[], &[]),
        node("q", "S231:Block", &["l2"], &[], &[]),
        node("l2", LEAF_CLASS, &[], &[], &[]),
    ]);
    let mut diags = Vec::new();
    assert_eq!(root_composite(&doc, &registered(&doc), &mut diags), None);
    assert_eq!(
        messages(&diags),
        vec!["composite/root-count: expected exactly one top composite root after nested classification, found 2 candidate roots: p, q"]
    );
    assert_eq!(diags[0].subject.as_deref(), Some("p"));
}

#[test]
fn flattening_lists_leaves_depth_first_with_their_composite_visit() {
    let doc = document(vec![
        node("root", "S231:Block", &["sub", "a", "gone", "missing"], &[], &[]),
        node("sub", "S231:Block", &["leaf"], &[], &[]),
        node("leaf", LEAF_CLASS, &[], &[], &[]),
        node("a", LEAF_CLASS, &[], &[], &[]),
        node("gone", LEAF_CLASS, &[], &[], &[]),
    ]);
    let specialization = Specialization { inactive: vec!["gone".to_owned()] };
    let mut diags = Vec::new();
    let mut path = Vec::new();
    let mut walk = LeafWalk { visits: Vec::new(), leaves: Vec::new() };
    collect_leaves("root", 1, None, &doc, &registered(&doc), &specialization, &mut diags, &mut path, &mut walk);
    let visits: Vec<(String, Option<usize>)> = walk.visits.iter().map(|v| (v.id.clone(), v.parent)).collect();
    assert_eq!(visits, vec![("root".to_owned(), None), ("sub".to_owned(), Some(0))]);
    assert_eq!(walk.leaves, vec![("leaf".to_owned(), 1), ("a".to_owned(), 0)]);
    assert!(path.is_empty());
    assert_eq!(messages(&diags), vec!["containsBlock child not found"]);
    assert_eq!(diags[0].code, DiagCode::UnresolvedReference);
    assert_eq!(diags[0].subject.as_deref(), Some("missing"));
}

#[test]
fn reentering_a_composite_names_the_cycle_in_path_order() {
    let doc = document(vec![
        node("r", "S231:Block", &["s"], &[], &[]),
        node("s", "S231:Block", &["t"], &[], &[]),
        node("t", "S231:Block", &["s"], &[], &[]),
    ]);
    let mut diags = Vec::new();
    let mut path = Vec::new();
    let mut walk = LeafWalk { visits: Vec::new(), leaves: Vec::new() };
    collect_leaves("r", 1, None, &doc, &registered(&doc), &Specialization::default(), &mut diags, &mut path, &mut walk);
    assert_eq!(
        messages(&diags),
        vec!["composite/contains-cycle: cycle in nested composite containsBlock graph: s -> t -> s"]
    );
    assert_eq!(diags[0].subject.as_deref(), Some("s"));
    assert_eq!(walk.visits.len(), 3);
}

#[test]
fn nesting_beyond_the_supported_depth_is_refused() {
    let mut graph = Vec::new();
    for k in 0..70 {
        let id = format!("c{k}");
        let child = format!("c{}", k + 1);
        graph.push(node(&id, "S231:Block", &[child.as_str()], &[], &[]));
    }
    graph.push(node("c70", LEAF_CLASS, &[], &[], &[]));
    let doc = document(graph);
    let mut diags = Vec::new();
    let mut path = Vec::new();
    let mut walk = LeafWalk { visits: Vec::new(), leaves: Vec::new() };
    collect_leaves("c0", 1, None, &doc, &registered(&doc), &Specialization::default(), &mut diags, &mut path, &mut walk);
    assert_eq!(
        messages(&diags),
        vec!["composite/nesting-too-deep: containsBlock nesting exceeds the supported depth (64)"]
    );
    assert_eq!(diags[0].subject.as_deref(), Some("c64"));
    assert_eq!(walk.visits.len(), 64);
    assert!(walk.leaves.is_empty());
}

fn nested_document() -> CxfDocument {
    document(vec![
        node("root", "S231:Block", &["sub", "a"], &["root.u"], &[]),
        node("sub", "S231:Block", &["leaf"], &["sub.u"], &[]),
        node("leaf", LEAF_CLASS, &[], &["leaf.u"], &[]),
        node("a", LEAF_CLASS, &[], &[], &[]),
        node("root.u", "S231:RealInput", &[], &[], &["sub.u"]),
        node("sub.u", "S231:RealInput", &[], &[], &["leaf.u"]),
        node("leaf.u", "S231:RealInput", &[], &[], &[]),
    ])
}

#[test]
fn lowering_flattens_the_root_and_routes_through_elided_boundaries() {
    let doc = nested_document();
    let reg = registered(&doc);
    let ports = vec![None; doc.graph.len()];
    let mut diags = Vec::new();
    let lowered = lower(doc, &reg, &ports, &Specialization::default(), &mut diags);
    assert!(diags.is_empty(), "{diags:?}");
    assert_eq!(lowered.root_iri.as_deref(), Some("root"));
    assert!(!lowered.boundary_traversal_failed);
    let g = &lowered.doc.graph;
    assert_eq!(ids(&g[0].contains_block), vec!["leaf".to_owned(), "a".to_owned()]);
    assert!(matches!(g[1].contains_block, OneOrMany::Absent));
    assert_eq!(ids(&g[4].is_connected_to), vec!["leaf.u".to_owned()]);
    assert!(matches!(g[5].is_connected_to, OneOrMany::Absent));
    assert_eq!(
        lowered.connection_edges(),
        vec![("root.u".to_owned(), "leaf.u".to_owned())]
    );
    assert!(lowered.synthesized_connections.is_empty());
}

#[test]
fn lowering_without_a_single_root_returns_the_document_unchanged() {
    let doc = document(vec![node("leaf", LEAF_CLASS, &[], &[], &["x"])]);
    let reg = registered(&doc);
    let mut diags = Vec::new();
    let lowered = lower(doc, &reg, &[None], &Specialization::default(), &mut diags);
    assert_eq!(lowered.root_iri, None);
    assert_eq!(ids(&lowered.doc.graph[0].is_connected_to), vec!["x".to_owned()]);
    assert_eq!(diags.len(), 1);
    assert_eq!(diags[0].code, DiagCode::MalformedDocument);
}
