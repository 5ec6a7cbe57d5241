//! Canonical orientation of boundary-facing connections.

use std::collections::BTreeMap;

use oce_cxf::composite_orientation::{CompositeOrientation, Connections, Polarity, Verdict};
use oce_cxf::diag::DiagCode;
use oce_cxf::dto::{Context, CxfDocument, IriRef, Node, OneOrMany};
use oce_cxf::specialize::Specialization;

const LEAF_CLASS: &str = "http://example.org#Buildings.Controls.OBC.CDL.Reals.MultiplyByParameter";

fn refs(ids: &[&str]) -> OneOrMany<IriRef> {
    match ids.len() {
        0 => OneOrMany::Absent,
        1 => OneOrMany::One(IriRef { id: ids[0].to_owned(), other: Vec::new() }),
        _ => OneOrMany::Many(
            ids.iter()
                .map(|id| IriRef { id: (*id).to_owned(), other: Vec::new() })
                .collect(),
        ),
    }
}

fn node(id: &str, class: &str, contains: &[&str], inputs: &[&str], connected: &[&str]) -> Node {
    Node {
        id: id.to_owned(),
        types: Some(OneOrMany::One(class.to_owned())),
        contains_block: refs(contains),
        has_input: refs(inputs),
        is_connected_to: refs(connected),
        ..Node::default()
    }
}

fn document(graph: Vec<Node>) -> CxfDocument {
    CxfDocument { context: Context::PrefixMap(Vec::new()), graph, other: Vec::new() }
}

/// Registered leaf classes: only the CDL block class here.
fn registered(doc: &CxfDocument) -> Vec<bool> {
    doc.graph
        .iter()
        .map(|n| matches!(&n.types, Some(OneOrMany::One(t)) if t == LEAF_CLASS))
        .collect()
}

fn connections(doc: &CxfDocument) -> Connections {
    let specialization = Specialization::default();
    let index = CompositeOrientation::new(
        doc,
        &registered(doc),
        &vec![None; doc.graph.len()],
        "root",
        &specialization,
    );
    index.canonical_connections(doc, "root", &specialization)
}

fn adjacency_map(c: &Connections) -> BTreeMap<String, Vec<String>> {
    c.adjacency.entries.iter().cloned().collect()
}

fn adjacency(forward: &[&str], reverse: &[&str]) -> BTreeMap<String, Vec<String>> {
    let doc = document(vec![
        node("root", "S231:Block", &["sub"], &[], &[]),
        node("sub", "S231:Block", &["leaf"], &["sub.u"], &[]),
        node("leaf", LEAF_CLASS, &[], &["leaf.u"], &[]),
        node("sub.u", "S231:RealInput", &[], &[], forward),
        node("leaf.u", "S231:RealInput", &[], &[], reverse),
    ]);
    adjacency_map(&connections(&doc))
}

fn pair_count(adjacency: &BTreeMap<String, Vec<String>>) -> usize {
    adjacency
        .get("sub.u")
        .into_iter()
        .flatten()
        .filter(|target| target.as_str() == "leaf.u")
        .count()
}

#[test]
fn two_forward_spellings_are_both_preserved() {
    assert_eq!(pair_count(&adjacency(&["leaf.u", "leaf.u"], &[])), 2);
}

#[test]
fn two_reverse_spellings_collapse_to_one() {
    assert_eq!(pair_count(&adjacency(&[], &["sub.u", "sub.u"])), 1);
}

#[test]
fn forward_then_reverse_collapses_to_one() {
    assert_eq!(pair_count(&adjacency(&["leaf.u"], &["sub.u"])), 1);
}

#[test]
fn two_forward_then_reverse_preserves_the_forward_pair() {
    assert_eq!(pair_count(&adjacency(&["leaf.u", "leaf.u"], &["sub.u"])), 2);
}

#[test]
fn authored_and_reanchored_targets_follow_authoring_node_order() {
    let doc = document(vec![
        node("root", "S231:Block", &["sub"], &[], &[]),
        node("sub", "S231:Block", &["first", "second"], &["sub.u"], &[]),
        node("first", LEAF_CLASS, &[], &["first.u"], &[]),
        node("sub.u", "S231:RealInput", &[], &[], &["first.u"]),
        node("first.u", "S231:RealInput", &[], &[], &[]),
        node("second", LEAF_CLASS, &[], &["second.u"], &[]),
        node("second.u", "S231:RealInput", &[], &[], &["sub.u"]),
    ]);
    let adjacency = adjacency_map(&connections(&doc));
    assert_eq!(
        adjacency.get("sub.u"),
        Some(&vec!["first.u".to_owned(), "second.u".to_owned()])
    );
}

#[test]
fn canonicalizing_canonical_adjacency_is_idempotent() {
    let mut graph = vec![
        node("root", "S231:Block", &["sub"], &[], &[]),
        node("sub", "S231:Block", &["leaf"], &["sub.u"], &[]),
        node("leaf", LEAF_CLASS, &[], &["leaf.u"], &[]),
        node("sub.u", "S231:RealInput", &[], &[], &[]),
        node("leaf.u", "S231:RealInput", &[], &[], &["sub.u"]),
    ];
    let first = adjacency_map(&connections(&document(graph.clone())));
    for n in &mut graph {
        let targets: Vec<&str> = first
            .get(n.id.as_str())
            .map(|t| t.iter().map(String::as_str).collect())
            .unwrap_or_default();
        n.is_connected_to = refs(&targets);
    }
    let second = adjacency_map(&connections(&document(graph)));
    assert_eq!(second, first);
}

// ---- own checks ----

#[test]
fn polarity_follows_containment() {
    let doc = document(vec![
        node("root", "S231:Block", &["sub", "outer"], &["root.u"], &[]),
        node("sub", "S231:Block", &["leaf"], &["sub.u"], &[]),
        node("leaf", LEAF_CLASS, &[], &["leaf.u"], &[]),
        node("outer", LEAF_CLASS, &[], &["outer.u"], &[]),
    ]);
    let specialization = Specialization::default();
    let index = CompositeOrientation::new(&doc, &registered(&doc), &vec![None; 4], "root", &specialization);
    assert!(index.tree);
    assert_eq!(index.inside("leaf", "sub"), Some(true));
    assert_eq!(index.inside("outer", "sub"), Some(false));
    // Toward its own interior a non-root boundary input is a source; outside it, a sink.
    assert_eq!(index.polarity("sub.u", "leaf.u", "root"), Some(Polarity::Source));
    assert_eq!(index.polarity("sub.u", "outer.u", "root"), Some(Polarity::Sink));
    // A root boundary input is always a source; a leaf input a sink.
    assert_eq!(index.polarity("root.u", "outer.u", "root"), Some(Polarity::Source));
    assert_eq!(index.polarity("leaf.u", "sub.u", "root"), Some(Polarity::Sink));
    assert!(index.is_non_root_boundary("sub.u", "root"));
    assert!(!index.is_non_root_boundary("root.u", "root"));
    assert!(index.is_elided_boundary_source("sub.u"));
    assert!(!index.is_elided_boundary_source("root.u"));
    assert_eq!(index.position("outer"), 3);
    assert_eq!(index.position("nowhere"), usize::MAX);
    assert_eq!(index.location("leaf.u").as_deref(), Some("leaf"));
    assert_eq!(index.location("leaf").as_deref(), Some("leaf"));
    assert_eq!(index.location("nowhere"), None);
}

#[test]
fn two_parents_break_the_tree_and_polarity_becomes_underivable() {
    let doc = document(vec![
        node("root", "S231:Block", &["a", "b"], &[], &[]),
        node("a", "S231:Block", &["leaf"], &["a.u"], &["leaf.u"]),
        node("b", "S231:Block", &["leaf"], &[], &[]),
        node("leaf", LEAF_CLASS, &[], &["leaf.u"], &[]),
    ]);
    let specialization = Specialization::default();
    let index = CompositeOrientation::new(&doc, &registered(&doc), &vec![None; 4], "root", &specialization);
    assert!(!index.tree);
    assert_eq!(index.inside("leaf", "a"), None);
    assert_eq!(index.polarity("a.u", "leaf.u", "root"), None);
    let (_, _, verdict) = index.canonical_pair("a.u", "leaf.u", "root", &specialization, &vec![]);
    assert_eq!(verdict, Verdict::Unknown);
}

#[test]
fn a_containment_cycle_is_detected() {
    let doc = document(vec![
        node("root", "S231:Block", &["a"], &[], &[]),
        node("a", "S231:Block", &["b"], &[], &[]),
        node("b", "S231:Block", &["a"], &[], &[]),
    ]);
    let specialization = Specialization::default();
    let index = CompositeOrientation::new(&doc, &registered(&doc), &vec![None; 3], "root", &specialization);
    assert!(index.has_containment_cycle());
    assert!(!index.tree);
}

#[test]
fn conflicting_claims_leave_ownership_underivable() {
    let doc = document(vec![
        node("root", "S231:Block", &["sub"], &[], &[]),
        node("sub", "S231:Block", &["leaf"], &["p"], &["leaf.u"]),
        node("leaf", LEAF_CLASS, &[], &["p", "leaf.u"], &[]),
    ]);
    let specialization = Specialization::default();
    let index = CompositeOrientation::new(&doc, &registered(&doc), &vec![None; 3], "root", &specialization);
    assert_eq!(index.polarity("p", "leaf.u", "root"), None);
    assert_eq!(index.location("p"), None);
}

#[test]
fn an_erased_contradictory_relation_is_deferred() {
    // Two sinks: a boundary output of `sub` wired to a port outside `sub`, read as its input.
    let mut sub = node("sub", "S231:Block", &["leaf"], &[], &[]);
    sub.has_output = refs(&["sub.y"]);
    let doc = document(vec![
        node("root", "S231:Block", &["sub", "other"], &[], &[]),
        sub,
        node("leaf", LEAF_CLASS, &[], &["leaf.u"], &[]),
        node("other", LEAF_CLASS, &[], &["other.u"], &[]),
        node("sub.y", "S231:RealOutput", &[], &[], &["leaf.u"]),
    ]);
    let c = connections(&doc);
    let deferred = c.deferred.expect("an erased relation with contradictory directions");
    assert_eq!(deferred.code, DiagCode::DirectionMismatch);
    assert_eq!(deferred.message, "boundary connection has contradictory endpoint directions");
    assert_eq!(c.crossed, vec!["sub.y".to_owned()]);
}
