//! Load-time specialization pieces.

use oce_cxf::dto::{Context, CxfDocument, IriRef, Node, OneOrMany};
use oce_cxf::specialize::{
    contains_block_referents, is_derivation_shaped, is_runtime_composite, mark_pruned_instance_members,
    normalize_guard_expr, Specialization,
};

fn refs(ids: &[&str]) -> OneOrMany<IriRef> {
    match ids.len() {
        0 => OneOrMany::Absent,
        1 => OneOrMany::One(IriRef { id: ids[0].to_owned(), other: Vec::new() }),
        _ => OneOrMany::Many(ids.iter().map(|id| IriRef { id: (*id).to_owned(), other: Vec::new() }).collect()),
    }
}

fn document(graph: Vec<Node>) -> CxfDocument {
    CxfDocument { context: Context::PrefixMap(Vec::new()), graph, other: Vec::new() }
}

#[test]
fn guard_spelling_is_normalized_for_the_expression_language() {
    assert_eq!(normalize_guard_expr("!have_hol"), "not have_hol");
    assert_eq!(normalize_guard_expr("a != b"), "a <> b");
    assert_eq!(normalize_guard_expr("!a and !=b"), "not a and <>b");
    assert_eq!(normalize_guard_expr("a and b"), "a and b");
    assert_eq!(normalize_guard_expr("x!"), "xnot ");
    assert_eq!(normalize_guard_expr(""), "");
}

#[test]
fn a_node_with_members_is_a_runtime_composite_unless_registered() {
    let n = Node { id: "c".to_owned(), contains_block: refs(&["a"]), ..Node::default() };
    assert!(is_runtime_composite(&n, false));
    assert!(!is_runtime_composite(&n, true));
    assert!(!is_runtime_composite(&Node::default(), false));
}

#[test]
fn referents_list_every_contained_iri_in_document_order() {
    let doc = document(vec![
        Node { id: "r".to_owned(), contains_block: refs(&["a", "b"]), ..Node::default() },
        Node { id: "s".to_owned(), contains_block: refs(&["c"]), ..Node::default() },
    ]);
    assert_eq!(contains_block_referents(&doc), vec!["a".to_owned(), "b".to_owned(), "c".to_owned()]);
}

#[test]
fn derivation_shape_needs_a_referent_with_instances_and_no_ports() {
    let referents = vec!["d".to_owned()];
    let d = Node { id: "d".to_owned(), has_instance: refs(&["m"]), ..Node::default() };
    assert!(is_derivation_shaped(&d, &referents, false));
    let unreferenced = Node { id: "e".to_owned(), has_instance: refs(&["m"]), ..Node::default() };
    assert!(!is_derivation_shaped(&unreferenced, &referents, false));
    let with_port = Node { id: "d".to_owned(), has_instance: refs(&["m"]), has_input: refs(&["d.u"]), ..Node::default() };
    assert!(!is_derivation_shaped(&with_port, &referents, false));
}

#[test]
fn members_of_a_pruned_instance_are_marked_unless_still_referenced() {
    let doc = document(vec![
        Node { id: "root".to_owned(), contains_block: refs(&["d", "keep"]), ..Node::default() },
        Node { id: "d".to_owned(), has_instance: refs(&["m1", "keep"]), ..Node::default() },
        Node { id: "m1".to_owned(), ..Node::default() },
        Node { id: "keep".to_owned(), ..Node::default() },
    ]);
    let registered = vec![false; doc.graph.len()];
    let mut spec = Specialization { inactive: vec!["d".to_owned()] };
    mark_pruned_instance_members(&doc, &registered, &mut spec);
    assert_eq!(spec.inactive, vec!["d".to_owned(), "m1".to_owned()]);
    assert!(spec.is_inactive("m1"));
    assert!(!spec.is_inactive("keep"));
}

#[test]
fn nothing_is_marked_when_no_instance_was_pruned() {
    let doc = document(vec![
        Node { id: "root".to_owned(), contains_block: refs(&["d"]), ..Node::default() },
        Node { id: "d".to_owned(), has_instance: refs(&["m1"]), ..Node::default() },
    ]);
    let registered = vec![false; doc.graph.len()];
    let mut spec = Specialization::default();
    mark_pruned_instance_members(&doc, &registered, &mut spec);
    assert!(spec.inactive.is_empty());
}
