//! Indexing the `@graph` by `@id` before resolution.

use oce_cxf::diag::{DiagCode, Severity};
use oce_cxf::dto::{IriRef, Node, OneOrMany};
use oce_cxf::graph_index::{classify_top, graph_index_diagnostics};

fn node(id: &str) -> Node {
    Node { id: id.to_owned(), ..Node::default() }
}

#[test]
fn an_empty_graph_is_refused_alone() {
    let diags = graph_index_diagnostics(&Vec::new());
    assert_eq!(diags.len(), 1);
    assert_eq!(diags[0].code, DiagCode::MalformedDocument);
    assert_eq!(diags[0].message, "CXF @graph is empty — nothing to resolve");
    assert_eq!(diags[0].subject, None);
}

#[test]
fn distinct_ids_raise_nothing() {
    assert!(graph_index_diagnostics(&vec![node("ex:a"), node("ex:b")]).is_empty());
}

#[test]
fn a_missing_id_and_repeated_ids_are_refused_in_node_order() {
    let diags = graph_index_diagnostics(&vec![node("ex:a"), node(""), node("ex:a"), node("ex:a")]);
    assert_eq!(diags.len(), 3);
    assert!(diags.iter().all(|d| d.severity == Severity::Error));
    assert_eq!(diags[0].code, DiagCode::MissingConnectorId);
    assert_eq!(diags[0].message, "connector at @graph[1] is missing its authored @id");
    assert_eq!(diags[0].subject.as_deref(), Some("connector at @graph[1]"));
    assert_eq!(diags[1].code, DiagCode::DuplicateId);
    assert_eq!(diags[1].message, "duplicate @id `ex:a` on @graph nodes 0 and 2");
    assert_eq!(diags[1].subject.as_deref(), Some("ex:a"));
    assert_eq!(diags[2].message, "duplicate @id `ex:a` on @graph nodes 2 and 3");
}

fn refs(ids: &[&str]) -> OneOrMany<IriRef> {
    OneOrMany::Many(ids.iter().map(|i| IriRef { id: (*i).to_owned(), other: Vec::new() }).collect())
}

#[test]
fn the_top_composite_keeps_its_active_members_and_refuses_missing_boundaries_once() {
    let top = Node {
        id: "ex:Top".to_owned(),
        contains_block: refs(&["ex:Top.a", "ex:Top.gone"]),
        has_input: refs(&["ex:Top.u", "ex:Top.missing", "ex:Top.off"]),
        has_output: refs(&["ex:Top.y", "ex:Top.missing"]),
        ..Node::default()
    };
    let pruned = vec!["ex:Top.gone".to_owned(), "ex:Top.off".to_owned()];
    let ids = vec!["ex:Top".to_owned(), "ex:Top.a".to_owned(), "ex:Top.u".to_owned(), "ex:Top.y".to_owned()];
    let (children, inputs, outputs, diags) = classify_top(&top, &pruned, &ids);
    assert_eq!(children, vec!["ex:Top.a".to_owned()]);
    assert_eq!(inputs, vec!["ex:Top.u".to_owned(), "ex:Top.missing".to_owned()]);
    assert_eq!(outputs, vec!["ex:Top.y".to_owned(), "ex:Top.missing".to_owned()]);
    assert_eq!(diags.len(), 1);
    assert_eq!(diags[0].code, DiagCode::UnresolvedReference);
    assert_eq!(diags[0].message, "boundary node not found");
    assert_eq!(diags[0].subject.as_deref(), Some("ex:Top.missing"));
}
