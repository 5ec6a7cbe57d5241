//! Collecting a declaration chain and releasing withheld findings.

use oce_cxf::declaration_chain::{chain_iris, chain_rhs, WithheldFindings};
use oce_cxf::declaration_plan::plan_declarations;
use oce_cxf::diag::{DiagCode, Diagnostic};
use oce_cxf::dto::{Context, CxfDocument, CxfValue, IriRef, Node, OneOrMany};
use oce_cxf::specialize::Specialization;

fn refs(ids: &[&str]) -> OneOrMany<IriRef> {
    match ids.len() {
        0 => OneOrMany::Absent,
        1 => OneOrMany::One(IriRef { id: ids[0].to_owned(), other: Vec::new() }),
        _ => OneOrMany::Many(ids.iter().map(|id| IriRef { id: (*id).to_owned(), other: Vec::new() }).collect()),
    }
}

fn param(id: &str, value: Option<CxfValue>, is_array: bool) -> Node {
    Node { id: id.to_owned(), value, is_array: if is_array { Some(true) } else { None }, ..Node::default() }
}

fn owner() -> Node {
    Node {
        id: "ex:M".to_owned(),
        has_parameter: refs(&["ex:M.a", "ex:M.b", "ex:M.gone"]),
        has_constant: refs(&["ex:M.c", "ex:M.arr"]),
        ..Node::default()
    }
}

fn document() -> CxfDocument {
    CxfDocument {
        context: Context::PrefixMap(Vec::new()),
        graph: vec![
            owner(),
            param("ex:M.a", Some(CxfValue::Expr("b + 1.0".to_owned())), false),
            param("ex:M.b", Some(CxfValue::Int(2)), false),
            param("ex:M.c", Some(CxfValue::Expr("a * 2.0".to_owned())), false),
            param("ex:M.arr", Some(CxfValue::Expr("fill(a, 2)".to_owned())), true),
        ],
        other: Vec::new(),
    }
}

#[test]
fn the_chain_lists_parameters_then_constants() {
    let node = owner();
    assert_eq!(chain_iris(&node, None), vec!["ex:M.a", "ex:M.b", "ex:M.gone", "ex:M.c", "ex:M.arr"]);
    let spec = Specialization { inactive: vec!["ex:M.gone".to_owned()] };
    assert_eq!(chain_iris(&node, Some(&spec)), vec!["ex:M.a", "ex:M.b", "ex:M.c", "ex:M.arr"]);
}

#[test]
fn right_hand_sides_are_the_expr_texts_that_can_ground() {
    let doc = document();
    let iris = vec!["ex:M.a", "ex:M.b", "ex:M.gone", "ex:M.c", "ex:M.arr"];
    assert_eq!(
        chain_rhs(&doc, &iris, false),
        vec![Some("b + 1.0"), None, None, Some("a * 2.0"), Some("fill(a, 2)")]
    );
    assert_eq!(
        chain_rhs(&doc, &iris, true),
        vec![Some("b + 1.0"), None, None, Some("a * 2.0"), None]
    );
}

#[test]
fn a_collected_chain_plans_in_dependency_order() {
    let doc = document();
    let spec = Specialization { inactive: vec!["ex:M.gone".to_owned()] };
    let iris = chain_iris(&doc.graph[0], Some(&spec));
    let rhs = chain_rhs(&doc, &iris, true);
    let plan = plan_declarations(&iris, &rhs);
    assert!(plan.findings.is_empty());
    assert_eq!(plan.order, vec![1, 0, 2, 3]);
}

fn finding(message: &str) -> Diagnostic {
    Diagnostic::error(DiagCode::MalformedDocument, message.to_owned())
}

#[test]
fn withheld_findings_surface_only_for_chains_lowering_did_not_evaluate() {
    let mut withheld = WithheldFindings::new();
    withheld.record("ex:A", vec![finding("a1"), finding("a2")]);
    withheld.record("ex:B", Vec::new());
    withheld.record("ex:C", vec![finding("c1")]);
    assert_eq!(withheld.by_chain.len(), 2);
    let mut diags = vec![finding("earlier")];
    withheld.emit_unvisited(&vec!["ex:C".to_owned()], &mut diags);
    let messages: Vec<&str> = diags.iter().map(|d| d.message.as_str()).collect();
    assert_eq!(messages, vec!["earlier", "a1", "a2"]);
}
