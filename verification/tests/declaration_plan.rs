//! Planning a block's own declaration chain: duplicates, reference cycles, evaluation order.

use oce_cxf::declaration_plan::plan_declarations;
use oce_cxf::diag::{DiagCode, Severity};

#[test]
fn cycle_members_refuse_once_while_independent_declarations_still_ground() {
    let plan = plan_declarations(
        &["ex:M.a", "ex:M.b", "ex:M.c", "ex:M.d"],
        &[Some("b + 1.0"), Some("a + 1.0"), None, Some("c + 1.0")],
    );
    assert_eq!(plan.references, vec![vec![1], vec![0], vec![], vec![2]]);
    assert_eq!(plan.refused, vec![true, true, false, false]);
    assert_eq!(plan.findings.len(), 1);
    assert_eq!(plan.findings[0].severity, Severity::Error);
    assert_eq!(plan.findings[0].code, DiagCode::MalformedDocument);
    assert_eq!(plan.findings[0].subject.as_deref(), Some("ex:M.a"));
    assert_eq!(
        plan.findings[0].message,
        "composite/declaration-cycle: cycle in the block's own declaration references: \
         ex:M.a -> ex:M.b -> ex:M.a"
    );
    assert_eq!(plan.order, vec![2, 3]);
}

#[test]
fn self_reference_refuses_as_a_length_one_cycle_never_reading_the_enclosing_binding() {
    let plan = plan_declarations(&["ex:M.x"], &[Some("x * 2.0")]);
    assert_eq!(plan.refused, vec![true]);
    assert_eq!(plan.findings.len(), 1);
    assert_eq!(
        plan.findings[0].message,
        "composite/declaration-cycle: cycle in the block's own declaration references: \
         ex:M.x -> ex:M.x"
    );
    assert!(plan.order.is_empty());
}

#[test]
fn three_declarations_of_one_name_refuse_the_two_later_occurrences() {
    let plan = plan_declarations(
        &["ex:M.k", "ex:M.inner.k", "ex:M.other.k"],
        &[None, None, None],
    );
    assert_eq!(plan.refused, vec![false, true, true]);
    assert_eq!(plan.findings.len(), 2);
    for (diag, subject) in plan.findings.iter().zip(["ex:M.inner.k", "ex:M.other.k"]) {
        assert_eq!(diag.subject.as_deref(), Some(subject));
        assert!(diag.message.starts_with("composite/duplicate-declaration: "));
        assert!(diag.message.contains("first declared at ex:M.k"));
    }
    assert_eq!(
        plan.findings[0].message,
        "composite/duplicate-declaration: own declaration ex:M.inner.k re-binds local name `k` \
         first declared at ex:M.k"
    );
    assert_eq!(plan.order, vec![0]);
}

#[test]
fn a_later_declared_dependency_is_evaluated_first() {
    let plan = plan_declarations(&["ex:M.kDerived", "ex:M.kBase"], &[Some("kBase + 1.0"), None]);
    assert!(plan.findings.is_empty());
    assert_eq!(plan.order, vec![1, 0]);
}

#[test]
fn evaluation_order_takes_the_smallest_ready_index() {
    // c depends on a; b and a are free: a, then b (smallest ready), then c.
    let plan = plan_declarations(
        &["ex:M.c", "ex:M.b", "ex:M.a"],
        &[Some("a"), None, None],
    );
    assert_eq!(plan.order, vec![1, 2, 0]);
    let plan = plan_declarations(
        &["ex:M.c", "ex:M.b", "ex:M.a"],
        &[Some("a + b"), Some("a"), None],
    );
    assert_eq!(plan.order, vec![2, 1, 0]);
}

#[test]
fn string_literals_never_create_references() {
    let plan = plan_declarations(&["ex:M.a", "ex:M.b"], &[Some("\"b\""), Some("a")]);
    assert!(plan.findings.is_empty());
    assert_eq!(plan.references, vec![vec![], vec![0]]);
    assert_eq!(plan.order, vec![0, 1]);
    let plan = plan_declarations(&["ex:M.a"], &[Some("\"a\"")]);
    assert!(plan.findings.is_empty());
    assert_eq!(plan.order, vec![0]);
}

#[test]
fn a_string_literal_does_not_hide_a_real_cycle() {
    let plan = plan_declarations(
        &["ex:M.msg", "ex:M.a", "ex:M.b"],
        &[Some("\"a\""), Some("b"), Some("a")],
    );
    assert_eq!(plan.refused, vec![false, true, true]);
    assert_eq!(plan.findings.len(), 1);
    assert_eq!(
        plan.findings[0].message,
        "composite/declaration-cycle: cycle in the block's own declaration references: \
         ex:M.a -> ex:M.b -> ex:M.a"
    );
    assert_eq!(plan.order, vec![0]);
}

#[test]
fn two_distinct_cycles_report_in_order_of_their_earliest_member() {
    // e -> f -> e, and a -> c -> b -> a (participants listed in chained order).
    let plan = plan_declarations(
        &["ex:M.e", "ex:M.a", "ex:M.f", "ex:M.b", "ex:M.c", "ex:M.g"],
        &[Some("f"), Some("c"), Some("e"), Some("a"), Some("b"), Some("a + e")],
    );
    assert_eq!(plan.refused, vec![true, true, true, true, true, false]);
    assert_eq!(plan.findings.len(), 2);
    assert_eq!(
        plan.findings[0].message,
        "composite/declaration-cycle: cycle in the block's own declaration references: \
         ex:M.e -> ex:M.f -> ex:M.e"
    );
    assert_eq!(
        plan.findings[1].message,
        "composite/declaration-cycle: cycle in the block's own declaration references: \
         ex:M.a -> ex:M.b -> ex:M.c -> ex:M.a"
    );
    // g references refused members only, so it is ready at once.
    assert_eq!(plan.order, vec![5]);
}

#[test]
fn a_reference_to_a_cycle_does_not_refuse_the_referrer() {
    let plan = plan_declarations(
        &["ex:M.a", "ex:M.b", "ex:M.d"],
        &[Some("b"), Some("a"), Some("a")],
    );
    assert_eq!(plan.refused, vec![true, true, false]);
    assert_eq!(plan.order, vec![2]);
}

#[test]
fn duplicates_come_before_cycles_and_a_duplicate_is_never_referenced() {
    let plan = plan_declarations(
        &["ex:M.k", "ex:M.x", "ex:M.other.k"],
        &[Some("x"), Some("k"), Some("x")],
    );
    // The later k is refused; references to `k` bind to the first one.
    assert_eq!(plan.references, vec![vec![1], vec![0], vec![]]);
    assert_eq!(plan.findings.len(), 2);
    assert!(plan.findings[0].message.starts_with("composite/duplicate-declaration: "));
    assert!(plan.findings[1].message.starts_with("composite/declaration-cycle: "));
    assert_eq!(plan.refused, vec![true, true, true]);
    assert!(plan.order.is_empty());
}
