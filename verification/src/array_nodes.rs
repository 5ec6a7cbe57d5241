//! Document-wide subset checks for active array-valued connector and block-instance nodes.
use vstd::prelude::*;
use crate::boundary_inputs::{ref_ids, refs_contain};
use crate::composite::Finding;
use crate::composite_rules::{prefix_of, rule_code, rule_id, RuleKind};
use crate::diag::{appends, lemma_appends_none, lemma_appends_one, lemma_appends_trans, Diagnostic};
use crate::dto::{CxfDocument, Node};
use crate::port_binding::str_eq;
use crate::report::{first_type, term_of};
use crate::specialize::Specialization;
use crate::text::owned;
use crate::value_types::port_term;

verus! {

/// The role a node is listed under by its parent.
#[derive(Clone, Copy, PartialEq, Eq, Structural)]
pub enum Role {
    /// Under `hasInput` or `hasOutput`.
    Connector,
    /// Under `containsBlock`.
    Instance,
    /// Under `hasParameter`.
    Parameter,
}

/// The `@id`s `n` lists under `role`.
pub open spec fn role_ids(n: Node, role: Role) -> Seq<Seq<char>> {
    match role {
        Role::Connector => ref_ids(n.has_input) + ref_ids(n.has_output),
        Role::Instance => ref_ids(n.contains_block),
        Role::Parameter => ref_ids(n.has_parameter),
    }
}

/// `iri` is active and listed under `role` by an active node of `graph`.
pub open spec fn listed_as(graph: Seq<Node>, sp: Specialization, role: Role, iri: Seq<char>) -> bool {
    &&& !sp.pruned().contains(iri)
    &&& exists|p: int| 0 <= p < graph.len() && !sp.pruned().contains(graph[p].id@) && #[trigger] role_ids(graph[p], role).contains(iri)
}

/// `n` declares itself array-valued.
pub open spec fn array_valued(n: Node) -> bool {
    n.is_array == Some(true) || n.size_dims is Some
}

/// The refusal of an array-valued connector node.
pub open spec fn array_connector_finding(id: Seq<char>) -> Finding {
    (
        rule_code(RuleKind::ArrayConnector),
        prefix_of(rule_id(RuleKind::ArrayConnector))
            + "array-valued connector nodes are not supported; use per-element connectors named `name_1` through `name_n`"@,
        Some(id),
    )
}

/// The refusal of an array-valued block-instance node.
pub open spec fn array_instance_finding(id: Seq<char>) -> Finding {
    (
        rule_code(RuleKind::ArrayInstance),
        prefix_of(rule_id(RuleKind::ArrayInstance))
            + "array-valued block-instance nodes are not supported; use per-element instances named `name_1` through `name_n`"@,
        Some(id),
    )
}

/// The refusals of node `n` of `graph`: an active array-valued node that is not a parameter is
/// refused as a connector when listed as one and as an instance when listed as one.
pub open spec fn array_node_findings(graph: Seq<Node>, sp: Specialization, n: Node) -> Seq<Finding> {
    let is_parameter = listed_as(graph, sp, Role::Parameter, n.id@) || port_term(n) == Some("Parameter"@);
    if sp.pruned().contains(n.id@) || !array_valued(n) || is_parameter {
        seq![]
    } else {
        (if listed_as(graph, sp, Role::Connector, n.id@) {
            seq![array_connector_finding(n.id@)]
        } else {
            seq![]
        }) + (if listed_as(graph, sp, Role::Instance, n.id@) {
            seq![array_instance_finding(n.id@)]
        } else {
            seq![]
        })
    }
}

/// The refusals of the first `k` nodes, in document order.
pub open spec fn array_findings(graph: Seq<Node>, sp: Specialization, k: nat) -> Seq<Finding>
    decreases k,
{
    if k == 0 || k > graph.len() {
        seq![]
    } else {
        array_findings(graph, sp, (k - 1) as nat) + array_node_findings(graph, sp, graph[k - 1])
    }
}

fn lists(n: &Node, role: Role, iri: &str) -> (b: bool)
    ensures
        b == role_ids(*n, role).contains(iri@),
{
    match role {
        Role::Connector => {
            let a = refs_contain(&n.has_input, iri);
            let b = refs_contain(&n.has_output, iri);
            proof {
                let x = ref_ids(n.has_input);
                let y = ref_ids(n.has_output);
                if (x + y).contains(iri@) {
                    let j = choose|j: int| 0 <= j < (x + y).len() && (x + y)[j] == iri@;
                    if j >= x.len() {
                        assert(y[j - x.len()] == iri@);
                    }
                }
                if a {
                    let j = choose|j: int| 0 <= j < x.len() && x[j] == iri@;
                    assert((x + y)[j] == iri@);
                }
                if b {
                    let j = choose|j: int| 0 <= j < y.len() && y[j] == iri@;
                    assert((x + y)[x.len() + j] == iri@);
                }
            }
            a || b
        },
        Role::Instance => refs_contain(&n.contains_block, iri),
        Role::Parameter => refs_contain(&n.has_parameter, iri),
    }
}

fn is_listed(doc: &CxfDocument, sp: &Specialization, role: Role, iri: &str) -> (b: bool)
    ensures
        b == listed_as(doc.graph@, *sp, role, iri@),
{
    if sp.is_inactive(iri) {
        return false;
    }
    let mut p: usize = 0;
    while p < doc.graph.len()
        invariant
            p <= doc.graph@.len(),
            !sp.pruned().contains(iri@),
            forall|q: int|
                0 <= q < p ==> !(!sp.pruned().contains(doc.graph@[q].id@) && #[trigger] role_ids(doc.graph@[q], role).contains(
                    iri@,
                )),
        decreases doc.graph@.len() - p,
    {
        let parent = &doc.graph[p];
        if !sp.is_inactive(parent.id.as_str()) && lists(parent, role, iri) {
            return true;
        }
        p += 1;
    }
    false
}

/// Reject active array-valued connector and block-instance nodes, in document order. Parameter
/// nodes (listed under an active `hasParameter`, or typed `Parameter`) are left to array
/// expansion; nodes removed by specialization are invisible to the check.
pub fn reject_unsupported(doc: &CxfDocument, specialization: &Specialization, diags: &mut Vec<Diagnostic>)
    ensures
        appends(old(diags)@, final(diags)@, array_findings(doc.graph@, *specialization, doc.graph@.len())),
{
    proof {
        lemma_appends_none(diags@);
    }
    let mut k: usize = 0;
    while k < doc.graph.len()
        invariant
            k <= doc.graph@.len(),
            appends(old(diags)@, diags@, array_findings(doc.graph@, *specialization, k as nat)),
        decreases doc.graph@.len() - k,
    {
        let node = &doc.graph[k];
        let ghost prev = array_findings(doc.graph@, *specialization, k as nat);
        let ghost dk = diags@;
        let ghost fs = array_node_findings(doc.graph@, *specialization, *node);
        let array = match node.is_array {
            Some(b) => b,
            None => false,
        } || node.size_dims.is_some();
        let typed_parameter = match first_type(node) {
            Some(t) => str_eq(term_of(t), "Parameter"),
            None => false,
        };
        if specialization.is_inactive(node.id.as_str()) || !array || is_listed(doc, specialization, Role::Parameter, node.id.as_str())
            || typed_parameter {
            proof {
                lemma_appends_none(diags@);
                lemma_appends_trans(old(diags)@, dk, diags@, prev, fs);
            }
        } else {
            let conn = is_listed(doc, specialization, Role::Connector, node.id.as_str());
            let inst = is_listed(doc, specialization, Role::Instance, node.id.as_str());
            let ghost f1: Seq<Finding> = if conn {
                seq![array_connector_finding(node.id@)]
            } else {
                seq![]
            };
            if conn {
                let rule = RuleKind::ArrayConnector.rule();
                let d = Diagnostic::error(
                    rule.code,
                    rule.message(
                        "array-valued connector nodes are not supported; use per-element connectors named `name_1` through `name_n`",
                    ),
                ).with_subject(owned(node.id.as_str()));
                proof {
                    lemma_appends_one(diags@, d, array_connector_finding(node.id@));
                }
                diags.push(d);
            } else {
                proof {
                    lemma_appends_none(diags@);
                }
            }
            let ghost d1 = diags@;
            let ghost f2: Seq<Finding> = if inst {
                seq![array_instance_finding(node.id@)]
            } else {
                seq![]
            };
            if inst {
                let rule = RuleKind::ArrayInstance.rule();
                let d = Diagnostic::error(
                    rule.code,
                    rule.message(
                        "array-valued block-instance nodes are not supported; use per-element instances named `name_1` through `name_n`",
                    ),
                ).with_subject(owned(node.id.as_str()));
                proof {
                    lemma_appends_one(diags@, d, array_instance_finding(node.id@));
                }
                diags.push(d);
            } else {
                proof {
                    lemma_appends_none(diags@);
                }
            }
            proof {
                lemma_appends_trans(dk, d1, diags@, f1, f2);
                lemma_appends_trans(old(diags)@, dk, diags@, prev, f1 + f2);
            }
        }
        k += 1;
    }
}

} // verus!
