//! Single assignment (§7.10) over resolved wiring: every input connector is driven exactly once,
//! or is a boundary input that nothing drives.
use vstd::prelude::*;
use crate::composite::Finding;
use crate::diag::{appends, lemma_appends_none, lemma_appends_one, lemma_appends_trans, DiagCode, Diagnostic};
use crate::model::{Connection, Connector, ConnectorId, Dir};
use crate::text::{decimal, decimal_string, owned, push_str};

verus! {

/// A connector's diagnostic subject: its source IRI when it has one, else `connector#<id>`.
pub open spec fn connector_subject(c: Connector) -> Seq<char> {
    match c.iri {
        Some(iri) => iri@,
        None => "connector#"@ + decimal(c.id.0 as nat),
    }
}

/// The diagnostic subject for a connector.
pub fn subject_of(c: &Connector) -> (r: String)
    ensures
        r@ == connector_subject(*c),
{
    match &c.iri {
        Some(iri) => owned(iri.as_str()),
        None => {
            let mut s = owned("connector#");
            push_str(&mut s, decimal_string(c.id.0 as usize).as_str());
            s
        },
    }
}

/// The number of the first `k` connections that end at `id`.
pub open spec fn in_degree(connections: Seq<Connection>, id: ConnectorId, k: nat) -> nat
    decreases k,
{
    if k == 0 || k > connections.len() {
        0
    } else {
        in_degree(connections, id, (k - 1) as nat) + if connections[k - 1].to == id {
            1nat
        } else {
            0nat
        }
    }
}

/// The message of an input driven `d` times, `d` not 1.
pub open spec fn degree_message(d: nat) -> Seq<char> {
    if d == 0 {
        "input is undriven (in-degree 0)"@
    } else {
        "input is multiply driven (in-degree "@ + decimal(d) + ")"@
    }
}

/// The rejection of connector `c`, if any: an input not driven exactly once, unless it is an
/// undriven boundary input.
pub open spec fn assignment_finding(
    c: Connector,
    connections: Seq<Connection>,
    external_inputs: Seq<ConnectorId>,
) -> Seq<Finding> {
    let d = in_degree(connections, c.id, connections.len());
    if c.dir != Dir::In || d == 1 || (d == 0 && external_inputs.contains(c.id)) {
        seq![]
    } else {
        seq![(DiagCode::SingleAssignment, degree_message(d), Some(connector_subject(c)))]
    }
}

/// The rejections of the first `k` connectors, in connector order.
pub open spec fn assignment_findings(
    connectors: Seq<Connector>,
    connections: Seq<Connection>,
    external_inputs: Seq<ConnectorId>,
    k: nat,
) -> Seq<Finding>
    decreases k,
{
    if k == 0 || k > connectors.len() {
        seq![]
    } else {
        assignment_findings(connectors, connections, external_inputs, (k - 1) as nat) + assignment_finding(
            connectors[k - 1],
            connections,
            external_inputs,
        )
    }
}

fn count_drivers(connections: &[Connection], id: ConnectorId) -> (n: usize)
    ensures
        n == in_degree(connections@, id, connections@.len()),
{
    let mut n: usize = 0;
    let mut i: usize = 0;
    while i < connections.len()
        invariant
            i <= connections@.len(),
            n == in_degree(connections@, id, i as nat),
            n <= i,
        decreases connections@.len() - i,
    {
        if connections[i].to == id {
            n += 1;
        }
        i += 1;
    }
    n
}

fn contains_id(ids: &[ConnectorId], id: ConnectorId) -> (b: bool)
    ensures
        b == ids@.contains(id),
{
    let mut i: usize = 0;
    while i < ids.len()
        invariant
            i <= ids@.len(),
            forall|j: int| 0 <= j < i ==> ids@[j] != id,
        decreases ids@.len() - i,
    {
        if ids[i] == id {
            return true;
        }
        i += 1;
    }
    false
}

/// Diagnose every input connector whose in-degree is not exactly one, in connector order; an
/// undriven input that is a boundary input is legal.
pub fn check(
    connectors: &[Connector],
    connections: &[Connection],
    external_inputs: &[ConnectorId],
    diags: &mut Vec<Diagnostic>,
)
    ensures
        appends(
            old(diags)@,
            final(diags)@,
            assignment_findings(connectors@, connections@, external_inputs@, connectors@.len()),
        ),
{
    proof {
        lemma_appends_none(diags@);
    }
    let mut k: usize = 0;
    while k < connectors.len()
        invariant
            k <= connectors@.len(),
            appends(old(diags)@, diags@, assignment_findings(connectors@, connections@, external_inputs@, k as nat)),
        decreases connectors@.len() - k,
    {
        let c = &connectors[k];
        let ghost dk = diags@;
        let ghost f = assignment_finding(*c, connections@, external_inputs@);
        if c.dir == Dir::In {
            let degree = count_drivers(connections, c.id);
            if degree == 1 || (degree == 0 && contains_id(external_inputs, c.id)) {
                proof {
                    lemma_appends_none(diags@);
                }
            } else {
                let message = if degree == 0 {
                    owned("input is undriven (in-degree 0)")
                } else {
                    let mut m = owned("input is multiply driven (in-degree ");
                    push_str(&mut m, decimal_string(degree).as_str());
                    push_str(&mut m, ")");
                    m
                };
                let d = Diagnostic::error(DiagCode::SingleAssignment, message).with_subject(subject_of(c));
                proof {
                    lemma_appends_one(diags@, d, f[0]);
                    assert(f =~= seq![f[0]]);
                }
                diags.push(d);
            }
        } else {
            proof {
                lemma_appends_none(diags@);
            }
        }
        proof {
            lemma_appends_trans(old(diags)@, dk, diags@, assignment_findings(connectors@, connections@, external_inputs@, k as nat), f);
        }
        k += 1;
    }
}

} // verus!
