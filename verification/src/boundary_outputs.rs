//! The top composite's declared boundary outputs: their materialization in document order, and
//! the declared-interface checks (shadowed identities, multiply driven outputs, undriven
//! declarations).
use vstd::prelude::*;
use crate::composite::Finding;
use crate::diag::{
    appends_notes, errors_of, is_note, lemma_notes_none, lemma_notes_one, lemma_notes_trans, DiagCode, Diagnostic, Note,
    Severity,
};
use crate::dto::{CxfDocument, IriRef, Node};
use crate::model::{BoundaryOutput, ConnectorId};
use crate::specialize::{contains_str, names};
use crate::strmap::StrMap;
use crate::text::{decimal, decimal_string, owned, push_str};

verus! {

/// The boundary outputs of `graph`'s first `k` nodes: one per node whose `@id` has a source, in
/// document order.
pub open spec fn materialized(graph: Seq<Node>, sources: StrMap<ConnectorId>, k: nat) -> Seq<(Seq<char>, ConnectorId)>
    decreases k,
{
    if k == 0 || k > graph.len() {
        seq![]
    } else {
        materialized(graph, sources, (k - 1) as nat) + match sources.at(graph[k - 1].id@) {
            Some(c) => seq![(graph[k - 1].id@, c)],
            None => seq![],
        }
    }
}

/// Boundary outputs as specification values.
pub open spec fn outputs_view(v: Seq<BoundaryOutput>) -> Seq<(Seq<char>, ConnectorId)> {
    v.map_values(|o: BoundaryOutput| (o.iri@, o.source))
}

/// Materialize one boundary output per node with a source, in the nodes' document order.
pub fn materialize(doc: &CxfDocument, sources: &StrMap<ConnectorId>) -> (r: Vec<BoundaryOutput>)
    ensures
        outputs_view(r@) == materialized(doc.graph@, *sources, doc.graph@.len()),
{
    let mut out: Vec<BoundaryOutput> = Vec::new();
    let mut k: usize = 0;
    while k < doc.graph.len()
        invariant
            k <= doc.graph@.len(),
            outputs_view(out@) == materialized(doc.graph@, *sources, k as nat),
        decreases doc.graph@.len() - k,
    {
        let node = &doc.graph[k];
        match sources.get(node.id.as_str()) {
            Some(c) => {
                let ghost o0 = out@;
                out.push(BoundaryOutput { source: *c, iri: owned(node.id.as_str()) });
                assert(outputs_view(out@) =~= outputs_view(o0).push((node.id@, *c)));
            },
            None => {},
        }
        k += 1;
    }
    out
}

/// The `@id`s a node lists under `hasOutput`, in order.
pub open spec fn output_ids(top: Node) -> Seq<Seq<char>> {
    top.has_output.items().map_values(|r: IriRef| r.id@)
}

/// The refusal message of a declared output that shadows another identity, if it does.
pub open spec fn shadow_message(iri: Seq<char>, boundary_in: Seq<Seq<char>>, conn_of_iri: StrMap<ConnectorId>) -> Option<
    Seq<char>,
> {
    if boundary_in.contains(iri) {
        Some("boundary output IRI is also a boundary input"@)
    } else if conn_of_iri.at(iri) is Some {
        Some("boundary output shadows an instance port connector"@)
    } else {
        None
    }
}

/// Scan the first `k` declared outputs: each declared output that is also a boundary input or
/// a connector identity is refused once; returns the refused IRIs and the refusals.
pub open spec fn shadowed_v(
    ids: Seq<Seq<char>>,
    boundary_in: Seq<Seq<char>>,
    boundary_out: Seq<Seq<char>>,
    conn_of_iri: StrMap<ConnectorId>,
    k: nat,
) -> (Seq<Seq<char>>, Seq<Finding>)
    decreases k,
{
    if k == 0 || k > ids.len() {
        (seq![], seq![])
    } else {
        let (sh, f) = shadowed_v(ids, boundary_in, boundary_out, conn_of_iri, (k - 1) as nat);
        let iri = ids[k - 1];
        if !boundary_out.contains(iri) || sh.contains(iri) {
            (sh, f)
        } else {
            match shadow_message(iri, boundary_in, conn_of_iri) {
                Some(m) => (sh.push(iri), f.push((DiagCode::BoundaryOutputShadowsConnector, m, Some(iri)))),
                None => (sh, f),
            }
        }
    }
}

/// The refusals of outputs with more than one distinct driver, in entry order.
pub open spec fn multiply_driven_v(drivers: Seq<(String, Vec<String>)>, k: nat) -> Seq<Finding>
    decreases k,
{
    if k == 0 || k > drivers.len() {
        seq![]
    } else {
        let e = drivers[k - 1];
        multiply_driven_v(drivers, (k - 1) as nat) + if e.1@.len() > 1 {
            seq![
                (
                    DiagCode::SingleAssignment,
                    "boundary output is multiply driven (distinct drivers "@ + decimal(e.1@.len()) + ")"@,
                    Some(e.0@),
                ),
            ]
        } else {
            seq![]
        }
    }
}

/// The outputs that have drivers.
pub open spec fn driven_ids(drivers: Seq<(String, Vec<String>)>) -> Seq<Seq<char>> {
    drivers.map_values(|e: (String, Vec<String>)| e.0@)
}

/// Scan the first `k` declared outputs: a declared output whose node exists, that nothing
/// drives and that was not refused is warned about once; returns the warned IRIs and warnings.
pub open spec fn undriven_v(
    ids: Seq<Seq<char>>,
    boundary_out: Seq<Seq<char>>,
    node_ids: Seq<Seq<char>>,
    driven: Seq<Seq<char>>,
    shadowed: Seq<Seq<char>>,
    k: nat,
) -> (Seq<Seq<char>>, Seq<Note>)
    decreases k,
{
    if k == 0 || k > ids.len() {
        (seq![], seq![])
    } else {
        let (seen, n) = undriven_v(ids, boundary_out, node_ids, driven, shadowed, (k - 1) as nat);
        let iri = ids[k - 1];
        if boundary_out.contains(iri) && node_ids.contains(iri) && !driven.contains(iri) && !shadowed.contains(iri)
            && !seen.contains(iri) {
            (
                seen.push(iri),
                n.push(
                    (
                        Severity::Warning,
                        DiagCode::UndrivenBoundaryOutput,
                        "declared boundary output has no internal driver"@,
                        Some(iri),
                    ),
                ),
            )
        } else {
            (seen, n)
        }
    }
}

/// Everything the declared-interface checks raise, in order: the shadowing refusals, the
/// multiply driven refusals, then the undriven warnings.
pub open spec fn interface_notes(
    top: Node,
    boundary_in: Seq<Seq<char>>,
    boundary_out: Seq<Seq<char>>,
    conn_of_iri: StrMap<ConnectorId>,
    node_ids: Seq<Seq<char>>,
    drivers: Seq<(String, Vec<String>)>,
) -> Seq<Note> {
    let ids = output_ids(top);
    let (sh, f) = shadowed_v(ids, boundary_in, boundary_out, conn_of_iri, ids.len());
    errors_of(f) + errors_of(multiply_driven_v(drivers, drivers.len())) + undriven_v(
        ids,
        boundary_out,
        node_ids,
        driven_ids(drivers),
        sh,
        ids.len(),
    ).1
}

fn error_about(code: DiagCode, message: String, subject: &str) -> (d: Diagnostic)
    ensures
        is_note(d, (Severity::Error, code, message@, Some(subject@))),
{
    Diagnostic::error(code, message).with_subject(owned(subject))
}

fn refuse_shadowed(
    top: &Node,
    boundary_in: &Vec<String>,
    boundary_out: &Vec<String>,
    conn_of_iri: &StrMap<ConnectorId>,
    diags: &mut Vec<Diagnostic>,
) -> (r: Vec<String>)
    ensures
        ({
            let ids = output_ids(*top);
            let v = shadowed_v(ids, names(boundary_in@), names(boundary_out@), *conn_of_iri, ids.len());
            &&& names(r@) == v.0
            &&& appends_notes(old(diags)@, final(diags)@, errors_of(v.1))
        }),
{
    let refs = top.has_output.as_slice();
    let ghost ids = output_ids(*top);
    let ghost bin = names(boundary_in@);
    let ghost bout = names(boundary_out@);
    let mut shadowed: Vec<String> = Vec::new();
    proof {
        lemma_notes_none(diags@);
    }
    let mut k: usize = 0;
    while k < refs.len()
        invariant
            refs@ == top.has_output.items(),
            ids == output_ids(*top),
            bin == names(boundary_in@),
            bout == names(boundary_out@),
            k <= refs@.len(),
            ({
                let v = shadowed_v(ids, bin, bout, *conn_of_iri, k as nat);
                &&& names(shadowed@) == v.0
                &&& appends_notes(old(diags)@, diags@, errors_of(v.1))
            }),
        decreases refs@.len() - k,
    {
        let iri = refs[k].id.as_str();
        assert(ids[k as int] == iri@);
        let ghost prev = shadowed_v(ids, bin, bout, *conn_of_iri, k as nat);
        let ghost dk = diags@;
        if contains_str(boundary_out, iri) && !contains_str(&shadowed, iri) {
            let message = if contains_str(boundary_in, iri) {
                Some("boundary output IRI is also a boundary input")
            } else if conn_of_iri.get(iri).is_some() {
                Some("boundary output shadows an instance port connector")
            } else {
                None
            };
            match message {
                Some(m) => {
                    let d = error_about(DiagCode::BoundaryOutputShadowsConnector, owned(m), iri);
                    let ghost n: Note = (Severity::Error, DiagCode::BoundaryOutputShadowsConnector, m@, Some(iri@));
                    proof {
                        lemma_notes_one(diags@, d, n);
                        lemma_notes_trans(old(diags)@, dk, dk.push(d), errors_of(prev.1), seq![n]);
                        assert(errors_of(prev.1) + seq![n] =~= errors_of(
                            prev.1.push((DiagCode::BoundaryOutputShadowsConnector, m@, Some(iri@))),
                        ));
                    }
                    diags.push(d);
                    let ghost s0 = shadowed@;
                    shadowed.push(owned(iri));
                    assert(names(shadowed@) =~= names(s0).push(iri@));
                },
                None => {},
            }
        }
        k += 1;
    }
    shadowed
}

fn refuse_multiply_driven(drivers: &Vec<(String, Vec<String>)>, diags: &mut Vec<Diagnostic>)
    ensures
        appends_notes(old(diags)@, final(diags)@, errors_of(multiply_driven_v(drivers@, drivers@.len()))),
{
    proof {
        lemma_notes_none(diags@);
    }
    let mut k: usize = 0;
    while k < drivers.len()
        invariant
            k <= drivers@.len(),
            appends_notes(old(diags)@, diags@, errors_of(multiply_driven_v(drivers@, k as nat))),
        decreases drivers@.len() - k,
    {
        let e = &drivers[k];
        let ghost prev = multiply_driven_v(drivers@, k as nat);
        let ghost dk = diags@;
        if e.1.len() > 1 {
            let mut message = owned("boundary output is multiply driven (distinct drivers ");
            push_str(&mut message, decimal_string(e.1.len()).as_str());
            push_str(&mut message, ")");
            let d = error_about(DiagCode::SingleAssignment, message, e.0.as_str());
            let ghost f: Finding = (DiagCode::SingleAssignment, message@, Some(e.0@));
            let ghost n: Note = (Severity::Error, DiagCode::SingleAssignment, message@, Some(e.0@));
            proof {
                lemma_notes_one(diags@, d, n);
                lemma_notes_trans(old(diags)@, dk, dk.push(d), errors_of(prev), seq![n]);
                assert(errors_of(prev) + seq![n] =~= errors_of(prev + seq![f]));
            }
            diags.push(d);
        } else {
            assert(multiply_driven_v(drivers@, (k + 1) as nat) =~= prev);
        }
        k += 1;
    }
}

fn driver_keys(drivers: &Vec<(String, Vec<String>)>) -> (r: Vec<String>)
    ensures
        names(r@) == driven_ids(drivers@),
{
    let mut r: Vec<String> = Vec::new();
    let mut k: usize = 0;
    while k < drivers.len()
        invariant
            k <= drivers@.len(),
            names(r@) == driven_ids(drivers@).take(k as int),
        decreases drivers@.len() - k,
    {
        let ghost r0 = r@;
        r.push(owned(drivers[k].0.as_str()));
        assert(names(r@) =~= names(r0).push(drivers@[k as int].0@));
        assert(driven_ids(drivers@).take(k + 1) =~= driven_ids(drivers@).take(k as int).push(drivers@[k as int].0@));
        k += 1;
    }
    assert(driven_ids(drivers@).take(k as int) =~= driven_ids(drivers@));
    r
}

fn warn_undriven(
    top: &Node,
    boundary_out: &Vec<String>,
    node_ids: &Vec<String>,
    drivers: &Vec<(String, Vec<String>)>,
    shadowed: &Vec<String>,
    diags: &mut Vec<Diagnostic>,
)
    ensures
        ({
            let ids = output_ids(*top);
            let v = undriven_v(ids, names(boundary_out@), names(node_ids@), driven_ids(drivers@), names(shadowed@), ids.len());
            appends_notes(old(diags)@, final(diags)@, v.1)
        }),
{
    let refs = top.has_output.as_slice();
    let ghost ids = output_ids(*top);
    let driven = driver_keys(drivers);
    let mut seen: Vec<String> = Vec::new();
    proof {
        lemma_notes_none(diags@);
    }
    let mut k: usize = 0;
    while k < refs.len()
        invariant
            refs@ == top.has_output.items(),
            ids == output_ids(*top),
            names(driven@) == driven_ids(drivers@),
            k <= refs@.len(),
            ({
                let v = undriven_v(ids, names(boundary_out@), names(node_ids@), driven_ids(drivers@), names(shadowed@), k as nat);
                &&& names(seen@) == v.0
                &&& appends_notes(old(diags)@, diags@, v.1)
            }),
        decreases refs@.len() - k,
    {
        let iri = refs[k].id.as_str();
        assert(ids[k as int] == iri@);
        let ghost prev = undriven_v(ids, names(boundary_out@), names(node_ids@), driven_ids(drivers@), names(shadowed@), k as nat);
        let ghost dk = diags@;
        if contains_str(boundary_out, iri) && contains_str(node_ids, iri) && !contains_str(&driven, iri)
            && !contains_str(shadowed, iri) && !contains_str(&seen, iri) {
            let d = Diagnostic::warning(DiagCode::UndrivenBoundaryOutput, owned("declared boundary output has no internal driver"))
                .with_subject(owned(iri));
            let ghost n: Note = (
                Severity::Warning,
                DiagCode::UndrivenBoundaryOutput,
                "declared boundary output has no internal driver"@,
                Some(iri@),
            );
            proof {
                lemma_notes_one(diags@, d, n);
                lemma_notes_trans(old(diags)@, dk, dk.push(d), prev.1, seq![n]);
            }
            diags.push(d);
            let ghost s0 = seen@;
            seen.push(owned(iri));
            assert(names(seen@) =~= names(s0).push(iri@));
        }
        k += 1;
    }
}

/// Run the declared-interface checks over the top composite's `hasOutput` list: refuse every
/// declared output that is also a boundary input or a connector identity, refuse every output
/// with more than one distinct driver, and warn about every declared output whose node exists
/// but that nothing drives (a refused one is not warned about again). `drivers` lists each
/// driven output with its distinct drivers.
pub fn check_declared_interface(
    top: &Node,
    boundary_in: &Vec<String>,
    boundary_out: &Vec<String>,
    conn_of_iri: &StrMap<ConnectorId>,
    node_ids: &Vec<String>,
    drivers: &Vec<(String, Vec<String>)>,
    diags: &mut Vec<Diagnostic>,
)
    ensures
        appends_notes(
            old(diags)@,
            final(diags)@,
            interface_notes(*top, names(boundary_in@), names(boundary_out@), *conn_of_iri, names(node_ids@), drivers@),
        ),
{
    let ghost d0 = diags@;
    let shadowed = refuse_shadowed(top, boundary_in, boundary_out, conn_of_iri, diags);
    let ghost d1 = diags@;
    refuse_multiply_driven(drivers, diags);
    let ghost d2 = diags@;
    warn_undriven(top, boundary_out, node_ids, drivers, &shadowed, diags);
    proof {
        let ids = output_ids(*top);
        let v = shadowed_v(ids, names(boundary_in@), names(boundary_out@), *conn_of_iri, ids.len());
        lemma_notes_trans(d0, d1, d2, errors_of(v.1), errors_of(multiply_driven_v(drivers@, drivers@.len())));
        lemma_notes_trans(
            d0,
            d2,
            diags@,
            errors_of(v.1) + errors_of(multiply_driven_v(drivers@, drivers@.len())),
            undriven_v(ids, names(boundary_out@), names(node_ids@), driven_ids(drivers@), v.0, ids.len()).1,
        );
    }
}

} // verus!
