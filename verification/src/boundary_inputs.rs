//! The top composite's declared boundary inputs: a root input may not share its IRI with an
//! instance port, a contained block, or an instance member, since export emits each as a node.
use vstd::prelude::*;
use crate::composite::Finding;
use crate::diag::{appends, lemma_appends_none, lemma_appends_one, lemma_appends_trans, DiagCode, Diagnostic};
use crate::dto::{IriRef, Node, OneOrMany};
use crate::model::ConnectorId;
use crate::port_binding::str_eq;
use crate::specialize::{contains_str, names};
use crate::strmap::StrMap;
use crate::text::owned;

verus! {

/// The `@id`s of a reference list.
pub open spec fn ref_ids(r: OneOrMany<IriRef>) -> Seq<Seq<char>> {
    r.items().map_values(|x: IriRef| x.id@)
}

/// `iri` is a parameter, constant or nested instance of one of `insts`.
pub open spec fn is_instance_member(insts: Seq<Node>, iri: Seq<char>) -> bool {
    exists|i: int|
        0 <= i < insts.len() && (ref_ids(#[trigger] insts[i].has_parameter).contains(iri) || ref_ids(
            insts[i].has_constant,
        ).contains(iri) || ref_ids(insts[i].has_instance).contains(iri))
}

/// The `@id`s of `insts`.
pub open spec fn node_ids(insts: Seq<Node>) -> Seq<Seq<char>> {
    insts.map_values(|n: Node| n.id@)
}

/// The refusal message of a root input aliasing another role, if it does: an instance port
/// first, then a contained block, then an instance member.
pub open spec fn alias_message(iri: Seq<char>, conn_of_iri: StrMap<ConnectorId>, insts: Seq<Node>) -> Option<Seq<char>> {
    if conn_of_iri.at(iri) is Some {
        Some("boundary input shadows an instance port connector"@)
    } else if node_ids(insts).contains(iri) {
        Some("boundary input shadows a contained block"@)
    } else if is_instance_member(insts, iri) {
        Some("boundary input shadows an instance member"@)
    } else {
        None
    }
}

/// Scan the first `k` root inputs: each boundary input that aliases another role is refused
/// once; returns the refused IRIs and the refusals.
pub open spec fn aliases_v(
    ids: Seq<Seq<char>>,
    boundary_in: Seq<Seq<char>>,
    conn_of_iri: StrMap<ConnectorId>,
    insts: Seq<Node>,
    k: nat,
) -> (Seq<Seq<char>>, Seq<Finding>)
    decreases k,
{
    if k == 0 || k > ids.len() {
        (seq![], seq![])
    } else {
        let (seen, f) = aliases_v(ids, boundary_in, conn_of_iri, insts, (k - 1) as nat);
        let iri = ids[k - 1];
        if !boundary_in.contains(iri) || seen.contains(iri) {
            (seen, f)
        } else {
            match alias_message(iri, conn_of_iri, insts) {
                Some(m) => (seen.push(iri), f.push((DiagCode::MalformedDocument, m, Some(iri)))),
                None => (seen, f),
            }
        }
    }
}

pub(crate) fn refs_contain(r: &OneOrMany<IriRef>, iri: &str) -> (b: bool)
    ensures
        b == ref_ids(*r).contains(iri@),
{
    let s = r.as_slice();
    let mut i: usize = 0;
    while i < s.len()
        invariant
            s@ == r.items(),
            i <= s@.len(),
            forall|j: int| 0 <= j < i ==> s@[j].id@ != iri@,
        decreases s@.len() - i,
    {
        if str_eq(s[i].id.as_str(), iri) {
            assert(ref_ids(*r)[i as int] == iri@);
            return true;
        }
        i += 1;
    }
    proof {
        if ref_ids(*r).contains(iri@) {
            let j = choose|j: int| 0 <= j < ref_ids(*r).len() && ref_ids(*r)[j] == iri@;
            assert(s@[j].id@ == iri@);
        }
    }
    false
}

fn block_listed(insts: &[Node], iri: &str) -> (b: bool)
    ensures
        b == node_ids(insts@).contains(iri@),
{
    let mut i: usize = 0;
    while i < insts.len()
        invariant
            i <= insts@.len(),
            forall|j: int| 0 <= j < i ==> insts@[j].id@ != iri@,
        decreases insts@.len() - i,
    {
        if str_eq(insts[i].id.as_str(), iri) {
            assert(node_ids(insts@)[i as int] == iri@);
            return true;
        }
        i += 1;
    }
    proof {
        if node_ids(insts@).contains(iri@) {
            let j = choose|j: int| 0 <= j < node_ids(insts@).len() && node_ids(insts@)[j] == iri@;
            assert(insts@[j].id@ == iri@);
        }
    }
    false
}

fn member_listed(insts: &[Node], iri: &str) -> (b: bool)
    ensures
        b == is_instance_member(insts@, iri@),
{
    let mut i: usize = 0;
    while i < insts.len()
        invariant
            i <= insts@.len(),
            forall|j: int|
                0 <= j < i ==> !(ref_ids(#[trigger] insts@[j].has_parameter).contains(iri@) || ref_ids(
                    insts@[j].has_constant,
                ).contains(iri@) || ref_ids(insts@[j].has_instance).contains(iri@)),
        decreases insts@.len() - i,
    {
        let n = &insts[i];
        if refs_contain(&n.has_parameter, iri) || refs_contain(&n.has_constant, iri) || refs_contain(&n.has_instance, iri) {
            return true;
        }
        i += 1;
    }
    false
}

/// Refuse every root input IRI that is also an instance port connector, a contained block, or a
/// member of an instance, once each, in `hasInput` order; only declared boundary inputs are
/// considered.
pub fn refuse_role_aliases(
    top: &Node,
    boundary_in: &Vec<String>,
    conn_of_iri: &StrMap<ConnectorId>,
    insts: &[Node],
    diags: &mut Vec<Diagnostic>,
)
    ensures
        appends(
            old(diags)@,
            final(diags)@,
            aliases_v(ref_ids(top.has_input), names(boundary_in@), *conn_of_iri, insts@, ref_ids(top.has_input).len()).1,
        ),
{
    let refs = top.has_input.as_slice();
    let ghost ids = ref_ids(top.has_input);
    let ghost bin = names(boundary_in@);
    let mut seen: Vec<String> = Vec::new();
    proof {
        lemma_appends_none(diags@);
    }
    let mut k: usize = 0;
    while k < refs.len()
        invariant
            refs@ == top.has_input.items(),
            ids == ref_ids(top.has_input),
            bin == names(boundary_in@),
            k <= refs@.len(),
            ({
                let v = aliases_v(ids, bin, *conn_of_iri, insts@, k as nat);
                &&& names(seen@) == v.0
                &&& appends(old(diags)@, diags@, v.1)
            }),
        decreases refs@.len() - k,
    {
        let iri = refs[k].id.as_str();
        assert(ids[k as int] == iri@);
        let ghost prev = aliases_v(ids, bin, *conn_of_iri, insts@, k as nat);
        let ghost dk = diags@;
        if contains_str(boundary_in, iri) && !contains_str(&seen, iri) {
            let message = if conn_of_iri.get(iri).is_some() {
                Some("boundary input shadows an instance port connector")
            } else if block_listed(insts, iri) {
                Some("boundary input shadows a contained block")
            } else if member_listed(insts, iri) {
                Some("boundary input shadows an instance member")
            } else {
                None
            };
            match message {
                Some(m) => {
                    let d = Diagnostic::error(DiagCode::MalformedDocument, owned(m)).with_subject(owned(iri));
                    let ghost f: Finding = (DiagCode::MalformedDocument, m@, Some(iri@));
                    proof {
                        lemma_appends_one(diags@, d, f);
                        lemma_appends_trans(old(diags)@, dk, dk.push(d), prev.1, seq![f]);
                    }
                    diags.push(d);
                    let ghost s0 = seen@;
                    seen.push(owned(iri));
                    assert(names(seen@) =~= names(s0).push(iri@));
                },
                None => {},
            }
        }
        k += 1;
    }
}

} // verus!
