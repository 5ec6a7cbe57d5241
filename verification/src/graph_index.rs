//! The first step of resolving a document: every `@graph` node needs an `@id`, and no two
//! nodes may share one.
use vstd::prelude::*;
use vstd::hash_map::StringHashMap;
use crate::composite_orientation::last_index;
use crate::diag::{appends, lemma_appends_none, lemma_appends_one, lemma_appends_trans, DiagCode, Diagnostic};
use crate::dto::{IriRef, Node};
use crate::specialize::{contains_str, names, ref_ids};
use crate::text::{decimal, decimal_string, owned, push_str};

verus! {

/// The refusal of an empty `@graph`.
pub open spec fn empty_graph_finding() -> (DiagCode, Seq<char>, Option<Seq<char>>) {
    (DiagCode::MalformedDocument, "CXF @graph is empty — nothing to resolve"@, None)
}

/// The subject naming the node at position `index`.
pub open spec fn position_subject(index: nat) -> Seq<char> {
    "connector at @graph["@ + decimal(index) + "]"@
}

/// The refusal of a node without an `@id`.
pub open spec fn missing_id_finding(index: nat) -> (DiagCode, Seq<char>, Option<Seq<char>>) {
    (
        DiagCode::MissingConnectorId,
        position_subject(index) + " is missing its authored @id"@,
        Some(position_subject(index)),
    )
}

/// The refusal of a node repeating the `@id` of the node at `previous`.
pub open spec fn duplicate_id_finding(id: Seq<char>, previous: nat, index: nat) -> (
    DiagCode,
    Seq<char>,
    Option<Seq<char>>,
) {
    (
        DiagCode::DuplicateId,
        "duplicate @id `"@ + id + "` on @graph nodes "@ + decimal(previous) + " and "@ + decimal(index),
        Some(id),
    )
}

/// The refusals of the first `k` nodes, in order: a node without an `@id` is refused; a node
/// whose `@id` an earlier node carries is refused naming the latest such node.
pub open spec fn graph_index_findings(nodes: Seq<Node>, k: nat) -> Seq<(DiagCode, Seq<char>, Option<Seq<char>>)>
    decreases k,
{
    if k == 0 || k > nodes.len() {
        seq![]
    } else {
        let i = k - 1;
        let id = nodes[i].id@;
        graph_index_findings(nodes, (k - 1) as nat) + if id.len() == 0 {
            seq![missing_id_finding(i as nat)]
        } else if last_index(nodes, id, i) >= 0 {
            seq![duplicate_id_finding(id, last_index(nodes, id, i) as nat, i as nat)]
        } else {
            seq![]
        }
    }
}

/// The latest position among the first `k` nodes of each non-empty `@id`.
pub open spec fn latest_positions(nodes: Seq<Node>, k: int) -> Map<Seq<char>, usize> {
    Map::new(
        |x: Seq<char>| x.len() > 0 && last_index(nodes, x, k) >= 0,
        |x: Seq<char>| last_index(nodes, x, k) as usize,
    )
}

proof fn lemma_last_index_bounds(nodes: Seq<Node>, x: Seq<char>, k: int)
    requires
        0 <= k <= nodes.len(),
    ensures
        -1 <= last_index(nodes, x, k) < k,
        last_index(nodes, x, k) >= 0 ==> nodes[last_index(nodes, x, k)].id@ == x,
    decreases k,
{
    if k > 0 {
        lemma_last_index_bounds(nodes, x, k - 1);
    }
}

/// Index the `@graph` by `@id`: an empty graph is refused alone; otherwise every node without an
/// `@id` and every node repeating an earlier node's `@id` is refused, in node order.
pub fn graph_index_diagnostics(nodes: &Vec<Node>) -> (r: Vec<Diagnostic>)
    ensures
        nodes@.len() == 0 ==> appends(seq![], r@, seq![empty_graph_finding()]),
        nodes@.len() > 0 ==> appends(seq![], r@, graph_index_findings(nodes@, nodes@.len())),
{
    let mut diags: Vec<Diagnostic> = Vec::new();
    if nodes.len() == 0 {
        let d = Diagnostic::error(DiagCode::MalformedDocument, owned("CXF @graph is empty — nothing to resolve"));
        proof {
            lemma_appends_one(diags@, d, empty_graph_finding());
        }
        diags.push(d);
        return diags;
    }
    let mut latest: StringHashMap<usize> = StringHashMap::new();
    proof {
        lemma_appends_none(diags@);
        assert(latest@ =~= latest_positions(nodes@, 0));
    }
    let mut i: usize = 0;
    while i < nodes.len()
        invariant
            i <= nodes@.len(),
            latest@ == latest_positions(nodes@, i as int),
            appends(seq![], diags@, graph_index_findings(nodes@, i as nat)),
        decreases nodes@.len() - i,
    {
        let ghost before = diags@;
        let id = nodes[i].id.as_str();
        proof {
            lemma_last_index_bounds(nodes@, id@, i as int);
        }
        if id.unicode_len() == 0 {
            let mut subject = owned("connector at @graph[");
            push_str(&mut subject, decimal_string(i).as_str());
            push_str(&mut subject, "]");
            let mut m = owned(subject.as_str());
            push_str(&mut m, " is missing its authored @id");
            let d = Diagnostic::error(DiagCode::MissingConnectorId, m).with_subject(subject);
            proof {
                lemma_appends_one(before, d, missing_id_finding(i as nat));
                lemma_appends_trans(seq![], before, before.push(d), graph_index_findings(nodes@, i as nat), seq![missing_id_finding(i as nat)]);
            }
            diags.push(d);
            proof {
                assert forall|x: Seq<char>| x.len() > 0 implies last_index(nodes@, x, i + 1) == last_index(nodes@, x, i as int) by {
                    assert(nodes@[i as int].id@ != x);
                }
                assert(latest_positions(nodes@, i + 1) =~= latest_positions(nodes@, i as int));
                assert(graph_index_findings(nodes@, (i + 1) as nat) == graph_index_findings(nodes@, i as nat) + seq![
                    missing_id_finding(i as nat),
                ]);
            }
        } else {
            match latest.get(id) {
                Some(previous) => {
                    let previous: usize = *previous;
                    let mut m = owned("duplicate @id `");
                    push_str(&mut m, id);
                    push_str(&mut m, "` on @graph nodes ");
                    push_str(&mut m, decimal_string(previous).as_str());
                    push_str(&mut m, " and ");
                    push_str(&mut m, decimal_string(i).as_str());
                    let d = Diagnostic::error(DiagCode::DuplicateId, m).with_subject(owned(id));
                    let ghost f = duplicate_id_finding(id@, previous as nat, i as nat);
                    proof {
                        lemma_appends_one(before, d, f);
                        lemma_appends_trans(seq![], before, before.push(d), graph_index_findings(nodes@, i as nat), seq![f]);
                    }
                    diags.push(d);
                },
                None => {
                    proof {
                        lemma_appends_none(before);
                        assert(graph_index_findings(nodes@, (i + 1) as nat) =~= graph_index_findings(nodes@, i as nat));
                    }
                },
            }
            latest.insert(owned(id), i);
            proof {
                assert(latest@ =~= latest_positions(nodes@, i + 1));
            }
        }
        i += 1;
    }
    diags
}


/// The references of `ids` that are not pruned, in order.
pub open spec fn active(ids: Seq<Seq<char>>, pruned: Seq<Seq<char>>) -> Seq<Seq<char>>
    decreases ids.len(),
{
    if ids.len() == 0 {
        seq![]
    } else {
        active(ids.drop_last(), pruned) + if pruned.contains(ids.last()) {
            seq![]
        } else {
            seq![ids.last()]
        }
    }
}

/// The refusals of the top composite's boundary references among the first `k` of `refs`: an
/// active boundary naming no `@graph` node is refused once, at its first mention.
pub open spec fn boundary_findings(refs: Seq<Seq<char>>, pruned: Seq<Seq<char>>, ids: Seq<Seq<char>>, k: nat) -> Seq<
    (DiagCode, Seq<char>, Option<Seq<char>>),
>
    decreases k,
{
    if k == 0 || k > refs.len() {
        seq![]
    } else {
        let x = refs[k - 1];
        boundary_findings(refs, pruned, ids, (k - 1) as nat) + if !pruned.contains(x) && !ids.contains(x)
            && !refs.take(k - 1).contains(x) {
            seq![(DiagCode::UnresolvedReference, "boundary node not found"@, Some(x))]
        } else {
            seq![]
        }
    }
}

/// The active members of `refs`, in order.
fn keep_active(refs: &[IriRef], pruned: &Vec<String>) -> (r: Vec<String>)
    ensures
        names(r@) == active(refs@.map_values(|x: IriRef| x.id@), names(pruned@)),
{
    let ghost all = refs@.map_values(|x: IriRef| x.id@);
    let mut out: Vec<String> = Vec::new();
    let mut i: usize = 0;
    assert(all.take(0) =~= Seq::<Seq<char>>::empty());
    while i < refs.len()
        invariant
            i <= refs@.len(),
            all == refs@.map_values(|x: IriRef| x.id@),
            names(out@) == active(all.take(i as int), names(pruned@)),
        decreases refs@.len() - i,
    {
        let id = refs[i].id.as_str();
        assert(all.take(i + 1).drop_last() =~= all.take(i as int));
        assert(all.take(i + 1).last() == id@);
        let ghost prev = out@;
        if !contains_str(pruned, id) {
            out.push(owned(id));
            assert(names(out@) =~= names(prev).push(id@));
        }
        i += 1;
    }
    assert(all.take(refs@.len() as int) =~= all);
    out
}

/// The top composite's active children, active boundary inputs and active boundary outputs, and
/// the refusal of every active boundary naming no `@graph` node (`ids`), once each, in the order
/// of its first mention among the inputs then the outputs.
pub fn classify_top(top: &Node, pruned: &Vec<String>, ids: &Vec<String>) -> (r: (
    Vec<String>,
    Vec<String>,
    Vec<String>,
    Vec<Diagnostic>,
))
    ensures
        names(r.0@) == active(ref_ids(top.contains_block), names(pruned@)),
        names(r.1@) == active(ref_ids(top.has_input), names(pruned@)),
        names(r.2@) == active(ref_ids(top.has_output), names(pruned@)),
        appends(
            seq![],
            r.3@,
            boundary_findings(
                ref_ids(top.has_input) + ref_ids(top.has_output),
                names(pruned@),
                names(ids@),
                (ref_ids(top.has_input) + ref_ids(top.has_output)).len(),
            ),
        ),
{
    let children = keep_active(top.contains_block.as_slice(), pruned);
    let inputs = keep_active(top.has_input.as_slice(), pruned);
    let outputs = keep_active(top.has_output.as_slice(), pruned);
    let mut all: Vec<String> = Vec::new();
    let ins = top.has_input.as_slice();
    let outs = top.has_output.as_slice();
    let mut i: usize = 0;
    while i < ins.len()
        invariant
            i <= ins@.len(),
            names(all@) == ins@.map_values(|x: IriRef| x.id@).take(i as int),
        decreases ins@.len() - i,
    {
        let ghost prev = all@;
        all.push(owned(ins[i].id.as_str()));
        assert(names(all@) =~= names(prev).push(ins@[i as int].id@));
        assert(ins@.map_values(|x: IriRef| x.id@).take(i + 1) =~= ins@.map_values(|x: IriRef| x.id@).take(i as int).push(
            ins@[i as int].id@,
        ));
        i += 1;
    }
    let mut j: usize = 0;
    assert(ins@.map_values(|x: IriRef| x.id@).take(ins@.len() as int) =~= ins@.map_values(|x: IriRef| x.id@));
    while j < outs.len()
        invariant
            j <= outs@.len(),
            names(all@) == ins@.map_values(|x: IriRef| x.id@) + outs@.map_values(|x: IriRef| x.id@).take(j as int),
        decreases outs@.len() - j,
    {
        let ghost prev = all@;
        all.push(owned(outs[j].id.as_str()));
        assert(names(all@) =~= names(prev).push(outs@[j as int].id@));
        assert(outs@.map_values(|x: IriRef| x.id@).take(j + 1) =~= outs@.map_values(|x: IriRef| x.id@).take(j as int).push(
            outs@[j as int].id@,
        ));
        j += 1;
    }
    assert(outs@.map_values(|x: IriRef| x.id@).take(outs@.len() as int) =~= outs@.map_values(|x: IriRef| x.id@));
    let ghost refs = names(all@);
    assert(refs == ref_ids(top.has_input) + ref_ids(top.has_output));
    let mut diags: Vec<Diagnostic> = Vec::new();
    proof {
        lemma_appends_none(diags@);
    }
    let mut k: usize = 0;
    while k < all.len()
        invariant
            k <= all@.len(),
            refs == names(all@),
            appends(seq![], diags@, boundary_findings(refs, names(pruned@), names(ids@), k as nat)),
        decreases all@.len() - k,
    {
        let x = all[k].as_str();
        assert(refs[k as int] == x@);
        let mut seen = false;
        let mut m: usize = 0;
        while m < k
            invariant
                m <= k < all@.len(),
                refs == names(all@),
                x@ == refs[k as int],
                seen == refs.take(m as int).contains(x@),
            decreases k - m,
        {
            let ghost t0 = refs.take(m as int);
            let ghost t1 = refs.take(m + 1);
            assert(t1 =~= t0.push(refs[m as int]));
            assert(refs[m as int] == all@[m as int]@);
            let same = crate::port_binding::str_eq(all[m].as_str(), x);
            proof {
                if same {
                    assert(t1[m as int] == x@);
                } else if t1.contains(x@) {
                    let w = choose|w: int| 0 <= w < t1.len() && t1[w] == x@;
                    if w < m {
                        assert(t0[w] == x@);
                    }
                }
                if t0.contains(x@) {
                    let w = choose|w: int| 0 <= w < t0.len() && t0[w] == x@;
                    assert(t1[w] == x@);
                }
            }
            if same {
                seen = true;
            }
            m += 1;
        }
        assert(refs.take(m as int) =~= refs.take(k as int));
        let ghost before = diags@;
        if !seen && !contains_str(pruned, x) && !contains_str(ids, x) {
            let d = Diagnostic::error(DiagCode::UnresolvedReference, owned("boundary node not found")).with_subject(owned(x));
            let ghost f = (DiagCode::UnresolvedReference, "boundary node not found"@, Some(x@));
            proof {
                reveal_strlit("boundary node not found");
                lemma_appends_one(before, d, f);
                lemma_appends_trans(seq![], before, before.push(d), boundary_findings(refs, names(pruned@), names(ids@), k as nat), seq![f]);
            }
            diags.push(d);
        } else {
            proof {
                assert(boundary_findings(refs, names(pruned@), names(ids@), (k + 1) as nat) =~= boundary_findings(
                    refs,
                    names(pruned@),
                    names(ids@),
                    k as nat,
                ));
            }
        }
        k += 1;
    }
    (children, inputs, outputs, diags)
}

} // verus!
