//! Collecting a block's own declaration chain for planning, and the tagged findings the
//! specialize pass withholds until lowering has run.
use vstd::prelude::*;
use crate::composite::{find_node, not_in};
use crate::composite_orientation::last_index;
use crate::diag::Diagnostic;
use crate::dto::{CxfDocument, CxfValue, Node};
use crate::specialize::{contains_str, names, ref_ids, Specialization};

verus! {

/// The IRIs of a node's own declarations in chained order: its parameters, then its constants.
pub open spec fn declaration_iris(node: Node) -> Seq<Seq<char>> {
    ref_ids(node.has_parameter) + ref_ids(node.has_constant)
}

/// The declaration chain of `node`, in chained order. At the lowering invocation
/// (`specialization` given) a pruned declaration is left out; the specialize invocation keeps
/// every one.
pub fn chain_iris<'a>(node: &'a Node, specialization: Option<&Specialization>) -> (r: Vec<&'a str>)
    ensures
        r@.map_values(|s: &str| s@) == match specialization {
            Some(sp) => not_in(declaration_iris(*node), sp.pruned()),
            None => declaration_iris(*node),
        },
{
    let params = node.has_parameter.as_slice();
    let consts = node.has_constant.as_slice();
    let ghost all = declaration_iris(*node);
    let ghost pruned = match specialization {
        Some(sp) => sp.pruned(),
        None => Seq::<Seq<char>>::empty(),
    };
    let mut r: Vec<&'a str> = Vec::new();
    let mut k: usize = 0;
    while k < params.len()
        invariant
            params@ == node.has_parameter.items(),
            all == declaration_iris(*node),
            k <= params@.len(),
            pruned == match specialization {
                Some(sp) => sp.pruned(),
                None => Seq::<Seq<char>>::empty(),
            },
            r@.map_values(|s: &str| s@) == not_in(all.take(k as int), pruned),
        decreases params@.len() - k,
    {
        let iri: &'a str = params[k].id.as_str();
        assert(all[k as int] == iri@);
        assert(all.take(k + 1).drop_last() =~= all.take(k as int));
        let keep = match specialization {
            Some(sp) => !sp.is_inactive(iri),
            None => true,
        };
        let ghost before = r@.map_values(|s: &str| s@);
        if keep {
            r.push(iri);
            assert(r@.map_values(|s: &str| s@) =~= before.push(iri@));
        }
        k += 1;
    }
    let mut k: usize = 0;
    let np = params.len();
    while k < consts.len()
        invariant
            consts@ == node.has_constant.items(),
            np == node.has_parameter.items().len(),
            all == declaration_iris(*node),
            k <= consts@.len(),
            pruned == match specialization {
                Some(sp) => sp.pruned(),
                None => Seq::<Seq<char>>::empty(),
            },
            r@.map_values(|s: &str| s@) == not_in(all.take(np + k), pruned),
        decreases consts@.len() - k,
    {
        let iri: &'a str = consts[k].id.as_str();
        assert(all[np + k] == iri@);
        assert(all.take(np + k + 1).drop_last() =~= all.take(np + k));
        let keep = match specialization {
            Some(sp) => !sp.is_inactive(iri),
            None => true,
        };
        let ghost before = r@.map_values(|s: &str| s@);
        if keep {
            r.push(iri);
            assert(r@.map_values(|s: &str| s@) =~= before.push(iri@));
        }
        k += 1;
    }
    assert(all.take(all.len() as int) =~= all);
    proof {
        if specialization is None {
            lemma_not_in_empty(all);
        }
    }
    r
}

proof fn lemma_not_in_empty(ids: Seq<Seq<char>>)
    ensures
        not_in(ids, Seq::<Seq<char>>::empty()) == ids,
    decreases ids.len(),
{
    if ids.len() > 0 {
        lemma_not_in_empty(ids.drop_last());
        assert(ids.drop_last().push(ids.last()) =~= ids);
    }
}

/// The right-hand side a declaration grounds from: the `Expr` text of the node its IRI
/// resolves to; nothing for a missing node, a non-`Expr` value, or, at the lowering invocation,
/// an array-flagged node (refused before grounding).
pub open spec fn rhs_of(nodes: Seq<Node>, iri: Seq<char>, lowering: bool) -> Option<Seq<char>> {
    let i = last_index(nodes, iri, nodes.len() as int);
    if i < 0 {
        None
    } else if lowering && nodes[i].is_array == Some(true) {
        None
    } else {
        match nodes[i].value {
            Some(CxfValue::Expr(t)) => Some(t@),
            _ => None,
        }
    }
}

/// The right-hand side of each chained declaration, in chained order.
pub fn chain_rhs<'a>(doc: &'a CxfDocument, iris: &Vec<&str>, lowering: bool) -> (r: Vec<Option<&'a str>>)
    ensures
        r@.len() == iris@.len(),
        forall|i: int| 0 <= i < iris@.len() ==> (match #[trigger] r@[i] {
            Some(t) => Some(t@),
            None => None,
        }) == rhs_of(doc.graph@, iris@[i]@, lowering),
{
    let mut r: Vec<Option<&'a str>> = Vec::new();
    let mut k: usize = 0;
    while k < iris.len()
        invariant
            k <= iris@.len(),
            r@.len() == k,
            forall|i: int| 0 <= i < k ==> (match #[trigger] r@[i] {
                Some(t) => Some(t@),
                None => None,
            }) == rhs_of(doc.graph@, iris@[i]@, lowering),
        decreases iris@.len() - k,
    {
        let rhs: Option<&'a str> = match find_node(&doc.graph, iris[k]) {
            None => None,
            Some(i) => {
                let node = &doc.graph[i];
                if lowering && node.is_array == Some(true) {
                    None
                } else {
                    match &node.value {
                        Some(CxfValue::Expr(t)) => Some(t.as_str()),
                        _ => None,
                    }
                }
            },
        };
        r.push(rhs);
        k += 1;
    }
    r
}

/// Tagged findings the specialize pass computed per chain, withheld until lowering has run:
/// each chain's findings surface once per import, from the lowering view when both passes
/// evaluate it.
pub struct WithheldFindings {
    pub by_chain: Vec<(String, Vec<Diagnostic>)>,
}

/// The findings of the recorded chains not in `evaluated`, in recording order.
pub open spec fn unvisited_findings(by_chain: Seq<(String, Vec<Diagnostic>)>, evaluated: Seq<Seq<char>>) -> Seq<
    Diagnostic,
>
    decreases by_chain.len(),
{
    if by_chain.len() == 0 {
        seq![]
    } else {
        unvisited_findings(by_chain.drop_last(), evaluated) + if evaluated.contains(by_chain.last().0@) {
            seq![]
        } else {
            by_chain.last().1@
        }
    }
}

impl WithheldFindings {
    /// No findings withheld.
    pub fn new() -> (w: WithheldFindings)
        ensures
            w.by_chain@.len() == 0,
    {
        WithheldFindings { by_chain: Vec::new() }
    }

    /// Record one chain's withheld findings; nothing is recorded when there are none.
    pub fn record(&mut self, chain: &str, findings: Vec<Diagnostic>)
        ensures
            final(self).by_chain@.len() == old(self).by_chain@.len() + if findings@.len() > 0 {
                1int
            } else {
                0int
            },
            findings@.len() == 0 ==> final(self).by_chain@ == old(self).by_chain@,
            findings@.len() > 0 ==> {
                let b = final(self).by_chain@;
                &&& b.drop_last() == old(self).by_chain@
                &&& b.last().0@ == chain@
                &&& b.last().1@ == findings@
            },
    {
        if findings.len() > 0 {
            let ghost before = self.by_chain@;
            self.by_chain.push((crate::text::owned(chain), findings));
            assert(self.by_chain@.drop_last() =~= before);
        }
    }

    /// Emit the findings of every recorded chain that the lowering pass did not evaluate
    /// itself, in recording order.
    pub fn emit_unvisited(self, evaluated: &Vec<String>, diags: &mut Vec<Diagnostic>)
        ensures
            final(diags)@ == old(diags)@ + unvisited_findings(self.by_chain@, names(evaluated@)),
    {
        let ghost chains = self.by_chain@;
        let mut rest = self.by_chain;
        let ghost mut k: int = 0;
        assert(old(diags)@ + unvisited_findings(chains.take(0), names(evaluated@)) =~= old(diags)@);
        assert(chains.skip(0) =~= chains);
        while rest.len() > 0
            invariant
                0 <= k <= chains.len(),
                rest@ == chains.skip(k),
                diags@ == old(diags)@ + unvisited_findings(chains.take(k), names(evaluated@)),
            decreases rest@.len(),
        {
            assert(chains.take(k + 1).drop_last() =~= chains.take(k));
            assert(chains.skip(k)[0] == chains[k]);
            let (chain, mut findings) = rest.remove(0);
            assert(rest@ =~= chains.skip(k + 1));
            let ghost before = diags@;
            if !contains_str(evaluated, chain.as_str()) {
                diags.append(&mut findings);
            }
            proof {
                k = k + 1;
            }
        }
        assert(chains.take(chains.len() as int) =~= chains);
    }
}

} // verus!
