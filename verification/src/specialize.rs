//! The load-time specialization result and its structural pieces: which source nodes a false
//! conditional guard pruned, the shape tests that decide which nodes own members, and the
//! guard-expression spelling normalization.
use vstd::prelude::*;
use crate::dto::{CxfDocument, IriRef, Node, OneOrMany};
use crate::port_binding::str_eq;
use crate::text::{chars_of, owned, push_char, push_str};

verus! {

/// The characters of each string.
pub open spec fn names(v: Seq<String>) -> Seq<Seq<char>> {
    v.map_values(|s: String| s@)
}

/// Whether `x` is one of `v`.
pub fn contains_str(v: &Vec<String>, x: &str) -> (b: bool)
    ensures
        b == names(v@).contains(x@),
{
    let mut i: usize = 0;
    while i < v.len()
        invariant
            i <= v@.len(),
            forall|j: int| 0 <= j < i ==> v@[j]@ != x@,
        decreases v@.len() - i,
    {
        if str_eq(v[i].as_str(), x) {
            assert(names(v@)[i as int] == x@);
            return true;
        }
        i += 1;
    }
    assert forall|j: int| 0 <= j < names(v@).len() implies names(v@)[j] != x@ by {}
    false
}

/// The result of pruning load-time conditional components and connectors.
#[derive(Clone, Debug, Default)]
pub struct Specialization {
    /// The pruned source node IRIs.
    pub inactive: Vec<String>,
}

impl Specialization {
    /// The pruned IRIs.
    pub open spec fn pruned(&self) -> Seq<Seq<char>> {
        names(self.inactive@)
    }

    /// Whether a source node was pruned by a false conditional guard.
    pub fn is_inactive(&self, iri: &str) -> (b: bool)
        ensures
            b == self.pruned().contains(iri@),
    {
        contains_str(&self.inactive, iri)
    }
}

// ---- structural shape tests ----

/// The IRIs of a reference list.
pub open spec fn ref_ids(refs: OneOrMany<IriRef>) -> Seq<Seq<char>> {
    refs.items().map_values(|r: IriRef| r.id@)
}

/// A runtime composite: it contains blocks and is not itself a registered leaf class.
/// `registered` says whether the node's first `@type` names a class of the block registry.
pub open spec fn runtime_composite(n: Node, registered: bool) -> bool {
    n.contains_block.items().len() > 0 && !registered
}

/// Whether `node` is a runtime composite.
pub fn is_runtime_composite(node: &Node, registered: bool) -> (b: bool)
    ensures
        b == runtime_composite(*node, registered),
{
    !node.contains_block.is_empty() && !registered
}

/// Every IRI any node's `containsBlock` references, active or not.
pub open spec fn referents(nodes: Seq<Node>) -> Seq<Seq<char>>
    decreases nodes.len(),
{
    if nodes.len() == 0 {
        seq![]
    } else {
        referents(nodes.drop_last()) + ref_ids(nodes.last().contains_block)
    }
}

/// Every IRI referenced by any node's `containsBlock`, in document order.
pub fn contains_block_referents(doc: &CxfDocument) -> (r: Vec<String>)
    ensures
        names(r@) == referents(doc.graph@),
{
    let mut r: Vec<String> = Vec::new();
    let mut i: usize = 0;
    while i < doc.graph.len()
        invariant
            i <= doc.graph@.len(),
            names(r@) == referents(doc.graph@.take(i as int)),
        decreases doc.graph@.len() - i,
    {
        let refs = doc.graph[i].contains_block.as_slice();
        let mut k: usize = 0;
        while k < refs.len()
            invariant
                i < doc.graph@.len(),
                refs@ == doc.graph@[i as int].contains_block.items(),
                k <= refs@.len(),
                names(r@) == referents(doc.graph@.take(i as int)) + refs@.take(k as int).map_values(
                    |x: IriRef| x.id@,
                ),
            decreases refs@.len() - k,
        {
            let ghost prev = r@;
            r.push(owned(refs[k].id.as_str()));
            assert(refs@.take(k + 1).map_values(|x: IriRef| x.id@) =~= refs@.take(k as int).map_values(
                |x: IriRef| x.id@,
            ).push(refs@[k as int].id@));
            assert(names(r@) =~= names(prev).push(refs@[k as int].id@));
            k += 1;
        }
        assert(doc.graph@.take(i + 1).drop_last() =~= doc.graph@.take(i as int));
        assert(refs@.take(refs@.len() as int) =~= refs@);
        i += 1;
    }
    assert(doc.graph@.take(doc.graph@.len() as int) =~= doc.graph@);
    r
}

/// The derivation shape: a `containsBlock` referent that is no runtime composite, declares
/// neither port list, and carries a `hasInstance` list.
pub open spec fn derivation_shaped(n: Node, referents: Seq<Seq<char>>, registered: bool) -> bool {
    &&& referents.contains(n.id@)
    &&& !runtime_composite(n, registered)
    &&& n.has_input.items().len() == 0
    &&& n.has_output.items().len() == 0
    &&& n.has_instance.items().len() > 0
}

/// Whether `node` has the derivation shape.
pub fn is_derivation_shaped(node: &Node, referents: &Vec<String>, registered: bool) -> (b: bool)
    ensures
        b == derivation_shaped(*node, names(referents@), registered),
{
    contains_str(referents, node.id.as_str()) && !is_runtime_composite(node, registered)
        && node.has_input.is_empty() && node.has_output.is_empty() && !node.has_instance.is_empty()
}

// ---- guard spelling ----

/// A guard expression with `!=` spelled `<>` and every other `!` spelled `not `.
pub open spec fn normalized(s: Seq<char>) -> Seq<char>
    decreases s.len(),
{
    if s.len() == 0 {
        seq![]
    } else if s[0] == '!' {
        if s.len() > 1 && s[1] == '=' {
            "<>"@ + normalized(s.skip(2))
        } else {
            "not "@ + normalized(s.skip(1))
        }
    } else {
        seq![s[0]] + normalized(s.skip(1))
    }
}

/// Rewrite a guard expression into the expression language's spelling: `!=` becomes `<>` and
/// every other `!` becomes `not `.
pub fn normalize_guard_expr(expr: &str) -> (r: String)
    ensures
        r@ == normalized(expr@),
{
    let chars = chars_of(expr);
    let n = chars.len();
    let mut out = String::new();
    let mut i: usize = 0;
    assert(expr@.skip(0) =~= expr@);
    assert(out@ + normalized(expr@.skip(0)) =~= normalized(expr@));
    while i < n
        invariant
            n == chars@.len(),
            chars@ == expr@,
            i <= n,
            out@ + normalized(expr@.skip(i as int)) == normalized(expr@),
        decreases n - i,
    {
        let ghost rest = expr@.skip(i as int);
        let ch = chars[i];
        if ch == '!' {
            if i + 1 < n && chars[i + 1] == '=' {
                push_str(&mut out, "<>");
                assert(rest.skip(2) =~= expr@.skip(i + 2));
                i += 2;
            } else {
                push_str(&mut out, "not ");
                assert(rest.skip(1) =~= expr@.skip(i + 1));
                i += 1;
            }
        } else {
            push_char(&mut out, ch);
            assert(rest.skip(1) =~= expr@.skip(i + 1));
            i += 1;
        }
        assert(out@ + normalized(expr@.skip(i as int)) =~= normalized(expr@));
    }
    assert(expr@.skip(n as int) =~= seq![]);
    out
}

// ---- pruned instance members ----

/// The IRIs an active node references as ownership: its port lists and `containsBlock`, plus
/// the members of an active derivation-shaped node, over the first `k` nodes.
pub open spec fn active_references(
    nodes: Seq<Node>,
    pruned: Seq<Seq<char>>,
    refs: Seq<Seq<char>>,
    registered: Seq<bool>,
    k: nat,
) -> Seq<Seq<char>>
    decreases k,
{
    if k == 0 || k > nodes.len() {
        seq![]
    } else {
        let n = nodes[k - 1];
        active_references(nodes, pruned, refs, registered, (k - 1) as nat) + if pruned.contains(n.id@) {
            seq![]
        } else {
            ref_ids(n.has_input) + ref_ids(n.has_output) + ref_ids(n.contains_block) + if derivation_shaped(
                n,
                refs,
                registered[k - 1],
            ) {
                ref_ids(n.has_instance)
            } else {
                seq![]
            }
        }
    }
}

/// The members of `ids` that no active node references.
pub open spec fn unreferenced(ids: Seq<Seq<char>>, active: Seq<Seq<char>>) -> Seq<Seq<char>>
    decreases ids.len(),
{
    if ids.len() == 0 {
        seq![]
    } else {
        unreferenced(ids.drop_last(), active) + if active.contains(ids.last()) {
            seq![]
        } else {
            seq![ids.last()]
        }
    }
}

/// The members of pruned derivation-shaped nodes that no active node references, over the
/// first `k` nodes in document order.
pub open spec fn pruned_members(
    nodes: Seq<Node>,
    pruned: Seq<Seq<char>>,
    refs: Seq<Seq<char>>,
    registered: Seq<bool>,
    active: Seq<Seq<char>>,
    k: nat,
) -> Seq<Seq<char>>
    decreases k,
{
    if k == 0 || k > nodes.len() {
        seq![]
    } else {
        let n = nodes[k - 1];
        pruned_members(nodes, pruned, refs, registered, active, (k - 1) as nat) + if pruned.contains(n.id@)
            && derivation_shaped(n, refs, registered[k - 1]) {
            unreferenced(ref_ids(n.has_instance), active)
        } else {
            seq![]
        }
    }
}

/// Append the IRIs of `refs` to `out`.
fn push_ids(out: &mut Vec<String>, refs: &OneOrMany<IriRef>)
    ensures
        names(final(out)@) == names(old(out)@) + ref_ids(*refs),
{
    let items = refs.as_slice();
    let mut k: usize = 0;
    assert(items@.take(0).map_values(|r: IriRef| r.id@) =~= seq![]);
    while k < items.len()
        invariant
            items@ == refs.items(),
            k <= items@.len(),
            names(out@) == names(old(out)@) + items@.take(k as int).map_values(|r: IriRef| r.id@),
        decreases items@.len() - k,
    {
        let ghost prev = out@;
        out.push(owned(items[k].id.as_str()));
        assert(items@.take(k + 1).map_values(|r: IriRef| r.id@) =~= items@.take(k as int).map_values(
            |r: IriRef| r.id@,
        ).push(items@[k as int].id@));
        assert(names(out@) =~= names(prev).push(items@[k as int].id@));
        k += 1;
    }
    assert(items@.take(items@.len() as int) =~= items@);
}

/// Mark inactive every member of a pruned derivation-shaped instance that no active node still
/// references by `hasInput`, `hasOutput`, `containsBlock`, or as a member of an active
/// derivation-shaped node. `registered[i]` says whether node `i`'s class is a registered leaf.
pub fn mark_pruned_instance_members(doc: &CxfDocument, registered: &[bool], specialization: &mut Specialization)
    requires
        registered@.len() == doc.graph@.len(),
    ensures
        final(specialization).pruned() == old(specialization).pruned() + pruned_members(
            doc.graph@,
            old(specialization).pruned(),
            referents(doc.graph@),
            registered@,
            active_references(
                doc.graph@,
                old(specialization).pruned(),
                referents(doc.graph@),
                registered@,
                doc.graph@.len(),
            ),
            doc.graph@.len(),
        ),
{
    let refs = contains_block_referents(doc);
    let ghost pruned = specialization.pruned();
    let ghost nodes = doc.graph@;
    let n = doc.graph.len();
    let mut active: Vec<String> = Vec::new();
    let mut i: usize = 0;
    while i < n
        invariant
            n == nodes.len(),
            nodes == doc.graph@,
            registered@.len() == n,
            names(refs@) == referents(nodes),
            pruned == specialization.pruned(),
            i <= n,
            names(active@) == active_references(nodes, pruned, referents(nodes), registered@, i as nat),
        decreases n - i,
    {
        let node = &doc.graph[i];
        if !specialization.is_inactive(node.id.as_str()) {
            push_ids(&mut active, &node.has_input);
            push_ids(&mut active, &node.has_output);
            push_ids(&mut active, &node.contains_block);
            if is_derivation_shaped(node, &refs, registered[i]) {
                push_ids(&mut active, &node.has_instance);
            }
        }
        i += 1;
    }
    let ghost act = names(active@);
    let mut marks: Vec<String> = Vec::new();
    let mut i: usize = 0;
    while i < n
        invariant
            n == nodes.len(),
            nodes == doc.graph@,
            registered@.len() == n,
            names(refs@) == referents(nodes),
            pruned == specialization.pruned(),
            act == names(active@),
            i <= n,
            names(marks@) == pruned_members(nodes, pruned, referents(nodes), registered@, act, i as nat),
        decreases n - i,
    {
        let node = &doc.graph[i];
        if specialization.is_inactive(node.id.as_str()) && is_derivation_shaped(node, &refs, registered[i]) {
            let items = node.has_instance.as_slice();
            let ghost ids = ref_ids(node.has_instance);
            let ghost base = names(marks@);
            let mut k: usize = 0;
            while k < items.len()
                invariant
                    items@ == node.has_instance.items(),
                    ids == ref_ids(node.has_instance),
                    act == names(active@),
                    k <= items@.len(),
                    names(marks@) == base + unreferenced(ids.take(k as int), act),
                decreases items@.len() - k,
            {
                assert(ids.take(k + 1).drop_last() =~= ids.take(k as int));
                assert(ids.take(k + 1).last() == items@[k as int].id@);
                if !contains_str(&active, items[k].id.as_str()) {
                    let ghost prev = marks@;
                    marks.push(owned(items[k].id.as_str()));
                    assert(names(marks@) =~= names(prev).push(items@[k as int].id@));
                }
                assert(names(marks@) =~= base + unreferenced(ids.take(k + 1), act));
                k += 1;
            }
            assert(ids.take(items@.len() as int) =~= ids);
        }
        i += 1;
    }
    let ghost before = specialization.inactive@;
    let mut j: usize = 0;
    while j < marks.len()
        invariant
            j <= marks@.len(),
            names(specialization.inactive@) == names(before) + names(marks@).take(j as int),
        decreases marks@.len() - j,
    {
        let ghost prev = specialization.inactive@;
        specialization.inactive.push(owned(marks[j].as_str()));
        assert(names(specialization.inactive@) =~= names(prev).push(marks@[j as int]@));
        assert(names(marks@).take(j + 1) =~= names(marks@).take(j as int).push(marks@[j as int]@));
        j += 1;
    }
    assert(names(marks@).take(marks@.len() as int) =~= names(marks@));
}

} // verus!
