//! Canonical connection orientation at nested-composite boundaries.
//!
//! Either endpoint of a connection may carry `isConnectedTo`, so subject position does not
//! encode signal direction. Every authored edge with a non-root boundary-port endpoint is
//! classified by port role and strict transitive containment, then kept, re-anchored, or left
//! authored:
//!
//! - Polarity: a leaf output is a SOURCE and a leaf input a SINK; the root's boundary inputs are
//!   SOURCEs and its outputs SINKs; a non-root boundary input is a SOURCE toward its own
//!   composite's interior (its peer located in, or strictly inside, the owner) and a SINK
//!   outside it; a non-root boundary output is the mirror image.
//! - Verdicts: (SOURCE, SINK) keeps the authored direction; (SINK, SOURCE) swaps unless the
//!   canonical source has neither a `@graph` node nor a synthesized connector identity;
//!   same-polarity pairs are contradictory; an underivable endpoint cannot be oriented.
//! - Duplicates: forward and reverse restatements of one relation collapse; two authored copies
//!   of the same edge do not.
//!
//! The index is built once per import from the document, plus what the block registry says of
//! each node: whether its class is a registered leaf, and the class's declared port names.
use vstd::prelude::*;
use vstd::set_lib::*;
use crate::declaration_plan::{first_named, lemma_first_named};
use crate::strmap::keys_of;
use crate::diag::{DiagCode, Diagnostic, Severity};
use crate::dto::{CxfDocument, IriRef, Node, OneOrMany};
use crate::port_binding::{leaf, str_eq};
use crate::report::local_name;
use crate::specialize::{
    contains_block_referents, contains_str, derivation_shaped, is_derivation_shaped, is_runtime_composite, names,
    ref_ids, referents, runtime_composite, Specialization,
};
use crate::strmap::StrMap;
use crate::text::owned;

verus! {

/// The index as a specification value.
#[verifier::ext_equal]
pub ghost struct IndexV {
    pub composites: Set<Seq<char>>,
    pub inputs: Set<Seq<char>>,
    pub outputs: Set<Seq<char>>,
    pub top_inputs: Set<Seq<char>>,
    pub top_outputs: Set<Seq<char>>,
    pub owners: Map<Seq<char>, Option<(Seq<char>, bool)>>,
    pub parents: Map<Seq<char>, Seq<char>>,
    pub synthesized: Seq<Seq<char>>,
    pub tree: bool,
    pub positions: Map<Seq<char>, usize>,
}

/// Port-role and containment index for one document: composite membership, boundary-port
/// sets, per-port ownership claims, `@graph` positions, and the `containsBlock` parent map.
pub struct CompositeOrientation {
    pub composites: Vec<String>,
    pub inputs: Vec<String>,
    pub outputs: Vec<String>,
    pub top_inputs: Vec<String>,
    pub top_outputs: Vec<String>,
    /// Per port: its one owner and side, or `None` when two claims disagree.
    pub owners: StrMap<Option<(String, bool)>>,
    /// Per contained block: the composite containing it.
    pub parents: StrMap<String>,
    /// Node-less derived connector identities, in first-claim order.
    pub synthesized: Vec<String>,
    /// Whether containment is a tree: no block has two parents and no parent chain cycles.
    pub tree: bool,
    /// Per `@id`: its `@graph` position (the last, for a repeated `@id`).
    pub positions: StrMap<usize>,
}

/// An owner claim as characters.
pub open spec fn claim_view(o: Option<(String, bool)>) -> Option<(Seq<char>, bool)> {
    match o {
        Some((owner, input)) => Some((owner@, input)),
        None => None,
    }
}

impl CompositeOrientation {
    pub open spec fn view(&self) -> IndexV {
        IndexV {
            composites: names(self.composites@).to_set(),
            inputs: names(self.inputs@).to_set(),
            outputs: names(self.outputs@).to_set(),
            top_inputs: names(self.top_inputs@).to_set(),
            top_outputs: names(self.top_outputs@).to_set(),
            owners: Map::new(|k: Seq<char>| self.owners.at(k) is Some, |k: Seq<char>| claim_view(self.owners.at(k)->0)),
            parents: Map::new(|k: Seq<char>| self.parents.at(k) is Some, |k: Seq<char>| self.parents.at(k)->0@),
            synthesized: names(self.synthesized@),
            tree: self.tree,
            positions: Map::new(|k: Seq<char>| self.positions.at(k) is Some, |k: Seq<char>| self.positions.at(k)->0),
        }
    }
}

// ---- how the index grows ----

/// One ownership claim: the first claim of a port stands; a disagreeing later claim makes its
/// ownership conflicted, for good.
pub open spec fn claim_v(
    o: Map<Seq<char>, Option<(Seq<char>, bool)>>,
    port: Seq<char>,
    owner: Seq<char>,
    input: bool,
) -> Map<Seq<char>, Option<(Seq<char>, bool)>> {
    if !o.contains_key(port) {
        o.insert(port, Some((owner, input)))
    } else if o[port] == Some((owner, input)) {
        o
    } else {
        o.insert(port, None)
    }
}

/// One port list of a node: each port is claimed, and a composite's ports join its boundary
/// sets (and the root's its top sets).
pub open spec fn ports_v(s: IndexV, ports: Seq<Seq<char>>, owner: Seq<char>, input: bool, composite: bool, top: bool) -> IndexV
    decreases ports.len(),
{
    if ports.len() == 0 {
        s
    } else {
        let s1 = ports_v(s, ports.drop_last(), owner, input, composite, top);
        let x = ports.last();
        let s2 = IndexV { owners: claim_v(s1.owners, x, owner, input), ..s1 };
        if !composite {
            s2
        } else if input {
            IndexV {
                inputs: s2.inputs.insert(x),
                top_inputs: if top {
                    s2.top_inputs.insert(x)
                } else {
                    s2.top_inputs
                },
                ..s2
            }
        } else {
            IndexV {
                outputs: s2.outputs.insert(x),
                top_outputs: if top {
                    s2.top_outputs.insert(x)
                } else {
                    s2.top_outputs
                },
                ..s2
            }
        }
    }
}

/// A derivation-shaped node's port-classified members: each is claimed, and one naming no
/// `@graph` node joins the synthesized identities on first sight.
pub open spec fn members_v(s: IndexV, members: Seq<(Seq<char>, bool)>, owner: Seq<char>, ids: Seq<Seq<char>>) -> IndexV
    decreases members.len(),
{
    if members.len() == 0 {
        s
    } else {
        let s1 = members_v(s, members.drop_last(), owner, ids);
        let (m, input) = members.last();
        let s2 = if !ids.contains(m) && !s1.synthesized.contains(m) {
            IndexV { synthesized: s1.synthesized.push(m), ..s1 }
        } else {
            s1
        };
        IndexV { owners: claim_v(s2.owners, m, owner, input), ..s2 }
    }
}

/// The index of the last node with `@id` `x`, or `-1`.
pub open spec fn last_index(nodes: Seq<Node>, x: Seq<char>, k: int) -> int
    decreases k,
{
    if k <= 0 {
        -1
    } else if nodes[k - 1].id@ == x {
        k - 1
    } else {
        last_index(nodes, x, k - 1)
    }
}

/// The node an `@id` resolves to (the last with that `@id`) is a runtime composite.
pub open spec fn resolves_to_composite(nodes: Seq<Node>, registered: Seq<bool>, x: Seq<char>) -> bool {
    let i = last_index(nodes, x, nodes.len() as int);
    i >= 0 && runtime_composite(nodes[i], registered[i])
}

/// A node's active `containsBlock` children: each gets the node as parent (a different earlier
/// parent breaks the tree), and a child resolving to a runtime composite is a composite.
pub open spec fn children_v(
    s: IndexV,
    children: Seq<Seq<char>>,
    owner: Seq<char>,
    pruned: Seq<Seq<char>>,
    nodes: Seq<Node>,
    registered: Seq<bool>,
) -> IndexV
    decreases children.len(),
{
    if children.len() == 0 {
        s
    } else {
        let s1 = children_v(s, children.drop_last(), owner, pruned, nodes, registered);
        let c = children.last();
        if pruned.contains(c) {
            s1
        } else {
            IndexV {
                tree: s1.tree && !(s1.parents.contains_key(c) && s1.parents[c] != owner),
                parents: s1.parents.insert(c, owner),
                composites: if resolves_to_composite(nodes, registered, c) {
                    s1.composites.insert(c)
                } else {
                    s1.composites
                },
                ..s1
            }
        }
    }
}

/// The members of `items` whose local name is a declared input or output port name.
pub open spec fn classified(items: Seq<IriRef>, ins: Seq<Seq<char>>, outs: Seq<Seq<char>>) -> Seq<(Seq<char>, bool)>
    decreases items.len(),
{
    if items.len() == 0 {
        seq![]
    } else {
        let m = items.last().id@;
        classified(items.drop_last(), ins, outs) + if ins.contains(leaf(m)) {
            seq![(m, true)]
        } else if outs.contains(leaf(m)) {
            seq![(m, false)]
        } else {
            seq![]
        }
    }
}

/// A node's classified members under its class's declared port names, if it has any.
pub open spec fn node_members(n: Node, port_names: Option<(Vec<String>, Vec<String>)>) -> Seq<(Seq<char>, bool)> {
    match port_names {
        Some((ins, outs)) => classified(n.has_instance.items(), names(ins@), names(outs@)),
        None => seq![],
    }
}

/// The `@id`s of a node list.
pub open spec fn node_ids(nodes: Seq<Node>) -> Seq<Seq<char>> {
    nodes.map_values(|n: Node| n.id@)
}

/// What node `p` adds to the index.
pub open spec fn node_v(
    s: IndexV,
    nodes: Seq<Node>,
    registered: Seq<bool>,
    port_names: Seq<Option<(Vec<String>, Vec<String>)>>,
    p: int,
    root: Seq<char>,
    pruned: Seq<Seq<char>>,
) -> IndexV {
    let n = nodes[p];
    let id = n.id@;
    let s0 = IndexV { positions: s.positions.insert(id, p as usize), ..s };
    if pruned.contains(id) {
        s0
    } else {
        let composite = runtime_composite(n, registered[p]);
        let s1 = if composite {
            IndexV { composites: s0.composites.insert(id), ..s0 }
        } else {
            s0
        };
        let s2 = ports_v(s1, ref_ids(n.has_input), id, true, composite, id == root);
        let s3 = ports_v(s2, ref_ids(n.has_output), id, false, composite, id == root);
        let s4 = if derivation_shaped(n, referents(nodes), registered[p]) {
            members_v(s3, node_members(n, port_names[p]), id, node_ids(nodes))
        } else {
            s3
        };
        children_v(s4, ref_ids(n.contains_block), id, pruned, nodes, registered)
    }
}

/// The empty index.
pub open spec fn empty_index() -> IndexV {
    IndexV {
        composites: Set::empty(),
        inputs: Set::empty(),
        outputs: Set::empty(),
        top_inputs: Set::empty(),
        top_outputs: Set::empty(),
        owners: Map::empty(),
        parents: Map::empty(),
        synthesized: seq![],
        tree: true,
        positions: Map::empty(),
    }
}

/// The index after the first `k` nodes.
pub open spec fn nodes_v(
    nodes: Seq<Node>,
    registered: Seq<bool>,
    port_names: Seq<Option<(Vec<String>, Vec<String>)>>,
    root: Seq<char>,
    pruned: Seq<Seq<char>>,
    k: nat,
) -> IndexV
    decreases k,
{
    if k == 0 || k > nodes.len() {
        empty_index()
    } else {
        node_v(
            nodes_v(nodes, registered, port_names, root, pruned, (k - 1) as nat),
            nodes,
            registered,
            port_names,
            k - 1,
            root,
            pruned,
        )
    }
}

// ---- containment cycles ----

/// The `k`-th ancestor of `x` along the parent map.
pub open spec fn ancestor(parents: Map<Seq<char>, Seq<char>>, x: Seq<char>, k: nat) -> Option<Seq<char>>
    decreases k,
{
    if k == 0 {
        Some(x)
    } else {
        match ancestor(parents, x, (k - 1) as nat) {
            Some(y) => if parents.contains_key(y) {
                Some(parents[y])
            } else {
                None
            },
            None => None,
        }
    }
}

/// Following parents from `start` comes back to an ancestor already visited.
pub open spec fn cycle_from(parents: Map<Seq<char>, Seq<char>>, start: Seq<char>) -> bool {
    exists|i: nat, j: nat| i < j && ancestor(parents, start, j) is Some && #[trigger] ancestor(parents, start, i)
        == #[trigger] ancestor(parents, start, j)
}

/// Some contained block's parent chain cycles.
pub open spec fn has_cycle(parents: Map<Seq<char>, Seq<char>>) -> bool {
    exists|start: Seq<char>| parents.contains_key(start) && #[trigger] cycle_from(parents, start)
}

// ---- building the index ----

/// Add `x` to a string set.
fn set_add(v: &mut Vec<String>, x: &str)
    ensures
        names(final(v)@).to_set() == names(old(v)@).to_set().insert(x@),
{
    let ghost before = v@;
    v.push(owned(x));
    let ghost b = names(before);
    assert(names(v@) =~= b.push(x@));
    assert forall|a: Seq<char>| #[trigger] b.push(x@).contains(a) <==> (b.contains(a) || a == x@) by {
        if b.contains(a) {
            let i = b.index_of(a);
            assert(b.push(x@)[i] == a);
        }
        if a == x@ {
            assert(b.push(x@)[b.len() as int] == a);
        }
        if b.push(x@).contains(a) && a != x@ {
            let i = b.push(x@).index_of(a);
            assert(b[i] == a);
        }
    }
    assert(names(v@).to_set() =~= b.to_set().insert(x@));
}

/// The index with its owners replaced.
pub open spec fn with_owners(s: IndexV, o: Map<Seq<char>, Option<(Seq<char>, bool)>>) -> IndexV {
    IndexV { owners: o, ..s }
}

/// The `@id`s of a node list.
fn ids_of(nodes: &Vec<Node>) -> (r: Vec<String>)
    ensures
        names(r@) == node_ids(nodes@),
{
    let mut r: Vec<String> = Vec::new();
    let mut i: usize = 0;
    while i < nodes.len()
        invariant
            i <= nodes@.len(),
            names(r@) == node_ids(nodes@).take(i as int),
        decreases nodes@.len() - i,
    {
        let ghost prev = r@;
        r.push(owned(nodes[i].id.as_str()));
        assert(names(r@) =~= names(prev).push(nodes@[i as int].id@));
        assert(node_ids(nodes@).take(i + 1) =~= node_ids(nodes@).take(i as int).push(nodes@[i as int].id@));
        i += 1;
    }
    assert(node_ids(nodes@).take(nodes@.len() as int) =~= node_ids(nodes@));
    r
}

/// Whether the node `x` resolves to (the last with that `@id`) is a runtime composite.
pub(crate) fn resolves_composite(nodes: &Vec<Node>, registered: &[bool], x: &str) -> (b: bool)
    requires
        registered@.len() == nodes@.len(),
    ensures
        b == resolves_to_composite(nodes@, registered@, x@),
{
    let mut k: usize = nodes.len();
    while k > 0
        invariant
            k <= nodes@.len(),
            registered@.len() == nodes@.len(),
            last_index(nodes@, x@, nodes@.len() as int) == last_index(nodes@, x@, k as int),
        decreases k,
    {
        if str_eq(nodes[k - 1].id.as_str(), x) {
            return is_runtime_composite(&nodes[k - 1], registered[k - 1]);
        }
        k -= 1;
    }
    false
}

/// A node's members classified as ports of its class.
pub fn classified_port_members(node: &Node, port_names: &Option<(Vec<String>, Vec<String>)>) -> (r: Vec<(String, bool)>)
    ensures
        r@.map_values(|m: (String, bool)| (m.0@, m.1)) == node_members(*node, *port_names),
{
    let mut r: Vec<(String, bool)> = Vec::new();
    match port_names {
        None => {
            assert(r@.map_values(|m: (String, bool)| (m.0@, m.1)) =~= seq![]);
        },
        Some((ins, outs)) => {
            let items = node.has_instance.as_slice();
            let mut k: usize = 0;
            assert(items@.take(0) =~= seq![]);
            while k < items.len()
                invariant
                    items@ == node.has_instance.items(),
                    k <= items@.len(),
                    r@.map_values(|m: (String, bool)| (m.0@, m.1)) == classified(
                        items@.take(k as int),
                        names(ins@),
                        names(outs@),
                    ),
                decreases items@.len() - k,
            {
                let member = items[k].id.as_str();
                let name = local_name(member);
                let ghost prev = r@;
                if contains_str(ins, name) {
                    r.push((owned(member), true));
                } else if contains_str(outs, name) {
                    r.push((owned(member), false));
                }
                assert(items@.take(k + 1).drop_last() =~= items@.take(k as int));
                assert(items@.take(k + 1).last() == items@[k as int]);
                assert(r@.map_values(|m: (String, bool)| (m.0@, m.1)) =~= classified(
                    items@.take(k + 1),
                    names(ins@),
                    names(outs@),
                ));
                k += 1;
            }
            assert(items@.take(items@.len() as int) =~= items@);
        },
    }
    r
}

impl CompositeOrientation {
    /// Record that `owner` claims `port` on the given side. The first claim stands; a later
    /// disagreeing claim leaves the port's ownership conflicted.
    pub fn claim(&mut self, port: &str, owner: &str, input: bool)
        ensures
            final(self).view() == with_owners(old(self).view(), claim_v(old(self).view().owners, port@, owner@, input)),
    {
        let ghost before = self.view();
        let same = match self.owners.get(port) {
            None => {
                self.owners.insert(port, Some((owned(owner), input)));
                proof {
                    assert(self.view() =~= with_owners(before, claim_v(before.owners, port@, owner@, input)));
                }
                return;
            },
            Some(existing) => match existing {
                Some((o, i)) => str_eq(o.as_str(), owner) && *i == input,
                None => false,
            },
        };
        if !same {
            self.owners.insert(port, None);
        }
        proof {
            assert(self.view() =~= with_owners(before, claim_v(before.owners, port@, owner@, input)));
        }
    }

    /// Claim one port list of the node `owner`, adding a composite's ports to its boundary
    /// sets.
    fn add_ports(&mut self, ports: &OneOrMany<IriRef>, owner: &str, input: bool, composite: bool, top: bool)
        ensures
            final(self).view() == ports_v(old(self).view(), ref_ids(*ports), owner@, input, composite, top),
    {
        let items = ports.as_slice();
        let ghost start = self.view();
        let ghost ids = ref_ids(*ports);
        let mut k: usize = 0;
        assert(ids.take(0) =~= seq![]);
        while k < items.len()
            invariant
                items@ == ports.items(),
                ids == ref_ids(*ports),
                k <= items@.len(),
                self.view() == ports_v(start, ids.take(k as int), owner@, input, composite, top),
            decreases items@.len() - k,
        {
            let x = items[k].id.as_str();
            assert(ids.take(k + 1).drop_last() =~= ids.take(k as int));
            assert(ids.take(k + 1).last() == x@);
            self.claim(x, owner, input);
            if composite {
                if input {
                    let ghost mid = self.view();
                    set_add(&mut self.inputs, x);
                    if top {
                        set_add(&mut self.top_inputs, x);
                    }
                    assert(self.view() =~= ports_v(start, ids.take(k + 1), owner@, input, composite, top));
                } else {
                    set_add(&mut self.outputs, x);
                    if top {
                        set_add(&mut self.top_outputs, x);
                    }
                    assert(self.view() =~= ports_v(start, ids.take(k + 1), owner@, input, composite, top));
                }
            }
            k += 1;
        }
        assert(ids.take(items@.len() as int) =~= ids);
    }

    /// Claim a derivation-shaped node's classified members.
    fn add_members(&mut self, members: &Vec<(String, bool)>, owner: &str, ids: &Vec<String>)
        ensures
            final(self).view() == members_v(
                old(self).view(),
                members@.map_values(|m: (String, bool)| (m.0@, m.1)),
                owner@,
                names(ids@),
            ),
    {
        let ghost start = self.view();
        let ghost ms = members@.map_values(|m: (String, bool)| (m.0@, m.1));
        let mut k: usize = 0;
        assert(ms.take(0) =~= seq![]);
        while k < members.len()
            invariant
                ms == members@.map_values(|m: (String, bool)| (m.0@, m.1)),
                k <= members@.len(),
                self.view() == members_v(start, ms.take(k as int), owner@, names(ids@)),
            decreases members@.len() - k,
        {
            let m = members[k].0.as_str();
            let input = members[k].1;
            assert(ms.take(k + 1).drop_last() =~= ms.take(k as int));
            assert(ms.take(k + 1).last() == (m@, input));
            if !contains_str(ids, m) && !contains_str(&self.synthesized, m) {
                let ghost prev = self.synthesized@;
                self.synthesized.push(owned(m));
                assert(names(self.synthesized@) =~= names(prev).push(m@));
            }
            self.claim(m, owner, input);
            assert(self.view() =~= members_v(start, ms.take(k + 1), owner@, names(ids@)));
            k += 1;
        }
        assert(ms.take(members@.len() as int) =~= ms);
    }

    /// Record the active `containsBlock` children of the node `owner`.
    fn add_children(
        &mut self,
        children: &OneOrMany<IriRef>,
        owner: &str,
        specialization: &Specialization,
        nodes: &Vec<Node>,
        registered: &[bool],
    )
        requires
            registered@.len() == nodes@.len(),
        ensures
            final(self).view() == children_v(
                old(self).view(),
                ref_ids(*children),
                owner@,
                specialization.pruned(),
                nodes@,
                registered@,
            ),
    {
        let items = children.as_slice();
        let ghost start = self.view();
        let ghost ids = ref_ids(*children);
        let mut k: usize = 0;
        assert(ids.take(0) =~= seq![]);
        while k < items.len()
            invariant
                items@ == children.items(),
                ids == ref_ids(*children),
                registered@.len() == nodes@.len(),
                k <= items@.len(),
                self.view() == children_v(start, ids.take(k as int), owner@, specialization.pruned(), nodes@, registered@),
            decreases items@.len() - k,
        {
            let c = items[k].id.as_str();
            assert(ids.take(k + 1).drop_last() =~= ids.take(k as int));
            assert(ids.take(k + 1).last() == c@);
            if !specialization.is_inactive(c) {
                let ghost before = self.view();
                let conflict = match self.parents.get(c) {
                    Some(previous) => !str_eq(previous.as_str(), owner),
                    None => false,
                };
                if conflict {
                    self.tree = false;
                }
                self.parents.insert(c, owned(owner));
                if resolves_composite(nodes, registered, c) {
                    set_add(&mut self.composites, c);
                }
                assert(self.view() =~= children_v(
                    start,
                    ids.take(k + 1),
                    owner@,
                    specialization.pruned(),
                    nodes@,
                    registered@,
                ));
            }
            k += 1;
        }
        assert(ids.take(items@.len() as int) =~= ids);
    }
}

proof fn lemma_ancestor_ends(parents: Map<Seq<char>, Seq<char>>, x: Seq<char>, j: nat, k: nat)
    requires
        ancestor(parents, x, j) is Some,
        !parents.contains_key(ancestor(parents, x, j)->0),
        j < k,
    ensures
        ancestor(parents, x, k) is None,
    decreases k,
{
    if k > j + 1 {
        lemma_ancestor_ends(parents, x, j, (k - 1) as nat);
    }
}

/// A sequence without repeats drawn from a finite set is no longer than the set.
proof fn lemma_distinct_within(s: Seq<Seq<char>>, d: Set<Seq<char>>)
    requires
        s.no_duplicates(),
        d.finite(),
        forall|i: int| 0 <= i < s.len() ==> d.contains(#[trigger] s[i]),
    ensures
        s.len() <= d.len(),
{
    assert(s.to_set().subset_of(d)) by {
        assert forall|a: Seq<char>| s.to_set().contains(a) implies d.contains(a) by {
            let i = s.index_of(a);
            assert(d.contains(s[i]));
        }
    }
    s.unique_seq_to_set();
    lemma_len_subset(s.to_set(), d);
}

impl CompositeOrientation {
    /// The parent map's domain is the set of its entry keys.
    proof fn lemma_parent_domain(&self)
        ensures
            self.view().parents.dom() == keys_of(self.parents.entries@).to_set(),
            self.view().parents.dom().finite(),
            self.view().parents.dom().len() <= self.parents.entries@.len(),
    {
        let ks = keys_of(self.parents.entries@);
        assert forall|k: Seq<char>| self.view().parents.dom().contains(k) <==> ks.to_set().contains(k) by {
            lemma_first_named(ks, k, ks.len() as int);
            if ks.contains(k) {
                let i = ks.index_of(k);
                assert(ks[i] == k);
            }
        }
        assert(self.view().parents.dom() =~= ks.to_set());
        ks.lemma_cardinality_of_set();
    }

    /// Whether following parents from `start` revisits an ancestor.
    fn cycles_from(&self, start: &str) -> (b: bool)
        ensures
            b == cycle_from(self.view().parents, start@),
    {
        let ghost par = self.view().parents;
        proof {
            self.lemma_parent_domain();
        }
        let mut cursor = owned(start);
        let mut seen: Vec<String> = Vec::new();
        let ghost mut j: nat = 0;
        loop
            invariant
                par == self.view().parents,
                par.dom().finite(),
                par.dom().len() <= self.parents.entries@.len(),
                seen@.len() == j,
                ancestor(par, start@, j) == Some(cursor@),
                forall|i: int| 0 <= i < j ==> ancestor(par, start@, i as nat) == Some(#[trigger] names(seen@)[i]),
                forall|i: int| 0 <= i < j ==> par.contains_key(#[trigger] names(seen@)[i]),
                names(seen@).no_duplicates(),
            decreases self.parents.entries@.len() - seen@.len(),
        {
            match self.parents.get(cursor.as_str()) {
                None => {
                    proof {
                        assert(!par.contains_key(cursor@));
                        assert forall|i: nat, k: nat| i < k && ancestor(par, start@, k) is Some implies #[trigger] ancestor(
                            par,
                            start@,
                            i,
                        ) != #[trigger] ancestor(par, start@, k) by {
                            if k > j {
                                lemma_ancestor_ends(par, start@, j, k);
                            } else if k < j {
                                assert(names(seen@)[i as int] != names(seen@)[k as int]);
                            } else {
                                assert(par.contains_key(names(seen@)[i as int]));
                            }
                        }
                    }
                    return false;
                },
                Some(parent) => {
                    if contains_str(&seen, cursor.as_str()) {
                        proof {
                            let i = names(seen@).index_of(cursor@);
                            assert(ancestor(par, start@, i as nat) == ancestor(par, start@, j));
                        }
                        return true;
                    }
                    let next = parent.clone();
                    let ghost prev = seen@;
                    seen.push(cursor);
                    proof {
                        assert(names(seen@) =~= names(prev).push(names(seen@).last()));
                        assert forall|a: int, b: int| 0 <= a < b < names(seen@).len() implies names(seen@)[a]
                            != names(seen@)[b] by {
                            if b == j {
                                assert(names(prev).contains(names(prev)[a]));
                            }
                        }
                        j = j + 1;
                        assert(par.contains_key(names(seen@)[j - 1]));
                        lemma_distinct_within(names(seen@), par.dom());
                    }
                    cursor = next;
                },
            }
        }
    }

    /// Whether some contained block's parent chain cycles.
    pub fn has_containment_cycle(&self) -> (b: bool)
        ensures
            b == has_cycle(self.view().parents),
    {
        let ghost par = self.view().parents;
        let ghost ks = keys_of(self.parents.entries@);
        let mut i: usize = 0;
        while i < self.parents.entries.len()
            invariant
                par == self.view().parents,
                ks == keys_of(self.parents.entries@),
                i <= ks.len(),
                forall|a: int| 0 <= a < i ==> !cycle_from(par, #[trigger] ks[a]),
            decreases ks.len() - i,
        {
            if self.cycles_from(self.parents.entries[i].0.as_str()) {
                proof {
                    lemma_first_named(ks, ks[i as int], ks.len() as int);
                    assert(par.contains_key(ks[i as int]));
                }
                return true;
            }
            i += 1;
        }
        proof {
            assert forall|start: Seq<char>| par.contains_key(start) implies !#[trigger] cycle_from(par, start) by {
                lemma_first_named(ks, start, ks.len() as int);
                let a = first_named(ks, start, ks.len() as int);
                assert(ks[a] == start);
            }
        }
        false
    }

    /// Index active port ownership, composite boundaries, containment and `@graph` positions.
    /// `registered[i]` says whether node `i`'s class is a registered leaf; `port_names[i]` holds
    /// its class's declared input and output port names, when the class declares any.
    pub fn new(
        doc: &CxfDocument,
        registered: &[bool],
        port_names: &[Option<(Vec<String>, Vec<String>)>],
        root: &str,
        specialization: &Specialization,
    ) -> (index: CompositeOrientation)
        requires
            registered@.len() == doc.graph@.len(),
            port_names@.len() == doc.graph@.len(),
        ensures
            ({
                let v = nodes_v(doc.graph@, registered@, port_names@, root@, specialization.pruned(), doc.graph@.len());
                index.view() == IndexV { tree: v.tree && !has_cycle(v.parents), ..v }
            }),
    {
        let mut index = CompositeOrientation {
            composites: Vec::new(),
            inputs: Vec::new(),
            outputs: Vec::new(),
            top_inputs: Vec::new(),
            top_outputs: Vec::new(),
            owners: StrMap::new(),
            parents: StrMap::new(),
            synthesized: Vec::new(),
            tree: true,
            positions: StrMap::new(),
        };
        let ghost pruned = specialization.pruned();
        let ghost nodes = doc.graph@;
        assert(index.view() =~= empty_index());
        let referent_ids = contains_block_referents(doc);
        let ids = ids_of(&doc.graph);
        let mut p: usize = 0;
        while p < doc.graph.len()
            invariant
                nodes == doc.graph@,
                pruned == specialization.pruned(),
                registered@.len() == nodes.len(),
                port_names@.len() == nodes.len(),
                names(referent_ids@) == referents(nodes),
                names(ids@) == node_ids(nodes),
                p <= nodes.len(),
                index.view() == nodes_v(nodes, registered@, port_names@, root@, pruned, p as nat),
            decreases nodes.len() - p,
        {
            let node = &doc.graph[p];
            let id = node.id.as_str();
            let ghost s = index.view();
            index.positions.insert(id, p);
            assert(index.view() =~= IndexV { positions: s.positions.insert(id@, p), ..s });
            if !specialization.is_inactive(id) {
                let composite = is_runtime_composite(node, registered[p]);
                if composite {
                    set_add(&mut index.composites, id);
                }
                let top = str_eq(id, root);
                index.add_ports(&node.has_input, id, true, composite, top);
                index.add_ports(&node.has_output, id, false, composite, top);
                if is_derivation_shaped(node, &referent_ids, registered[p]) {
                    let members = classified_port_members(node, &port_names[p]);
                    index.add_members(&members, id, &ids);
                }
                index.add_children(&node.contains_block, id, specialization, &doc.graph, registered);
            }
            assert(index.view() =~= nodes_v(nodes, registered@, port_names@, root@, pruned, (p + 1) as nat));
            p += 1;
        }
        let ghost v = index.view();
        if index.tree && index.has_containment_cycle() {
            index.tree = false;
        }
        assert(index.view() =~= IndexV { tree: v.tree && !has_cycle(v.parents), ..v });
        index
    }
}

// ---- roles, locations, polarity ----

/// A connector's signal role toward the rest of the graph.
pub ghost enum RoleV {
    BoundaryInput(Seq<char>),
    BoundaryOutput(Seq<char>),
    LeafInput,
    LeafOutput,
}

/// Which way a signal flows through an endpoint.
#[derive(Clone, Copy, Debug, PartialEq, Eq, Structural)]
pub enum Polarity {
    Source,
    Sink,
}

/// What canonical orientation does with one authored edge.
#[derive(Clone, Copy, Debug, PartialEq, Eq, Structural)]
pub enum Verdict {
    Keep,
    Swap,
    SwapBlocked,
    Contradictory,
    Unknown,
    Untouched,
}

/// The role of `port`: absent when unclaimed, `Some(None)` when its ownership is conflicted.
pub open spec fn role_v(v: IndexV, port: Seq<char>) -> Option<Option<RoleV>> {
    if !v.owners.contains_key(port) {
        None
    } else {
        match v.owners[port] {
            None => Some(None),
            Some((o, input)) => Some(
                Some(
                    if v.composites.contains(o) {
                        if input {
                            RoleV::BoundaryInput(o)
                        } else {
                            RoleV::BoundaryOutput(o)
                        }
                    } else if input {
                        RoleV::LeafInput
                    } else {
                        RoleV::LeafOutput
                    },
                ),
            ),
        }
    }
}

/// Where `iri` sits: its owner when it is a claimed port, itself when it is a node.
pub open spec fn location_v(v: IndexV, iri: Seq<char>) -> Option<Seq<char>> {
    if v.owners.contains_key(iri) {
        match v.owners[iri] {
            Some((o, _)) => Some(o),
            None => None,
        }
    } else if v.positions.contains_key(iri) {
        Some(iri)
    } else {
        None
    }
}

/// `item` lies strictly inside `composite`, when containment is a tree.
pub open spec fn inside_v(v: IndexV, item: Seq<char>, composite: Seq<char>) -> Option<bool> {
    if !v.tree {
        None
    } else {
        Some(exists|k: nat| k >= 1 && #[trigger] ancestor(v.parents, item, k) == Some(composite))
    }
}

/// The polarity of `port` on an edge to `peer`.
pub open spec fn polarity_v(v: IndexV, port: Seq<char>, peer: Seq<char>, root: Seq<char>) -> Option<Polarity> {
    match role_v(v, port) {
        Some(Some(role)) => match location_v(v, peer) {
            Some(loc) => match role {
                RoleV::LeafOutput => Some(Polarity::Source),
                RoleV::LeafInput => Some(Polarity::Sink),
                RoleV::BoundaryInput(c) => if c == root {
                    Some(Polarity::Source)
                } else if loc == c {
                    Some(Polarity::Source)
                } else {
                    match inside_v(v, loc, c) {
                        Some(true) => Some(Polarity::Source),
                        Some(false) => Some(Polarity::Sink),
                        None => None,
                    }
                },
                RoleV::BoundaryOutput(c) => if c == root {
                    Some(Polarity::Sink)
                } else if loc == c {
                    Some(Polarity::Sink)
                } else {
                    match inside_v(v, loc, c) {
                        Some(true) => Some(Polarity::Sink),
                        Some(false) => Some(Polarity::Source),
                        None => None,
                    }
                },
            },
            None => None,
        },
        _ => None,
    }
}

/// `iri` is a boundary port of a composite other than the root.
pub open spec fn non_root_boundary_v(v: IndexV, iri: Seq<char>, root: Seq<char>) -> bool {
    match role_v(v, iri) {
        Some(Some(RoleV::BoundaryInput(o))) => o != root,
        Some(Some(RoleV::BoundaryOutput(o))) => o != root,
        _ => false,
    }
}

/// `iri` is a boundary port that lowering elides: a composite boundary port not of the root.
pub open spec fn elided_v(v: IndexV, iri: Seq<char>) -> bool {
    (v.inputs.contains(iri) && !v.top_inputs.contains(iri)) || (v.outputs.contains(iri) && !v.top_outputs.contains(
        iri,
    ))
}

proof fn lemma_ancestor_shift(parents: Map<Seq<char>, Seq<char>>, x: Seq<char>, i: nat, j: nat, t: nat)
    requires
        ancestor(parents, x, i) == ancestor(parents, x, j),
    ensures
        ancestor(parents, x, i + t) == ancestor(parents, x, j + t),
    decreases t,
{
    if t > 0 {
        lemma_ancestor_shift(parents, x, i, j, (t - 1) as nat);
        assert(ancestor(parents, x, i + t) == match ancestor(parents, x, (i + t - 1) as nat) {
            Some(y) => if parents.contains_key(y) {
                Some(parents[y])
            } else {
                None
            },
            None => None,
        });
        assert((i + t - 1) as nat == i + (t - 1) as nat);
        assert((j + t - 1) as nat == j + (t - 1) as nat);
    }
}

/// Once the ancestor chain repeats, every later ancestor is one already seen.
proof fn lemma_ancestor_periodic(parents: Map<Seq<char>, Seq<char>>, x: Seq<char>, i: nat, j: nat, k: nat)
    requires
        i < j,
        ancestor(parents, x, i) == ancestor(parents, x, j),
        i <= k,
    ensures
        exists|m: nat| i <= m < j && ancestor(parents, x, k) == #[trigger] ancestor(parents, x, m),
    decreases k,
{
    if k < j {
        assert(ancestor(parents, x, k) == ancestor(parents, x, k));
    } else {
        let t = (k - j) as nat;
        lemma_ancestor_shift(parents, x, i, j, t);
        assert(i + t == (k - (j - i)) as nat);
        lemma_ancestor_periodic(parents, x, i, j, (k - (j - i)) as nat);
    }
}

impl CompositeOrientation {
    /// Where `iri` sits: its owner when it is a claimed port, itself when it is a node.
    pub fn location(&self, iri: &str) -> (r: Option<String>)
        ensures
            match r {
                Some(l) => location_v(self.view(), iri@) == Some(l@),
                None => location_v(self.view(), iri@) is None,
            },
    {
        match self.owners.get(iri) {
            Some(Some((owner, _))) => Some(owned(owner.as_str())),
            Some(None) => None,
            None => match self.positions.get(iri) {
                Some(_) => Some(owned(iri)),
                None => None,
            },
        }
    }

    /// Whether `item` lies strictly inside `composite`; `None` when containment is not a tree.
    pub fn inside(&self, item: &str, composite: &str) -> (r: Option<bool>)
        ensures
            r == inside_v(self.view(), item@, composite@),
    {
        if !self.tree {
            return None;
        }
        let ghost par = self.view().parents;
        proof {
            self.lemma_parent_domain();
        }
        let mut cursor = owned(item);
        let mut seen: Vec<String> = Vec::new();
        let ghost mut j: nat = 0;
        loop
            invariant
                self.tree,
                par == self.view().parents,
                par.dom().finite(),
                par.dom().len() <= self.parents.entries@.len(),
                seen@.len() == j,
                ancestor(par, item@, j) == Some(cursor@),
                forall|i: int| 0 <= i < j ==> ancestor(par, item@, i as nat) == Some(#[trigger] names(seen@)[i]),
                forall|i: int| 0 <= i < j ==> par.contains_key(#[trigger] names(seen@)[i]),
                names(seen@).no_duplicates(),
                forall|k: nat| 1 <= k <= j ==> #[trigger] ancestor(par, item@, k) != Some(composite@),
            decreases self.parents.entries@.len() - seen@.len(),
        {
            match self.parents.get(cursor.as_str()) {
                None => {
                    proof {
                        assert forall|k: nat| k >= 1 implies #[trigger] ancestor(par, item@, k) != Some(composite@) by {
                            if k > j {
                                lemma_ancestor_ends(par, item@, j, k);
                            }
                        }
                    }
                    return Some(false);
                },
                Some(parent) => {
                    assert(ancestor(par, item@, j + 1) == Some(parent@));
                    if str_eq(parent.as_str(), composite) {
                        return Some(true);
                    }
                    if contains_str(&seen, cursor.as_str()) {
                        proof {
                            let i = names(seen@).index_of(cursor@);
                            assert(ancestor(par, item@, i as nat) == ancestor(par, item@, j));
                            assert forall|k: nat| k >= 1 implies #[trigger] ancestor(par, item@, k) != Some(composite@) by {
                                if k > j {
                                    lemma_ancestor_periodic(par, item@, i as nat, j, k);
                                    let m = choose|m: nat| i <= m < j && ancestor(par, item@, k) == #[trigger] ancestor(par, item@, m);
                                    if m == 0 {
                                        assert(ancestor(par, item@, 0) == ancestor(par, item@, j));
                                    }
                                }
                            }
                        }
                        return Some(false);
                    }
                    let next = parent.clone();
                    let ghost prev = seen@;
                    seen.push(cursor);
                    proof {
                        assert(names(seen@) =~= names(prev).push(names(seen@).last()));
                        assert forall|a: int, b: int| 0 <= a < b < names(seen@).len() implies names(seen@)[a]
                            != names(seen@)[b] by {
                            if b == j {
                                assert(names(prev).contains(names(prev)[a]));
                            }
                        }
                        j = j + 1;
                        assert(par.contains_key(names(seen@)[j - 1]));
                        lemma_distinct_within(names(seen@), par.dom());
                    }
                    cursor = next;
                },
            }
        }
    }

    /// The polarity of `port` on an edge to `peer`, or `None` when it cannot be derived.
    pub fn polarity(&self, port: &str, peer: &str, root: &str) -> (r: Option<Polarity>)
        ensures
            r == polarity_v(self.view(), port@, peer@, root@),
    {
        let (owner, input) = match self.owners.get(port) {
            Some(Some((owner, input))) => (owner.as_str(), *input),
            _ => return None,
        };
        let peer_location = match self.location(peer) {
            Some(l) => l,
            None => return None,
        };
        if !contains_str(&self.composites, owner) {
            return Some(if input { Polarity::Sink } else { Polarity::Source });
        }
        let inner = if str_eq(owner, root) {
            true
        } else if str_eq(peer_location.as_str(), owner) {
            true
        } else {
            match self.inside(peer_location.as_str(), owner) {
                Some(b) => b,
                None => return None,
            }
        };
        if input {
            Some(if inner { Polarity::Source } else { Polarity::Sink })
        } else {
            Some(if inner { Polarity::Sink } else { Polarity::Source })
        }
    }

    /// Whether `iri` is a boundary port of a composite other than the root.
    pub fn is_non_root_boundary(&self, iri: &str, root: &str) -> (b: bool)
        ensures
            b == non_root_boundary_v(self.view(), iri@, root@),
    {
        match self.owners.get(iri) {
            Some(Some((owner, _))) => contains_str(&self.composites, owner.as_str()) && !str_eq(owner.as_str(), root),
            _ => false,
        }
    }

    /// Whether `iri` is a boundary port that lowering elides.
    pub fn is_elided_boundary_source(&self, iri: &str) -> (b: bool)
        ensures
            b == elided_v(self.view(), iri@),
    {
        (contains_str(&self.inputs, iri) && !contains_str(&self.top_inputs, iri)) || (contains_str(&self.outputs, iri)
            && !contains_str(&self.top_outputs, iri))
    }

    /// Node-less derived connector sources, in first-claim order.
    pub fn synthesized_sources(&self) -> (r: &Vec<String>)
        ensures
            names(r@) == self.view().synthesized,
    {
        &self.synthesized
    }

    /// The `@graph` position of a node, with unknown IRIs ordered last.
    pub fn position(&self, iri: &str) -> (r: usize)
        ensures
            r == if self.view().positions.contains_key(iri@) {
                self.view().positions[iri@]
            } else {
                usize::MAX
            },
    {
        match self.positions.get(iri) {
            Some(p) => *p,
            None => usize::MAX,
        }
    }
}

// ---- canonical pairs and adjacency ----

/// An edge left as authored, with its verdict.
pub fn authored<'a>(source: &'a str, target: &'a str, verdict: Verdict) -> (r: (&'a str, &'a str, Verdict))
    ensures
        r.0@ == source@ && r.1@ == target@ && r.2 == verdict,
{
    (source, target, verdict)
}

/// The canonical orientation of the authored edge `source → target` and its verdict.
pub open spec fn canonical_pair_v(
    v: IndexV,
    source: Seq<char>,
    target: Seq<char>,
    root: Seq<char>,
    pruned: Seq<Seq<char>>,
    ids: Seq<Seq<char>>,
) -> (Seq<char>, Seq<char>, Verdict) {
    if pruned.contains(source) || pruned.contains(target) {
        (source, target, Verdict::Untouched)
    } else if !non_root_boundary_v(v, source, root) && !non_root_boundary_v(v, target, root) {
        (source, target, Verdict::Untouched)
    } else {
        match (polarity_v(v, source, target, root), polarity_v(v, target, source, root)) {
            (Some(Polarity::Source), Some(Polarity::Sink)) => (source, target, Verdict::Keep),
            (Some(Polarity::Sink), Some(Polarity::Source)) => if ids.contains(target) || v.synthesized.contains(
                target,
            ) {
                (target, source, Verdict::Swap)
            } else {
                (source, target, Verdict::SwapBlocked)
            },
            (Some(_), Some(_)) => (source, target, Verdict::Contradictory),
            _ => (source, target, Verdict::Unknown),
        }
    }
}

/// Canonical adjacency under construction.
#[verifier::ext_equal]
pub ghost struct ConnV {
    pub adjacency: Map<Seq<char>, Seq<Seq<char>>>,
    pub crossed: Set<Seq<char>>,
    pub deferred: Option<(DiagCode, Seq<char>)>,
    pub stored: Map<(Seq<char>, Seq<char>), Verdict>,
}

/// The targets recorded for `source`.
pub open spec fn targets_of(m: Map<Seq<char>, Seq<Seq<char>>>, source: Seq<char>) -> Seq<Seq<char>> {
    if m.contains_key(source) {
        m[source]
    } else {
        seq![]
    }
}

/// The diagnostic deferred for an erased active relation, if this edge earns one.
pub open spec fn erased_finding(target_pruned: bool, verdict: Verdict) -> Option<(DiagCode, Seq<char>)> {
    if target_pruned {
        Some((DiagCode::InactiveConditionalNode, "connection targets an inactive conditional node"@))
    } else {
        match verdict {
            Verdict::Contradictory => Some(
                (DiagCode::DirectionMismatch, "boundary connection has contradictory endpoint directions"@),
            ),
            Verdict::SwapBlocked => Some((DiagCode::DirectionMismatch, "boundary connection direction cannot be derived"@)),
            Verdict::Unknown => Some((DiagCode::DirectionMismatch, "boundary connection direction cannot be derived"@)),
            _ => None,
        }
    }
}

/// One authored edge `src → t` joins the adjacency: canonicalized, a forward and reverse
/// restatement of one relation collapsing, authored copies kept.
pub open spec fn edge_v(
    c: ConnV,
    v: IndexV,
    src: Seq<char>,
    t: Seq<char>,
    root: Seq<char>,
    pruned: Seq<Seq<char>>,
    ids: Seq<Seq<char>>,
) -> ConnV {
    let (s2, t2, verdict) = canonical_pair_v(v, src, t, root, pruned, ids);
    let erased = elided_v(v, src) || (elided_v(v, t) && ids.contains(t));
    let deferred = if !pruned.contains(src) && erased && c.deferred is None {
        erased_finding(pruned.contains(t), verdict)
    } else {
        c.deferred
    };
    let crossed = if non_root_boundary_v(v, src, root) || non_root_boundary_v(v, t, root) {
        c.crossed.insert(s2)
    } else {
        c.crossed
    };
    if c.stored.contains_key((s2, t2)) && (verdict == Verdict::Swap || c.stored[(s2, t2)] == Verdict::Swap) {
        ConnV { deferred, crossed, ..c }
    } else {
        ConnV {
            deferred,
            crossed,
            adjacency: c.adjacency.insert(s2, targets_of(c.adjacency, s2).push(t2)),
            stored: c.stored.insert((s2, t2), verdict),
        }
    }
}

/// The authored targets of one node, in order.
pub open spec fn node_edges_v(
    c: ConnV,
    v: IndexV,
    src: Seq<char>,
    targets: Seq<Seq<char>>,
    root: Seq<char>,
    pruned: Seq<Seq<char>>,
    ids: Seq<Seq<char>>,
) -> ConnV
    decreases targets.len(),
{
    if targets.len() == 0 {
        c
    } else {
        edge_v(
            node_edges_v(c, v, src, targets.drop_last(), root, pruned, ids),
            v,
            src,
            targets.last(),
            root,
            pruned,
            ids,
        )
    }
}

/// The adjacency after the first `k` nodes' authored edges.
pub open spec fn connections_v(v: IndexV, nodes: Seq<Node>, root: Seq<char>, pruned: Seq<Seq<char>>, k: nat) -> ConnV
    decreases k,
{
    if k == 0 || k > nodes.len() {
        ConnV { adjacency: Map::empty(), crossed: Set::empty(), deferred: None, stored: Map::empty() }
    } else {
        node_edges_v(
            connections_v(v, nodes, root, pruned, (k - 1) as nat),
            v,
            nodes[k - 1].id@,
            ref_ids(nodes[k - 1].is_connected_to),
            root,
            pruned,
            node_ids(nodes),
        )
    }
}

/// The canonical adjacency, in first-source order.
pub struct Connections {
    pub adjacency: StrMap<Vec<String>>,
    /// The canonical drivers of edges touching a non-root boundary.
    pub crossed: Vec<String>,
    /// The first diagnostic for an active relation that lowering would erase.
    pub deferred: Option<Diagnostic>,
    /// The verdict each canonical pair was last recorded under.
    pub stored: Vec<(String, String, Verdict)>,
}

/// The verdict a canonical pair was last recorded under.
pub open spec fn stored_of(st: Seq<(String, String, Verdict)>, a: Seq<char>, b: Seq<char>) -> Option<Verdict>
    decreases st.len(),
{
    if st.len() == 0 {
        None
    } else if st.last().0@ == a && st.last().1@ == b {
        Some(st.last().2)
    } else {
        stored_of(st.drop_last(), a, b)
    }
}

impl Connections {
    pub open spec fn view(&self) -> ConnV {
        ConnV {
            adjacency: Map::new(
                |k: Seq<char>| self.adjacency.at(k) is Some,
                |k: Seq<char>| names(self.adjacency.at(k)->0@),
            ),
            crossed: names(self.crossed@).to_set(),
            deferred: match self.deferred {
                Some(d) => Some((d.code, d.message@)),
                None => None,
            },
            stored: Map::new(
                |p: (Seq<char>, Seq<char>)| stored_of(self.stored@, p.0, p.1) is Some,
                |p: (Seq<char>, Seq<char>)| stored_of(self.stored@, p.0, p.1)->0,
            ),
        }
    }

    /// The deferred diagnostics are errors without a subject.
    pub open spec fn deferred_ok(&self) -> bool {
        self.deferred matches Some(d) ==> d.severity == Severity::Error && d.subject is None
    }
}

/// The verdict the canonical pair `a → b` was last recorded under.
fn find_stored(st: &Vec<(String, String, Verdict)>, a: &str, b: &str) -> (r: Option<Verdict>)
    ensures
        r == stored_of(st@, a@, b@),
{
    let mut k: usize = st.len();
    assert(st@.take(st@.len() as int) =~= st@);
    while k > 0
        invariant
            k <= st@.len(),
            stored_of(st@, a@, b@) == stored_of(st@.take(k as int), a@, b@),
        decreases k,
    {
        assert(st@.take(k as int).drop_last() =~= st@.take(k - 1));
        assert(st@.take(k as int).last() == st@[k - 1]);
        if str_eq(st[k - 1].0.as_str(), a) && str_eq(st[k - 1].1.as_str(), b) {
            return Some(st[k - 1].2);
        }
        k -= 1;
    }
    None
}

impl CompositeOrientation {
    /// The canonical orientation of the authored edge `source → target` and its verdict.
    pub fn canonical_pair<'a>(
        &self,
        source: &'a str,
        target: &'a str,
        root: &str,
        specialization: &Specialization,
        ids: &Vec<String>,
    ) -> (r: (&'a str, &'a str, Verdict))
        ensures
            (r.0@, r.1@, r.2) == canonical_pair_v(self.view(), source@, target@, root@, specialization.pruned(), names(ids@)),
    {
        if specialization.is_inactive(source) || specialization.is_inactive(target) {
            return authored(source, target, Verdict::Untouched);
        }
        let scoped = self.is_non_root_boundary(source, root) || self.is_non_root_boundary(target, root);
        if !scoped {
            return authored(source, target, Verdict::Untouched);
        }
        let source_polarity = match self.polarity(source, target, root) {
            Some(p) => p,
            None => return authored(source, target, Verdict::Unknown),
        };
        let target_polarity = match self.polarity(target, source, root) {
            Some(p) => p,
            None => return authored(source, target, Verdict::Unknown),
        };
        match (source_polarity, target_polarity) {
            (Polarity::Source, Polarity::Sink) => authored(source, target, Verdict::Keep),
            (Polarity::Sink, Polarity::Source) => {
                if contains_str(ids, target) || contains_str(&self.synthesized, target) {
                    (target, source, Verdict::Swap)
                } else {
                    authored(source, target, Verdict::SwapBlocked)
                }
            },
            _ => authored(source, target, Verdict::Contradictory),
        }
    }

    /// Record one authored edge.
    fn add_edge(
        &self,
        conns: &mut Connections,
        src: &str,
        t: &str,
        root: &str,
        specialization: &Specialization,
        ids: &Vec<String>,
    )
        requires
            old(conns).deferred_ok(),
        ensures
            final(conns).deferred_ok(),
            final(conns).view() == edge_v(old(conns).view(), self.view(), src@, t@, root@, specialization.pruned(), names(ids@)),
    {
        let ghost before = conns.view();
        let (source, target, verdict) = self.canonical_pair(src, t, root, specialization, ids);
        let erased = self.is_elided_boundary_source(src) || (self.is_elided_boundary_source(t) && contains_str(ids, t));
        if !specialization.is_inactive(src) && erased && conns.deferred.is_none() {
            conns.deferred = if specialization.is_inactive(t) {
                Some(Diagnostic::error(DiagCode::InactiveConditionalNode, owned("connection targets an inactive conditional node")))
            } else {
                match verdict {
                    Verdict::Contradictory => Some(
                        Diagnostic::error(
                            DiagCode::DirectionMismatch,
                            owned("boundary connection has contradictory endpoint directions"),
                        ),
                    ),
                    Verdict::SwapBlocked | Verdict::Unknown => Some(
                        Diagnostic::error(DiagCode::DirectionMismatch, owned("boundary connection direction cannot be derived")),
                    ),
                    _ => None,
                }
            };
        }
        if self.is_non_root_boundary(src, root) || self.is_non_root_boundary(t, root) {
            set_add(&mut conns.crossed, source);
        }
        let previous = find_stored(&conns.stored, source, target);
        let skip = match previous {
            Some(p) => verdict == Verdict::Swap || p == Verdict::Swap,
            None => false,
        };
        if !skip {
            match conns.adjacency.find(source) {
                Some(i) => {
                    let ghost old_entries = conns.adjacency.entries@;
                    let ghost old_targets = conns.adjacency.entries@[i as int].1@;
                    conns.adjacency.entries[i].1.push(owned(target));
                    proof {
                        let ks = keys_of(old_entries);
                        assert(keys_of(conns.adjacency.entries@) =~= ks);
                        assert(names(conns.adjacency.entries@[i as int].1@) =~= names(old_targets).push(target@));
                        assert forall|k: Seq<char>| #[trigger] conns.adjacency.at(k) == if k == source@ {
                            Some(conns.adjacency.entries@[i as int].1)
                        } else {
                            crate::strmap::entry_of(old_entries, k)
                        } by {
                            lemma_first_named(ks, k, ks.len() as int);
                            lemma_first_named(ks, source@, ks.len() as int);
                        }
                        assert(before.adjacency.contains_key(source@));
                        assert(targets_of(before.adjacency, source@) == names(old_targets));
                        assert(conns.view().adjacency =~= before.adjacency.insert(
                            source@,
                            targets_of(before.adjacency, source@).push(target@),
                        ));
                    }
                },
                None => {
                    let mut v: Vec<String> = Vec::new();
                    v.push(owned(target));
                    conns.adjacency.insert(source, v);
                    proof {
                        assert(!before.adjacency.contains_key(source@));
                        assert(names(v@) =~= seq![target@]);
                        assert(conns.view().adjacency =~= before.adjacency.insert(
                            source@,
                            targets_of(before.adjacency, source@).push(target@),
                        ));
                    }
                },
            }
            let ghost st = conns.stored@;
            conns.stored.push((owned(source), owned(target), verdict));
            proof {
                assert(conns.stored@.drop_last() =~= st);
            }
        }
        let ghost want = edge_v(before, self.view(), src@, t@, root@, specialization.pruned(), names(ids@));
        assert(conns.view().deferred == want.deferred);
        assert(conns.view().crossed =~= want.crossed);
        assert(conns.view().adjacency =~= want.adjacency);
        assert(conns.view().stored =~= want.stored);
        assert(conns.view() =~= want);
    }
}

impl CompositeOrientation {
    /// The canonical adjacency of the document's authored edges, in `@graph` order: boundary-
    /// facing edges canonicalized, a forward and reverse restatement of one relation collapsed,
    /// authored duplicate copies kept; the canonical drivers of boundary-touching edges; and the
    /// first diagnostic for an active relation that lowering would erase.
    pub fn canonical_connections(&self, doc: &CxfDocument, root: &str, specialization: &Specialization) -> (c: Connections)
        ensures
            c.view() == connections_v(self.view(), doc.graph@, root@, specialization.pruned(), doc.graph@.len()),
            c.deferred_ok(),
    {
        let ids = ids_of(&doc.graph);
        let ghost nodes = doc.graph@;
        let ghost v = self.view();
        let ghost pruned = specialization.pruned();
        let mut conns = Connections {
            adjacency: StrMap::new(),
            crossed: Vec::new(),
            deferred: None,
            stored: Vec::new(),
        };
        assert(conns.view() =~= connections_v(v, nodes, root@, pruned, 0));
        let mut p: usize = 0;
        while p < doc.graph.len()
            invariant
                nodes == doc.graph@,
                v == self.view(),
                pruned == specialization.pruned(),
                names(ids@) == node_ids(nodes),
                p <= nodes.len(),
                conns.deferred_ok(),
                conns.view() == connections_v(v, nodes, root@, pruned, p as nat),
            decreases nodes.len() - p,
        {
            let node = &doc.graph[p];
            let targets = node.is_connected_to.as_slice();
            let ghost start = conns.view();
            let ghost tids = ref_ids(node.is_connected_to);
            let mut k: usize = 0;
            assert(tids.take(0) =~= seq![]);
            while k < targets.len()
                invariant
                    nodes == doc.graph@,
                    v == self.view(),
                    pruned == specialization.pruned(),
                    names(ids@) == node_ids(nodes),
                    p < nodes.len(),
                    *node == nodes[p as int],
                    targets@ == nodes[p as int].is_connected_to.items(),
                    tids == ref_ids(nodes[p as int].is_connected_to),
                    k <= targets@.len(),
                    conns.deferred_ok(),
                    conns.view() == node_edges_v(start, v, nodes[p as int].id@, tids.take(k as int), root@, pruned, node_ids(nodes)),
                decreases targets@.len() - k,
            {
                let ghost k1: int = k + 1;
                assert(tids.len() == targets@.len());
                assert(tids.take(k1).len() == k1);
                assert(tids.take(k1).drop_last() =~= tids.take(k as int));
                assert(tids.take(k1).last() == targets@[k as int].id@);
                let ghost before = conns.view();
                let src = node.id.as_str();
                let tgt = targets[k].id.as_str();
                assert(src@ == nodes[p as int].id@);
                assert(tgt@ == tids.take(k1).last());
                self.add_edge(&mut conns, src, tgt, root, specialization, &ids);
                assert(conns.view() == edge_v(before, self.view(), src@, tgt@, root@, specialization.pruned(), names(ids@)));
                assert(conns.view() == edge_v(before, v, nodes[p as int].id@, tids.take(k1).last(), root@, pruned, node_ids(nodes)));
                assert(conns.view() == node_edges_v(start, v, nodes[p as int].id@, tids.take(k1), root@, pruned, node_ids(nodes)));
                k += 1;
                assert(tids.take(k as int) == tids.take(k1));
            }
            assert(tids.take(targets@.len() as int) =~= tids);
            p += 1;
        }
        conns
    }
}

} // verus!
