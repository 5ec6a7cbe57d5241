//! Laws of the composite orientation index and of canonicalization.
use vstd::prelude::*;
use crate::composite_orientation::{
    canonical_pair_v, children_v, connections_v, edge_v, has_cycle, last_index, node_edges_v, node_ids, node_v,
    nodes_v, resolves_to_composite, targets_of, ConnV, IndexV, Verdict, inside_v, location_v, polarity_v, role_v,
    Polarity, RoleV,
};
use crate::dto::Node;
use crate::specialize::{ref_ids, referents};

verus! {

/// `b` is `a` with only the nodes' `isConnectedTo` references replaced.
pub open spec fn same_but_links(a: Seq<Node>, b: Seq<Node>) -> bool {
    &&& a.len() == b.len()
    &&& forall|i: int| 0 <= i < a.len() ==> #[trigger] b[i] == Node { is_connected_to: b[i].is_connected_to, ..a[i] }
}

proof fn lemma_links_prefix(a: Seq<Node>, b: Seq<Node>)
    requires
        same_but_links(a, b),
        a.len() > 0,
    ensures
        same_but_links(a.drop_last(), b.drop_last()),
{
    assert forall|i: int| 0 <= i < a.drop_last().len() implies #[trigger] b.drop_last()[i] == Node {
        is_connected_to: b.drop_last()[i].is_connected_to,
        ..a.drop_last()[i]
    } by {
        assert(b[i] == Node { is_connected_to: b[i].is_connected_to, ..a[i] });
    }
}

proof fn lemma_referents_same(a: Seq<Node>, b: Seq<Node>)
    requires
        same_but_links(a, b),
    ensures
        referents(a) == referents(b),
    decreases a.len(),
{
    if a.len() > 0 {
        lemma_links_prefix(a, b);
        lemma_referents_same(a.drop_last(), b.drop_last());
        assert(b[a.len() - 1] == Node { is_connected_to: b[a.len() - 1].is_connected_to, ..a[a.len() - 1] });
    }
}

proof fn lemma_ids_same(a: Seq<Node>, b: Seq<Node>)
    requires
        same_but_links(a, b),
    ensures
        node_ids(a) == node_ids(b),
{
    assert forall|i: int| 0 <= i < a.len() implies node_ids(a)[i] == node_ids(b)[i] by {
        assert(b[i] == Node { is_connected_to: b[i].is_connected_to, ..a[i] });
    }
    assert(node_ids(a) =~= node_ids(b));
}

proof fn lemma_last_index_same(a: Seq<Node>, b: Seq<Node>, x: Seq<char>, k: int)
    requires
        same_but_links(a, b),
        k <= a.len(),
    ensures
        last_index(a, x, k) == last_index(b, x, k),
    decreases k,
{
    if k > 0 {
        assert(b[k - 1] == Node { is_connected_to: b[k - 1].is_connected_to, ..a[k - 1] });
        lemma_last_index_same(a, b, x, k - 1);
    }
}

proof fn lemma_last_index_range(a: Seq<Node>, x: Seq<char>, k: int)
    ensures
        k >= 0 ==> -1 <= last_index(a, x, k) < k,
    decreases k,
{
    if k > 0 {
        lemma_last_index_range(a, x, k - 1);
    }
}

proof fn lemma_resolves_same(a: Seq<Node>, b: Seq<Node>, registered: Seq<bool>, x: Seq<char>)
    requires
        same_but_links(a, b),
    ensures
        resolves_to_composite(a, registered, x) == resolves_to_composite(b, registered, x),
{
    lemma_last_index_same(a, b, x, a.len() as int);
    lemma_last_index_range(a, x, a.len() as int);
    let i = last_index(a, x, a.len() as int);
    if i >= 0 {
        assert(b[i] == Node { is_connected_to: b[i].is_connected_to, ..a[i] });
    }
}

proof fn lemma_children_same(
    s: IndexV,
    children: Seq<Seq<char>>,
    owner: Seq<char>,
    pruned: Seq<Seq<char>>,
    a: Seq<Node>,
    b: Seq<Node>,
    registered: Seq<bool>,
)
    requires
        same_but_links(a, b),
    ensures
        children_v(s, children, owner, pruned, a, registered) == children_v(s, children, owner, pruned, b, registered),
    decreases children.len(),
{
    if children.len() > 0 {
        lemma_children_same(s, children.drop_last(), owner, pruned, a, b, registered);
        lemma_resolves_same(a, b, registered, children.last());
    }
}

/// The orientation index does not read `isConnectedTo`: replacing the links leaves it unchanged.
pub proof fn lemma_index_ignores_links(
    a: Seq<Node>,
    b: Seq<Node>,
    registered: Seq<bool>,
    port_names: Seq<Option<(Vec<String>, Vec<String>)>>,
    root: Seq<char>,
    pruned: Seq<Seq<char>>,
    k: nat,
)
    requires
        same_but_links(a, b),
        k <= a.len(),
    ensures
        nodes_v(a, registered, port_names, root, pruned, k) == nodes_v(b, registered, port_names, root, pruned, k),
    decreases k,
{
    if k > 0 {
        lemma_index_ignores_links(a, b, registered, port_names, root, pruned, (k - 1) as nat);
        let p = k - 1;
        assert(b[p] == Node { is_connected_to: b[p].is_connected_to, ..a[p] });
        lemma_referents_same(a, b);
        lemma_ids_same(a, b);
        let s = nodes_v(a, registered, port_names, root, pruned, (k - 1) as nat);
        let n = a[p];
        lemma_children_generic(a, b, registered, pruned, n.id@, crate::specialize::ref_ids(n.contains_block));
        assert(node_v(s, a, registered, port_names, p, root, pruned) == node_v(s, b, registered, port_names, p, root, pruned));
    }
}

/// Children placement agrees on both node lists from any state.
proof fn lemma_children_generic(
    a: Seq<Node>,
    b: Seq<Node>,
    registered: Seq<bool>,
    pruned: Seq<Seq<char>>,
    owner: Seq<char>,
    children: Seq<Seq<char>>,
)
    requires
        same_but_links(a, b),
    ensures
        forall|s: IndexV| #[trigger] children_v(s, children, owner, pruned, a, registered) == children_v(s, children, owner, pruned, b, registered),
{
    assert forall|s: IndexV| #[trigger] children_v(s, children, owner, pruned, a, registered) == children_v(s, children, owner, pruned, b, registered) by {
        lemma_children_same(s, children, owner, pruned, a, b, registered);
    }
}


/// The orientation index `CompositeOrientation::new` builds over `nodes`.
pub open spec fn orientation_index(
    nodes: Seq<Node>,
    registered: Seq<bool>,
    port_names: Seq<Option<(Vec<String>, Vec<String>)>>,
    root: Seq<char>,
    pruned: Seq<Seq<char>>,
) -> IndexV {
    let v = nodes_v(nodes, registered, port_names, root, pruned, nodes.len());
    IndexV { tree: v.tree && !has_cycle(v.parents), ..v }
}

/// The edge `s → t` is already canonical: canonicalizing it keeps it, and not by a swap.
pub open spec fn canonical_fixed(
    v: IndexV,
    s: Seq<char>,
    t: Seq<char>,
    root: Seq<char>,
    pruned: Seq<Seq<char>>,
    ids: Seq<Seq<char>>,
) -> bool {
    let r = canonical_pair_v(v, s, t, root, pruned, ids);
    r.0 == s && r.1 == t && r.2 != Verdict::Swap
}

/// A canonical edge is fixed by canonicalization.
proof fn lemma_canonical_pair_fixed(
    v: IndexV,
    src: Seq<char>,
    t: Seq<char>,
    root: Seq<char>,
    pruned: Seq<Seq<char>>,
    ids: Seq<Seq<char>>,
)
    ensures
        ({
            let r = canonical_pair_v(v, src, t, root, pruned, ids);
            canonical_fixed(v, r.0, r.1, root, pruned, ids)
        }),
{
}

/// Every recorded source has targets, each of them canonical.
pub open spec fn adjacency_fixed(
    m: Map<Seq<char>, Seq<Seq<char>>>,
    v: IndexV,
    root: Seq<char>,
    pruned: Seq<Seq<char>>,
    ids: Seq<Seq<char>>,
) -> bool {
    forall|s: Seq<char>|
        #[trigger] m.contains_key(s) ==> m[s].len() > 0 && forall|i: int|
            0 <= i < m[s].len() ==> canonical_fixed(v, s, #[trigger] m[s][i], root, pruned, ids)
}

proof fn lemma_node_edges_fixed(
    c: ConnV,
    v: IndexV,
    src: Seq<char>,
    targets: Seq<Seq<char>>,
    root: Seq<char>,
    pruned: Seq<Seq<char>>,
    ids: Seq<Seq<char>>,
)
    requires
        adjacency_fixed(c.adjacency, v, root, pruned, ids),
    ensures
        adjacency_fixed(node_edges_v(c, v, src, targets, root, pruned, ids).adjacency, v, root, pruned, ids),
    decreases targets.len(),
{
    if targets.len() > 0 {
        lemma_node_edges_fixed(c, v, src, targets.drop_last(), root, pruned, ids);
        let r = node_edges_v(c, v, src, targets.drop_last(), root, pruned, ids);
        let t = targets.last();
        lemma_canonical_pair_fixed(v, src, t, root, pruned, ids);
        let p = canonical_pair_v(v, src, t, root, pruned, ids);
        let m = edge_v(r, v, src, t, root, pruned, ids).adjacency;
        assert forall|s: Seq<char>| #[trigger] m.contains_key(s) implies m[s].len() > 0 && forall|i: int|
            0 <= i < m[s].len() ==> canonical_fixed(v, s, #[trigger] m[s][i], root, pruned, ids) by {
            if s == p.0 && m != r.adjacency {
                assert forall|i: int| 0 <= i < m[s].len() implies canonical_fixed(v, s, #[trigger] m[s][i], root, pruned, ids) by {
                    if i < targets_of(r.adjacency, s).len() {
                        assert(r.adjacency.contains_key(s));
                        assert(m[s][i] == r.adjacency[s][i]);
                    }
                }
            }
        }
    }
}

/// The canonical adjacency holds only canonical edges.
proof fn lemma_connections_fixed(v: IndexV, nodes: Seq<Node>, root: Seq<char>, pruned: Seq<Seq<char>>, k: nat)
    ensures
        adjacency_fixed(connections_v(v, nodes, root, pruned, k).adjacency, v, root, pruned, node_ids(nodes)),
    decreases k,
{
    if k > 0 && k <= nodes.len() {
        lemma_connections_fixed(v, nodes, root, pruned, (k - 1) as nat);
        lemma_node_edges_fixed(
            connections_v(v, nodes, root, pruned, (k - 1) as nat),
            v,
            nodes[k - 1].id@,
            ref_ids(nodes[k - 1].is_connected_to),
            root,
            pruned,
            node_ids(nodes),
        );
    }
}


/// Replaying one node's canonical targets records them as they are.
proof fn lemma_replay_edges(
    c: ConnV,
    v: IndexV,
    src: Seq<char>,
    tt: Seq<Seq<char>>,
    root: Seq<char>,
    pruned: Seq<Seq<char>>,
    ids: Seq<Seq<char>>,
)
    requires
        !c.adjacency.contains_key(src),
        forall|key: (Seq<char>, Seq<char>)| #[trigger] c.stored.contains_key(key) ==> c.stored[key] != Verdict::Swap,
        forall|i: int| 0 <= i < tt.len() ==> canonical_fixed(v, src, #[trigger] tt[i], root, pruned, ids),
    ensures
        node_edges_v(c, v, src, tt, root, pruned, ids).adjacency == (if tt.len() == 0 {
            c.adjacency
        } else {
            c.adjacency.insert(src, tt)
        }),
        forall|key: (Seq<char>, Seq<char>)| #[trigger] node_edges_v(c, v, src, tt, root, pruned, ids).stored.contains_key(key)
            ==> node_edges_v(c, v, src, tt, root, pruned, ids).stored[key] != Verdict::Swap,
    decreases tt.len(),
{
    if tt.len() > 0 {
        let tl = tt.drop_last();
        assert forall|i: int| 0 <= i < tl.len() implies canonical_fixed(v, src, #[trigger] tl[i], root, pruned, ids) by {
            assert(tl[i] == tt[i]);
        }
        lemma_replay_edges(c, v, src, tl, root, pruned, ids);
        let r = node_edges_v(c, v, src, tl, root, pruned, ids);
        let t = tt.last();
        assert(canonical_fixed(v, src, tt[tt.len() - 1], root, pruned, ids));
        assert(targets_of(r.adjacency, src) == tl);
        assert(tl.push(t) =~= tt);
        assert(edge_v(r, v, src, t, root, pruned, ids).adjacency =~= c.adjacency.insert(src, tt));
    }
}

/// Replaying the canonical adjacency node by node rebuilds it, restricted to the nodes replayed.
proof fn lemma_replay(
    v: IndexV,
    nodes1: Seq<Node>,
    nodes2: Seq<Node>,
    root: Seq<char>,
    pruned: Seq<Seq<char>>,
    adj1: Map<Seq<char>, Seq<Seq<char>>>,
    k: nat,
)
    requires
        same_but_links(nodes1, nodes2),
        node_ids(nodes1).no_duplicates(),
        adjacency_fixed(adj1, v, root, pruned, node_ids(nodes1)),
        forall|j: int| 0 <= j < nodes2.len() ==> ref_ids(#[trigger] nodes2[j].is_connected_to) == targets_of(adj1, nodes1[j].id@),
        k <= nodes1.len(),
    ensures
        forall|x: Seq<char>| #[trigger] connections_v(v, nodes2, root, pruned, k).adjacency.contains_key(x) <==> (
        adj1.contains_key(x) && node_ids(nodes1).take(k as int).contains(x)),
        forall|x: Seq<char>| #[trigger] connections_v(v, nodes2, root, pruned, k).adjacency.contains_key(x) ==> connections_v(
            v,
            nodes2,
            root,
            pruned,
            k,
        ).adjacency[x] == adj1[x],
        forall|key: (Seq<char>, Seq<char>)| #[trigger] connections_v(v, nodes2, root, pruned, k).stored.contains_key(key)
            ==> connections_v(v, nodes2, root, pruned, k).stored[key] != Verdict::Swap,
    decreases k,
{
    let ids = node_ids(nodes1);
    if k > 0 {
        lemma_replay(v, nodes1, nodes2, root, pruned, adj1, (k - 1) as nat);
        lemma_ids_same(nodes1, nodes2);
        let c = connections_v(v, nodes2, root, pruned, (k - 1) as nat);
        let j = k - 1;
        assert(nodes2[j] == Node { is_connected_to: nodes2[j].is_connected_to, ..nodes1[j] });
        let src = nodes1[j].id@;
        assert(ids[j] == src);
        assert(ids.take(k as int) =~= ids.take(j).push(src));
        assert(!ids.take(j).contains(src)) by {
            if ids.take(j).contains(src) {
                let i = choose|i: int| 0 <= i < ids.take(j).len() && ids.take(j)[i] == src;
                assert(ids[i] == ids[j]);
            }
        }
        let tt = targets_of(adj1, src);
        assert(ref_ids(nodes2[j].is_connected_to) == tt);
        assert forall|i: int| 0 <= i < tt.len() implies canonical_fixed(v, src, #[trigger] tt[i], root, pruned, node_ids(nodes2)) by {
            assert(adj1.contains_key(src));
            assert(canonical_fixed(v, src, adj1[src][i], root, pruned, ids));
        }
        lemma_replay_edges(c, v, src, tt, root, pruned, node_ids(nodes2));
        let c2 = connections_v(v, nodes2, root, pruned, k);
        assert(c2 == node_edges_v(c, v, src, tt, root, pruned, node_ids(nodes2)));
        assert(adj1.contains_key(src) <==> tt.len() > 0);
        assert forall|x: Seq<char>| #[trigger] c2.adjacency.contains_key(x) <==> (adj1.contains_key(x) && ids.take(
            k as int,
        ).contains(x)) by {
            assert(ids.take(k as int).contains(x) <==> (ids.take(j).contains(x) || x == src)) by {
                if ids.take(k as int).contains(x) && x != src {
                    let i = choose|i: int| 0 <= i < ids.take(k as int).len() && ids.take(k as int)[i] == x;
                    assert(ids.take(j)[i] == x);
                }
                if x == src {
                    assert(ids.take(k as int)[j] == src);
                }
                if ids.take(j).contains(x) {
                    let i = choose|i: int| 0 <= i < ids.take(j).len() && ids.take(j)[i] == x;
                    assert(ids.take(k as int)[i] == x);
                }
            }
        }
    } else {
        assert(ids.take(0) =~= Seq::<Seq<char>>::empty());
    }
}

/// Canonicalizing a canonical adjacency changes nothing: when every source of the canonical
/// adjacency of `nodes1` is a node `@id`, no two nodes share an `@id`, and `nodes2` is `nodes1`
/// with each node's `isConnectedTo` replaced by its canonical targets (none when it has none),
/// then the canonical adjacency of `nodes2`, under the index built over `nodes2`, is the same
/// adjacency: the same sources, each with the same targets in the same order and number.
pub proof fn lemma_canonicalization_idempotent(
    nodes1: Seq<Node>,
    nodes2: Seq<Node>,
    registered: Seq<bool>,
    port_names: Seq<Option<(Vec<String>, Vec<String>)>>,
    root: Seq<char>,
    pruned: Seq<Seq<char>>,
)
    requires
        same_but_links(nodes1, nodes2),
        node_ids(nodes1).no_duplicates(),
        forall|x: Seq<char>|
            #[trigger] connections_v(
                orientation_index(nodes1, registered, port_names, root, pruned),
                nodes1,
                root,
                pruned,
                nodes1.len(),
            ).adjacency.contains_key(x) ==> node_ids(nodes1).contains(x),
        forall|j: int|
            0 <= j < nodes2.len() ==> ref_ids(#[trigger] nodes2[j].is_connected_to) == targets_of(
                connections_v(
                    orientation_index(nodes1, registered, port_names, root, pruned),
                    nodes1,
                    root,
                    pruned,
                    nodes1.len(),
                ).adjacency,
                nodes1[j].id@,
            ),
    ensures
        connections_v(orientation_index(nodes2, registered, port_names, root, pruned), nodes2, root, pruned, nodes2.len()).adjacency
            == connections_v(
            orientation_index(nodes1, registered, port_names, root, pruned),
            nodes1,
            root,
            pruned,
            nodes1.len(),
        ).adjacency,
{
    let n = nodes1.len();
    lemma_index_ignores_links(nodes1, nodes2, registered, port_names, root, pruned, n);
    let v = orientation_index(nodes1, registered, port_names, root, pruned);
    assert(orientation_index(nodes2, registered, port_names, root, pruned) == v);
    let adj1 = connections_v(v, nodes1, root, pruned, n).adjacency;
    lemma_connections_fixed(v, nodes1, root, pruned, n);
    lemma_replay(v, nodes1, nodes2, root, pruned, adj1, n);
    let ids = node_ids(nodes1);
    assert(ids.take(n as int) =~= ids);
    let adj2 = connections_v(v, nodes2, root, pruned, n).adjacency;
    assert(adj2 =~= adj1);
}


/// A boundary port of a composite other than the root faces opposite ways toward a peer inside
/// the composite and a peer outside it: data crosses the boundary.
pub proof fn lemma_boundary_faces_both_ways(
    v: IndexV,
    port: Seq<char>,
    c: Seq<char>,
    inner: Seq<char>,
    outer: Seq<char>,
    li: Seq<char>,
    lo: Seq<char>,
    root: Seq<char>,
)
    requires
        c != root,
        role_v(v, port) == Some(Some(RoleV::BoundaryInput(c))) || role_v(v, port) == Some(Some(RoleV::BoundaryOutput(c))),
        location_v(v, inner) == Some(li),
        inside_v(v, li, c) == Some(true),
        location_v(v, outer) == Some(lo),
        lo != c,
        inside_v(v, lo, c) == Some(false),
    ensures
        polarity_v(v, port, inner, root) is Some,
        polarity_v(v, port, outer, root) is Some,
        polarity_v(v, port, inner, root) != polarity_v(v, port, outer, root),
{
}

/// A boundary output of a composite other than the root drives what lies outside the
/// composite, and a boundary input drives what lies inside it.
pub proof fn lemma_boundary_drives_away(
    v: IndexV,
    port: Seq<char>,
    c: Seq<char>,
    peer: Seq<char>,
    loc: Seq<char>,
    root: Seq<char>,
)
    requires
        c != root,
        location_v(v, peer) == Some(loc),
        loc != c,
    ensures
        role_v(v, port) == Some(Some(RoleV::BoundaryOutput(c))) && inside_v(v, loc, c) == Some(false) ==> polarity_v(
            v,
            port,
            peer,
            root,
        ) == Some(Polarity::Source),
        role_v(v, port) == Some(Some(RoleV::BoundaryOutput(c))) && inside_v(v, loc, c) == Some(true) ==> polarity_v(
            v,
            port,
            peer,
            root,
        ) == Some(Polarity::Sink),
        role_v(v, port) == Some(Some(RoleV::BoundaryInput(c))) && inside_v(v, loc, c) == Some(true) ==> polarity_v(
            v,
            port,
            peer,
            root,
        ) == Some(Polarity::Source),
        role_v(v, port) == Some(Some(RoleV::BoundaryInput(c))) && inside_v(v, loc, c) == Some(false) ==> polarity_v(
            v,
            port,
            peer,
            root,
        ) == Some(Polarity::Sink),
{
}

/// A wire authored in the direction data flows across a composite boundary is kept as it is:
/// a composite's output wired to a leaf input outside the composite, and a leaf output outside a
/// composite wired to the composite's input.
pub proof fn lemma_outward_wires_are_kept(
    v: IndexV,
    out_port: Seq<char>,
    in_port: Seq<char>,
    c: Seq<char>,
    loc: Seq<char>,
    root: Seq<char>,
    pruned: Seq<Seq<char>>,
    ids: Seq<Seq<char>>,
)
    requires
        c != root,
        loc != c,
        inside_v(v, loc, c) == Some(false),
        !pruned.contains(out_port),
        !pruned.contains(in_port),
    ensures
        role_v(v, out_port) == Some(Some(RoleV::BoundaryOutput(c))) && role_v(v, in_port) == Some(Some(RoleV::LeafInput))
            && location_v(v, in_port) == Some(loc) ==> canonical_pair_v(v, out_port, in_port, root, pruned, ids) == (
            out_port,
            in_port,
            Verdict::Keep,
        ),
        role_v(v, out_port) == Some(Some(RoleV::LeafOutput)) && location_v(v, out_port) == Some(loc) && role_v(v, in_port)
            == Some(Some(RoleV::BoundaryInput(c))) ==> canonical_pair_v(v, out_port, in_port, root, pruned, ids) == (
            out_port,
            in_port,
            Verdict::Keep,
        ),
{
}

} // verus!
