//! Planning the evaluation of a block's own declaration chain.
//!
//! A block's own active declarations (parameters first, then constants, in array order: the
//! *chained declaration order*) form one mutual scope: every right-hand side may reference any
//! sibling, earlier or later. Before anything grounds, the chain is planned:
//!
//! - a local name declared more than once keeps its first occurrence; every later occurrence is
//!   refused (`composite/duplicate-declaration`), naming the first;
//! - a dependency edge runs from a declaration to each sibling whose local name is an identifier
//!   head of its `Expr` right-hand side;
//! - every declaration on a reference cycle (self-loops included) is refused, with one
//!   `composite/declaration-cycle` finding per distinct cycle, ordered by its earliest member,
//!   naming every participant in chained order and closing on the first;
//! - the surviving declarations are ordered topologically, ties broken toward the smallest
//!   chained index. Because every cycle is refused, such an order always exists.
//!
//! Everything is deterministic: iteration is in chained order and no map order feeds an output.
use vstd::prelude::*;
use vstd::set_lib::*;
use crate::composite_rules::{prefix_of, rule_code, rule_id, RuleKind};
use crate::declaration_scope::{head_ranges, identifier_heads, text_of};
use crate::diag::{is_error_about, DiagCode, Diagnostic};
use crate::port_binding::{leaf, str_eq};
use crate::report::local_name;
use crate::text::{owned, push_str};

verus! {

// ---- the reference graph ----

/// Every reference names a node of the graph.
pub open spec fn refs_ok(g: Seq<Seq<usize>>) -> bool {
    forall|i: int, k: int|
        0 <= i < g.len() && 0 <= k < g[i].len() ==> (#[trigger] g[i][k] as int) < g.len()
}

/// `i` references `j`.
pub open spec fn edge(g: Seq<Seq<usize>>, i: int, j: int) -> bool {
    0 <= i < g.len() && exists|k: int| 0 <= k < g[i].len() && #[trigger] g[i][k] as int == j
}

/// `s` is closed under the reference edges.
pub open spec fn closed(g: Seq<Seq<usize>>, s: Set<int>) -> bool {
    forall|m: int, t: int| #[trigger] s.contains(m) && #[trigger] edge(g, m, t) ==> s.contains(t)
}

/// `j` is reachable from `i` along zero or more references: it lies in every edge-closed set
/// that holds `i`.
pub open spec fn reaches(g: Seq<Seq<usize>>, i: int, j: int) -> bool {
    forall|s: Set<int>| #[trigger] closed(g, s) && s.contains(i) ==> s.contains(j)
}

/// `i` lies on a reference cycle: one of its references leads back to it.
pub open spec fn on_cycle(g: Seq<Seq<usize>>, i: int) -> bool {
    exists|t: int| #[trigger] edge(g, i, t) && reaches(g, t, i)
}

/// The executable graph's view.
pub open spec fn graph_view(refs: Seq<Vec<usize>>) -> Seq<Seq<usize>> {
    refs.map_values(|v: Vec<usize>| v@)
}

/// The marked nodes of a flag vector.
pub open spec fn marked(v: Seq<bool>) -> Set<int> {
    Set::new(|j: int| 0 <= j < v.len() && v[j])
}

proof fn lemma_reaches_refl(g: Seq<Seq<usize>>, i: int)
    ensures
        reaches(g, i, i),
{
}

proof fn lemma_reaches_step(g: Seq<Seq<usize>>, i: int, m: int, t: int)
    requires
        reaches(g, i, m),
        edge(g, m, t),
    ensures
        reaches(g, i, t),
{
    assert forall|s: Set<int>| #[trigger] closed(g, s) && s.contains(i) implies s.contains(t) by {
        assert(s.contains(m));
    }
}

proof fn lemma_edge_then_reaches(g: Seq<Seq<usize>>, i: int, t: int, j: int)
    requires
        edge(g, i, t),
        reaches(g, t, j),
    ensures
        reaches(g, i, j),
{
    assert forall|s: Set<int>| #[trigger] closed(g, s) && s.contains(i) implies s.contains(j) by {
        assert(s.contains(t));
    }
}

proof fn lemma_reaches_in_range(g: Seq<Seq<usize>>, i: int, j: int)
    requires
        refs_ok(g),
        0 <= i < g.len(),
        reaches(g, i, j),
    ensures
        0 <= j < g.len(),
{
    let r = set_int_range(0, g.len() as int);
    assert(closed(g, r)) by {
        assert forall|m: int, t: int| #[trigger] r.contains(m) && #[trigger] edge(g, m, t) implies r.contains(t) by {
            let k = choose|k: int| 0 <= k < g[m].len() && #[trigger] g[m][k] as int == t;
            assert((g[m][k] as int) < g.len());
        }
    }
}

proof fn lemma_marked_bounded(v: Seq<bool>)
    ensures
        marked(v).finite(),
        marked(v).len() <= v.len(),
{
    lemma_int_range(0, v.len() as int);
    lemma_len_subset(marked(v), set_int_range(0, v.len() as int));
}

/// One pass over the marked nodes, marking every reference of a marked node.
fn sweep(refs: &Vec<Vec<usize>>, Ghost(src): Ghost<int>, visited: &mut Vec<bool>, count: &mut usize) -> (changed: bool)
    requires
        refs_ok(graph_view(refs@)),
        old(visited)@.len() == refs@.len(),
        *old(count) == marked(old(visited)@).len(),
        forall|j: int| #[trigger] marked(old(visited)@).contains(j) ==> reaches(graph_view(refs@), src, j),
    ensures
        final(visited)@.len() == refs@.len(),
        *final(count) == marked(final(visited)@).len(),
        forall|j: int| #[trigger] marked(final(visited)@).contains(j) ==> reaches(graph_view(refs@), src, j),
        forall|j: int| 0 <= j < old(visited)@.len() && old(visited)@[j] ==> final(visited)@[j],
        !changed ==> final(visited)@ == old(visited)@ && closed(graph_view(refs@), marked(final(visited)@)),
        changed ==> *final(count) > *old(count),
{
    let ghost g = graph_view(refs@);
    let ghost start = visited@;
    let n = refs.len();
    let mut changed = false;
    let mut m: usize = 0;
    while m < n
        invariant
            g == graph_view(refs@),
            refs_ok(g),
            n == refs@.len(),
            m <= n,
            visited@.len() == n,
            *count == marked(visited@).len(),
            forall|j: int| #[trigger] marked(visited@).contains(j) ==> reaches(g, src, j),
            !changed ==> visited@ == start,
            !changed ==> forall|m2: int, t: int|
                0 <= m2 < m && #[trigger] marked(visited@).contains(m2) && #[trigger] edge(g, m2, t)
                    ==> marked(visited@).contains(t),
            changed ==> *count > marked(start).len(),
            *old(count) == marked(start).len(),
            start == old(visited)@,
            forall|j: int| 0 <= j < n && start[j] ==> visited@[j],
        decreases n - m,
    {
        if visited[m] {
            let succ = &refs[m];
            assert(succ@ == g[m as int]);
            let mut k: usize = 0;
            while k < succ.len()
                invariant
                    g == graph_view(refs@),
                    refs_ok(g),
                    n == refs@.len(),
                    m < n,
                    succ@ == g[m as int],
                    visited@.len() == n,
                    visited@[m as int],
                    k <= succ@.len(),
                    *count == marked(visited@).len(),
                    forall|j: int| #[trigger] marked(visited@).contains(j) ==> reaches(g, src, j),
                    !changed ==> visited@ == start,
                    !changed ==> forall|m2: int, t: int|
                        0 <= m2 < m && #[trigger] marked(visited@).contains(m2) && #[trigger] edge(g, m2, t)
                            ==> marked(visited@).contains(t),
                    forall|k2: int| 0 <= k2 < k ==> visited@[#[trigger] succ@[k2] as int],
                    changed ==> *count > marked(start).len(),
                    *old(count) == marked(start).len(),
                    start == old(visited)@,
                    forall|j: int| 0 <= j < n && start[j] ==> visited@[j],
                decreases succ@.len() - k,
            {
                let t = succ[k];
                assert((t as int) < n) by {
                    assert(g[m as int][k as int] == t);
                }
                if !visited[t] {
                    let ghost before = visited@;
                    visited.set(t, true);
                    proof {
                        assert(marked(visited@) =~= marked(before).insert(t as int));
                        lemma_marked_bounded(before);
                        lemma_marked_bounded(visited@);
                        assert(marked(before).contains(m as int));
                        assert(edge(g, m as int, t as int)) by {
                            assert(g[m as int][k as int] as int == t as int);
                        }
                        lemma_reaches_step(g, src, m as int, t as int);
                    }
                    *count = *count + 1;
                    changed = true;
                }
                k += 1;
            }
            proof {
                if !changed {
                    assert forall|m2: int, t: int|
                        0 <= m2 < m + 1 && #[trigger] marked(visited@).contains(m2) && #[trigger] edge(g, m2, t)
                            implies marked(visited@).contains(t) by {
                        if m2 == m {
                            let k2 = choose|k2: int| 0 <= k2 < g[m2].len() && #[trigger] g[m2][k2] as int == t;
                            assert(visited@[succ@[k2] as int]);
                        }
                    }
                }
            }
        }
        m += 1;
    }
    proof {
        if !changed {
            assert forall|m2: int, t: int| #[trigger] marked(visited@).contains(m2) && #[trigger] edge(g, m2, t)
                implies marked(visited@).contains(t) by {
                assert(0 <= m2 < n);
            }
        }
    }
    changed
}

/// The nodes reachable from `src`.
fn reach_row(refs: &Vec<Vec<usize>>, src: usize) -> (row: Vec<bool>)
    requires
        refs_ok(graph_view(refs@)),
        src < refs@.len(),
    ensures
        row@.len() == refs@.len(),
        forall|j: int| 0 <= j < refs@.len() ==> row@[j] == reaches(graph_view(refs@), src as int, j),
{
    let ghost g = graph_view(refs@);
    let n = refs.len();
    let mut visited: Vec<bool> = Vec::new();
    let mut i: usize = 0;
    while i < n
        invariant
            i <= n,
            visited@.len() == i,
            forall|j: int| 0 <= j < i ==> visited@[j] == (j == src as int),
        decreases n - i,
    {
        visited.push(i == src);
        i += 1;
    }
    assert(marked(visited@) =~= set![src as int]);
    let mut count: usize = 1;
    proof {
        lemma_reaches_refl(g, src as int);
    }
    loop
        invariant
            g == graph_view(refs@),
            refs_ok(g),
            n == refs@.len(),
            src < n,
            visited@.len() == n,
            count == marked(visited@).len(),
            forall|j: int| #[trigger] marked(visited@).contains(j) ==> reaches(g, src as int, j),
            visited@[src as int],
        decreases n - count,
    {
        proof {
            lemma_marked_bounded(visited@);
        }
        let ghost before = visited@;
        let changed = sweep(refs, Ghost(src as int), &mut visited, &mut count);
        proof {
            lemma_marked_bounded(visited@);
            if changed {
                assert(visited@[src as int]);
            }
        }
        if !changed {
            proof {
                assert forall|j: int| 0 <= j < n implies visited@[j] == reaches(g, src as int, j) by {
                    if reaches(g, src as int, j) {
                        assert(closed(g, marked(visited@)));
                        assert(marked(visited@).contains(src as int));
                        assert(marked(visited@).contains(j));
                    }
                    if visited@[j] {
                        assert(marked(visited@).contains(j));
                    }
                }
            }
            return visited;
        }
    }
}

/// The reachability rows of every node.
fn reach_matrix(refs: &Vec<Vec<usize>>) -> (r: Vec<Vec<bool>>)
    requires
        refs_ok(graph_view(refs@)),
    ensures
        r@.len() == refs@.len(),
        forall|i: int| 0 <= i < refs@.len() ==> (#[trigger] r@[i])@.len() == refs@.len(),
        forall|i: int, j: int|
            0 <= i < refs@.len() && 0 <= j < refs@.len() ==> r@[i]@[j] == reaches(graph_view(refs@), i, j),
{
    let n = refs.len();
    let mut r: Vec<Vec<bool>> = Vec::new();
    let mut i: usize = 0;
    while i < n
        invariant
            n == refs@.len(),
            refs_ok(graph_view(refs@)),
            i <= n,
            r@.len() == i,
            forall|a: int| 0 <= a < i ==> (#[trigger] r@[a])@.len() == n,
            forall|a: int, j: int| 0 <= a < i && 0 <= j < n ==> r@[a]@[j] == reaches(graph_view(refs@), a, j),
        decreases n - i,
    {
        r.push(reach_row(refs, i));
        i += 1;
    }
    r
}

/// Whether each node lies on a reference cycle.
fn cycle_flags(refs: &Vec<Vec<usize>>, reach: &Vec<Vec<bool>>) -> (c: Vec<bool>)
    requires
        refs_ok(graph_view(refs@)),
        reach@.len() == refs@.len(),
        forall|i: int| 0 <= i < refs@.len() ==> (#[trigger] reach@[i])@.len() == refs@.len(),
        forall|i: int, j: int|
            0 <= i < refs@.len() && 0 <= j < refs@.len() ==> reach@[i]@[j] == reaches(graph_view(refs@), i, j),
    ensures
        c@.len() == refs@.len(),
        forall|i: int| 0 <= i < refs@.len() ==> c@[i] == on_cycle(graph_view(refs@), i),
{
    let ghost g = graph_view(refs@);
    let n = refs.len();
    let mut c: Vec<bool> = Vec::new();
    let mut i: usize = 0;
    while i < n
        invariant
            g == graph_view(refs@),
            n == refs@.len(),
            refs_ok(g),
            reach@.len() == n,
            forall|a: int| 0 <= a < n ==> (#[trigger] reach@[a])@.len() == n,
            forall|a: int, j: int| 0 <= a < n && 0 <= j < n ==> reach@[a]@[j] == reaches(g, a, j),
            i <= n,
            c@.len() == i,
            forall|a: int| 0 <= a < i ==> c@[a] == on_cycle(g, a),
        decreases n - i,
    {
        let succ = &refs[i];
        assert(succ@ == g[i as int]);
        let mut found = false;
        let mut k: usize = 0;
        while k < succ.len()
            invariant
                g == graph_view(refs@),
                n == refs@.len(),
                refs_ok(g),
                i < n,
                succ@ == g[i as int],
                reach@.len() == n,
                forall|a: int| 0 <= a < n ==> (#[trigger] reach@[a])@.len() == n,
                forall|a: int, j: int| 0 <= a < n && 0 <= j < n ==> reach@[a]@[j] == reaches(g, a, j),
                k <= succ@.len(),
                found ==> on_cycle(g, i as int),
                !found ==> forall|k2: int| 0 <= k2 < k ==> !reaches(g, #[trigger] succ@[k2] as int, i as int),
            decreases succ@.len() - k,
        {
            let t = succ[k];
            assert((t as int) < n) by {
                assert(g[i as int][k as int] == t);
            }
            if reach[t][i] {
                assert(edge(g, i as int, t as int)) by {
                    assert(g[i as int][k as int] as int == t as int);
                }
                found = true;
            }
            k += 1;
        }
        proof {
            if !found {
                assert forall|t: int| #[trigger] edge(g, i as int, t) implies !reaches(g, t, i as int) by {
                    let k2 = choose|k2: int| 0 <= k2 < g[i as int].len() && #[trigger] g[i as int][k2] as int == t;
                    assert(succ@[k2] as int == t);
                }
            }
        }
        c.push(found);
        i += 1;
    }
    c
}

// ---- evaluation order ----

/// Every reference of `i` is refused or already evaluated.
pub open spec fn ready(g: Seq<Seq<usize>>, refused: Seq<bool>, i: int, done: Seq<usize>) -> bool {
    forall|k: int| 0 <= k < g[i].len() ==> refused[#[trigger] g[i][k] as int] || done.contains(g[i][k])
}

/// `order` evaluates every surviving declaration exactly once, each one after every surviving
/// declaration it references, always taking the smallest ready index.
pub open spec fn is_evaluation_order(g: Seq<Seq<usize>>, refused: Seq<bool>, order: Seq<usize>) -> bool {
    &&& forall|t: int| #![trigger order[t]]
        0 <= t < order.len() ==> {
            let prefix = order.take(t);
            &&& (order[t] as int) < g.len()
            &&& !refused[order[t] as int]
            &&& !prefix.contains(order[t])
            &&& ready(g, refused, order[t] as int, prefix)
            &&& forall|i: int|
                0 <= i < order[t] && !refused[i] && !prefix.contains(i as usize) ==> !ready(g, refused, i, prefix)
        }
    &&& forall|i: int| 0 <= i < g.len() && !refused[i] ==> order.contains(i as usize)
}

/// The nodes reachable from `s`.
pub open spec fn reach_set(g: Seq<Seq<usize>>, s: int) -> Set<int> {
    Set::new(|j: int| 0 <= j < g.len() && reaches(g, s, j))
}

/// Flags as a set of evaluated nodes.
pub open spec fn not_ready_flags(g: Seq<Seq<usize>>, refused: Seq<bool>, done: Seq<bool>, i: int) -> bool {
    exists|k: int| 0 <= k < g[i].len() && !refused[#[trigger] g[i][k] as int] && !done[g[i][k] as int]
}

/// When no surviving declaration is ready, every declaration is refused or evaluated: a
/// remaining one would otherwise reference another remaining one, and following those references
/// from the one with the fewest reachable nodes leads back to it, a cycle, whose members are
/// refused.
proof fn lemma_no_stuck(g: Seq<Seq<usize>>, refused: Seq<bool>, done: Seq<bool>, s: int, k: nat)
    requires
        refs_ok(g),
        refused.len() == g.len(),
        done.len() == g.len(),
        forall|i: int| 0 <= i < g.len() && !refused[i] ==> !on_cycle(g, i),
        forall|i: int|
            0 <= i < g.len() && !refused[i] && !done[i] ==> #[trigger] not_ready_flags(g, refused, done, i),
        0 <= s < g.len(),
        reach_set(g, s).len() <= k,
    ensures
        refused[s] || done[s],
    decreases k,
{
    if !refused[s] && !done[s] {
        let n = g.len() as int;
        lemma_int_range(0, n);
        assert(reach_set(g, s).subset_of(set_int_range(0, n)));
        lemma_len_subset(reach_set(g, s), set_int_range(0, n));
        lemma_reaches_refl(g, s);
        assert(reach_set(g, s).contains(s));
        assert(not_ready_flags(g, refused, done, s));
        let kk = choose|kk: int|
            0 <= kk < g[s].len() && !refused[#[trigger] g[s][kk] as int] && !done[g[s][kk] as int];
        let t = g[s][kk] as int;
        assert(t < n);
        assert(edge(g, s, t));
        let smaller = reach_set(g, s).remove(s);
        assert(reach_set(g, t).subset_of(smaller)) by {
            assert forall|j: int| #[trigger] reach_set(g, t).contains(j) implies smaller.contains(j) by {
                lemma_edge_then_reaches(g, s, t, j);
                if j == s {
                    assert(on_cycle(g, s));
                }
            }
        }
        lemma_len_subset(reach_set(g, t), smaller);
        if k > 0 {
            lemma_no_stuck(g, refused, done, t, (k - 1) as nat);
        }
    }
}

/// Whether `i` is ready given the evaluated flags.
fn is_ready(refs: &Vec<Vec<usize>>, refused: &Vec<bool>, done: &Vec<bool>, i: usize, Ghost(order): Ghost<Seq<usize>>) -> (b: bool)
    requires
        refs_ok(graph_view(refs@)),
        i < refs@.len(),
        refused@.len() == refs@.len(),
        done@.len() == refs@.len(),
        forall|j: int| 0 <= j < refs@.len() ==> (done@[j] <==> order.contains(j as usize)),
    ensures
        b == ready(graph_view(refs@), refused@, i as int, order),
        !b ==> not_ready_flags(graph_view(refs@), refused@, done@, i as int),
{
    let ghost g = graph_view(refs@);
    let succ = &refs[i];
    assert(succ@ == g[i as int]);
    let mut k: usize = 0;
    while k < succ.len()
        invariant
            g == graph_view(refs@),
            refs_ok(g),
            i < refs@.len(),
            succ@ == g[i as int],
            refused@.len() == refs@.len(),
            done@.len() == refs@.len(),
            forall|j: int| 0 <= j < refs@.len() ==> (done@[j] <==> order.contains(j as usize)),
            k <= succ@.len(),
            forall|k2: int| 0 <= k2 < k ==> refused@[#[trigger] succ@[k2] as int] || order.contains(succ@[k2]),
        decreases succ@.len() - k,
    {
        let t = succ[k];
        assert((t as int) < refs@.len()) by {
            assert(g[i as int][k as int] == t);
        }
        if !refused[t] && !done[t] {
            assert(!order.contains(t));
            return false;
        }
        k += 1;
    }
    true
}

/// The evaluation order of the surviving declarations: topological over their references, ties
/// broken toward the smallest index.
pub fn evaluation_order(refs: &Vec<Vec<usize>>, refused: &Vec<bool>) -> (order: Vec<usize>)
    requires
        refs_ok(graph_view(refs@)),
        refused@.len() == refs@.len(),
        forall|i: int| 0 <= i < refs@.len() && !refused@[i] ==> !on_cycle(graph_view(refs@), i),
    ensures
        is_evaluation_order(graph_view(refs@), refused@, order@),
{
    let ghost g = graph_view(refs@);
    let n = refs.len();
    let mut done: Vec<bool> = Vec::new();
    let mut i: usize = 0;
    while i < n
        invariant
            i <= n,
            done@.len() == i,
            forall|j: int| 0 <= j < i ==> !done@[j],
        decreases n - i,
    {
        done.push(false);
        i += 1;
    }
    let mut order: Vec<usize> = Vec::new();
    assert(marked(done@) =~= Set::<int>::empty());
    loop
        invariant
            g == graph_view(refs@),
            refs_ok(g),
            n == refs@.len(),
            refused@.len() == n,
            forall|a: int| 0 <= a < n && !refused@[a] ==> !on_cycle(g, a),
            done@.len() == n,
            forall|j: int| 0 <= j < n ==> (done@[j] <==> order@.contains(j as usize)),
            marked(done@).len() == order@.len(),
            forall|t: int| #![trigger order@[t]]
                0 <= t < order@.len() ==> {
                    let prefix = order@.take(t);
                    &&& (order@[t] as int) < g.len()
                    &&& !refused@[order@[t] as int]
                    &&& !prefix.contains(order@[t])
                    &&& ready(g, refused@, order@[t] as int, prefix)
                    &&& forall|i: int|
                        0 <= i < order@[t] && !refused@[i] && !prefix.contains(i as usize) ==> !ready(
                            g,
                            refused@,
                            i,
                            prefix,
                        )
                },
        decreases n - order@.len(),
    {
        proof {
            lemma_marked_bounded(done@);
        }
        let mut c: usize = 0;
        let mut found: bool = false;
        while c < n && !found
            invariant
                g == graph_view(refs@),
                refs_ok(g),
                n == refs@.len(),
                refused@.len() == n,
                done@.len() == n,
                forall|j: int| 0 <= j < n ==> (done@[j] <==> order@.contains(j as usize)),
                c <= n,
                forall|a: int|
                    0 <= a < c && !refused@[a] && !done@[a] ==> #[trigger] not_ready_flags(g, refused@, done@, a),
                forall|a: int|
                    0 <= a < c && !refused@[a] && !order@.contains(a as usize) ==> !ready(g, refused@, a, order@),
                found ==> c < n && !refused@[c as int] && !done@[c as int] && ready(g, refused@, c as int, order@),
            decreases n - c + if found { 0int } else { 1int },
        {
            if !refused[c] && !done[c] && is_ready(refs, &refused, &done, c, Ghost(order@)) {
                found = true;
            } else {
                c += 1;
            }
        }
        if !found {
            proof {
                assert forall|a: int| 0 <= a < n && !refused@[a] implies order@.contains(a as usize) by {
                    if !done@[a] {
                        lemma_marked_bounded(done@);
                        lemma_int_range(0, n as int);
                        lemma_len_subset(reach_set(g, a), set_int_range(0, n as int));
                        lemma_no_stuck(g, refused@, done@, a, reach_set(g, a).len());
                    }
                }
            }
            return order;
        }
        let ghost before = order@;
        let ghost done_before = done@;
        order.push(c);
        done.set(c, true);
        proof {
            assert(order@.take(before.len() as int) =~= before);
            assert forall|t: int| 0 <= t < before.len() implies order@.take(t) =~= before.take(t) && order@[t]
                == before[t] by {}
            assert(marked(done@) =~= marked(done_before).insert(c as int));
            lemma_marked_bounded(done_before);
            lemma_marked_bounded(done@);
            assert forall|j: int| 0 <= j < n implies (done@[j] <==> order@.contains(j as usize)) by {
                if j == c as int {
                    assert(order@[before.len() as int] == c);
                } else {
                    if order@.contains(j as usize) {
                        let t = order@.index_of(j as usize);
                        assert(t < before.len());
                        assert(before[t] == j as usize);
                    }
                    if before.contains(j as usize) {
                        let t = before.index_of(j as usize);
                        assert(order@[t] == j as usize);
                    }
                }
            }
        }
    }
}

/// A surviving declaration is evaluated after every surviving sibling it references.
pub proof fn lemma_references_evaluated_first(
    g: Seq<Seq<usize>>,
    refused: Seq<bool>,
    order: Seq<usize>,
    t: int,
    j: int,
)
    requires
        is_evaluation_order(g, refused, order),
        0 <= t < order.len(),
        edge(g, order[t] as int, j),
        !refused[j],
    ensures
        exists|u: int| 0 <= u < t && order[u] as int == j,
{
    let prefix = order.take(t);
    assert(ready(g, refused, order[t] as int, prefix));
    let k = choose|k: int| 0 <= k < g[order[t] as int].len() && #[trigger] g[order[t] as int][k] as int == j;
    assert(prefix.contains(g[order[t] as int][k]));
    let u = prefix.index_of(g[order[t] as int][k]);
    assert(order[u] as int == j);
}

// ---- the declaration chain ----

/// The index of the first of `names[0..k]` equal to `name`, or `-1`.
pub open spec fn first_named(names: Seq<Seq<char>>, name: Seq<char>, k: int) -> int
    decreases k,
{
    if k <= 0 {
        -1
    } else if first_named(names, name, k - 1) >= 0 {
        first_named(names, name, k - 1)
    } else if names[k - 1] == name {
        k - 1
    } else {
        -1
    }
}

/// Declaration `i` re-binds a local name an earlier declaration already binds.
pub open spec fn is_duplicate(names: Seq<Seq<char>>, i: int) -> bool {
    first_named(names, names[i], i) >= 0
}

/// The identifier heads of an expression.
pub open spec fn heads_of(text: Seq<char>) -> Seq<Seq<char>> {
    head_ranges(text).map_values(|r: (usize, usize)| text_of(text, r))
}

/// Declaration `i` references declaration `j`: `i` is no duplicate and has an expression
/// right-hand side, `j` is the first declaration of its local name, and that name is one of the
/// expression's identifier heads.
pub open spec fn references(names: Seq<Seq<char>>, rhs: Seq<Option<Seq<char>>>, i: int, j: int) -> bool {
    &&& 0 <= j < names.len()
    &&& !is_duplicate(names, i)
    &&& rhs[i] is Some
    &&& !is_duplicate(names, j)
    &&& heads_of(rhs[i]->0).contains(names[j])
}

/// The chain's local names.
pub open spec fn chain_names(iris: Seq<&str>) -> Seq<Seq<char>> {
    iris.map_values(|iri: &str| leaf(iri@))
}

/// The chain's right-hand sides.
pub open spec fn chain_rhs(rhs: Seq<Option<&str>>) -> Seq<Option<Seq<char>>> {
    rhs.map_values(
        |o: Option<&str>|
            match o {
                Some(t) => Some(t@),
                None => None,
            },
    )
}

/// `order` lists, ascending, exactly the `j` for which `holds(j)`.
pub open spec fn ascending_exactly(order: Seq<usize>, n: int, holds: spec_fn(int) -> bool) -> bool {
    &&& forall|a: int, b: int| 0 <= a < b < order.len() ==> #[trigger] order[a] < #[trigger] order[b]
    &&& forall|a: int| 0 <= a < order.len() ==> (#[trigger] order[a] as int) < n && holds(order[a] as int)
    &&& forall|j: int| 0 <= j < n && #[trigger] holds(j) ==> order.contains(j as usize)
}

pub proof fn lemma_first_named(names: Seq<Seq<char>>, name: Seq<char>, k: int)
    requires
        0 <= k <= names.len(),
    ensures
        first_named(names, name, k) == -1 <==> forall|j: int| 0 <= j < k ==> names[j] != name,
        first_named(names, name, k) >= 0 ==> {
            let f = first_named(names, name, k);
            &&& f < k
            &&& names[f] == name
            &&& forall|j: int| 0 <= j < f ==> names[j] != name
        },
    decreases k,
{
    if k > 0 {
        lemma_first_named(names, name, k - 1);
    }
}

/// `j` is the first declaration of `names[j]` exactly when no earlier one shares it.
proof fn lemma_first_is_not_duplicate(names: Seq<Seq<char>>, j: int)
    requires
        0 <= j < names.len(),
    ensures
        first_named(names, names[j], names.len() as int) == j <==> !is_duplicate(names, j),
{
    lemma_first_named(names, names[j], names.len() as int);
    lemma_first_named(names, names[j], j);
}

/// The first of `names[0..k]` equal to `name`.
pub fn first_named_exec(names: &Vec<&str>, name: &str, k: usize, Ghost(nv): Ghost<Seq<Seq<char>>>) -> (r: Option<usize>)
    requires
        k <= names@.len(),
        nv.len() == names@.len(),
        forall|j: int| 0 <= j < nv.len() ==> (#[trigger] names@[j])@ == nv[j],
    ensures
        match r {
            Some(j) => j as int == first_named(nv, name@, k as int),
            None => first_named(nv, name@, k as int) == -1,
        },
{
    proof {
        lemma_first_named(nv, name@, k as int);
    }
    let mut j: usize = 0;
    while j < k
        invariant
            k <= names@.len(),
            nv.len() == names@.len(),
            forall|a: int| 0 <= a < nv.len() ==> (#[trigger] names@[a])@ == nv[a],
            j <= k,
            forall|a: int| 0 <= a < j ==> nv[a] != name@,
        decreases k - j,
    {
        if str_eq(names[j], name) {
            proof {
                lemma_first_named(nv, name@, k as int);
                let f = first_named(nv, name@, k as int);
                assert(nv[j as int] == name@);
                assert(f >= 0);
                assert(f <= j);
                assert(f >= j);
            }
            return Some(j);
        }
        j += 1;
    }
    None
}

/// The local names of a chain.
fn names_of_chain<'a>(iris: &[&'a str]) -> (names: Vec<&'a str>)
    ensures
        names@.len() == iris@.len(),
        forall|j: int| 0 <= j < iris@.len() ==> (#[trigger] names@[j])@ == chain_names(iris@)[j],
{
    let mut names: Vec<&str> = Vec::new();
    let mut i: usize = 0;
    while i < iris.len()
        invariant
            i <= iris@.len(),
            names@.len() == i,
            forall|j: int| 0 <= j < i ==> (#[trigger] names@[j])@ == chain_names(iris@)[j],
        decreases iris@.len() - i,
    {
        names.push(local_name(iris[i]));
        i += 1;
    }
    names
}

/// The siblings one declaration's right-hand side references, ascending.
fn references_of(
    names: &Vec<&str>,
    rhs: Option<&str>,
    duplicate: bool,
    Ghost(nv): Ghost<Seq<Seq<char>>>,
    Ghost(rv): Ghost<Seq<Option<Seq<char>>>>,
    Ghost(i): Ghost<int>,
) -> (r: Vec<usize>)
    requires
        nv.len() == names@.len(),
        rv.len() == names@.len(),
        0 <= i < nv.len(),
        forall|j: int| 0 <= j < nv.len() ==> (#[trigger] names@[j])@ == nv[j],
        duplicate == is_duplicate(nv, i),
        rv[i] == match rhs {
            Some(t) => Some(t@),
            None => None::<Seq<char>>,
        },
    ensures
        ascending_exactly(r@, nv.len() as int, |j: int| references(nv, rv, i, j)),
{
    let n = names.len();
    let mut mark: Vec<bool> = Vec::new();
    let mut j: usize = 0;
    while j < n
        invariant
            j <= n,
            mark@.len() == j,
            forall|a: int| 0 <= a < j ==> !mark@[a],
        decreases n - j,
    {
        mark.push(false);
        j += 1;
    }
    if !duplicate {
        if let Some(text) = rhs {
            let heads = identifier_heads(text);
            let ghost hv = heads_of(text@);
            assert(heads@.len() == hv.len());
            let mut h: usize = 0;
            while h < heads.len()
                invariant
                    n == names@.len(),
                    nv.len() == n,
                    forall|a: int| 0 <= a < nv.len() ==> (#[trigger] names@[a])@ == nv[a],
                    hv == heads_of(text@),
                    heads@.len() == hv.len(),
                    forall|a: int| 0 <= a < heads@.len() ==> (#[trigger] heads@[a])@ == hv[a],
                    h <= heads@.len(),
                    mark@.len() == n,
                    forall|a: int|
                        0 <= a < n ==> (#[trigger] mark@[a] <==> (!is_duplicate(nv, a) && hv.take(h as int).contains(
                            nv[a],
                        ))),
                decreases heads@.len() - h,
            {
                let found = first_named_exec(names, heads[h], n, Ghost(nv));
                proof {
                    lemma_first_named(nv, hv[h as int], n as int);
                }
                let ghost before = mark@;
                if let Some(k) = found {
                    mark.set(k, true);
                }
                let ghost h1: int = h + 1;
                proof {
                    assert(hv.take(h1) =~= hv.take(h as int).push(hv[h as int]));
                    if let Some(k) = found {
                        assert(nv[k as int] == hv[h as int]);
                        lemma_first_is_not_duplicate(nv, k as int);
                    }
                    assert forall|a: int|
                        0 <= a < n implies (mark@[a] <==> (!is_duplicate(nv, a) && hv.take(h1).contains(
                            nv[a],
                        ))) by {
                        lemma_first_is_not_duplicate(nv, a);
                        if hv.take(h as int).contains(nv[a]) {
                            let w = hv.take(h as int).index_of(nv[a]);
                            assert(hv.take(h1)[w] == nv[a]);
                        }
                        if hv.take(h1).contains(nv[a]) && !hv.take(h as int).contains(nv[a]) {
                            let w = hv.take(h1).index_of(nv[a]);
                            if w < h {
                                assert(hv.take(h as int)[w] == nv[a]);
                            }
                            assert(hv[h as int] == nv[a]);
                        }
                        if nv[a] == hv[h as int] && !is_duplicate(nv, a) {
                            assert(first_named(nv, hv[h as int], n as int) == a);
                            assert(found == Some(a as usize));
                        }
                        match found {
                            Some(k) => {
                                if a == k as int {
                                    assert(hv.take(h1)[h as int] == nv[a]);
                                }
                            },
                            None => {},
                        }
                    }
                }
                h += 1;
                assert(h as int == h1);
                assert forall|a: int|
                    0 <= a < n implies (#[trigger] mark@[a] <==> (!is_duplicate(nv, a) && hv.take(h as int).contains(nv[a]))) by {
                    assert(hv.take(h as int) == hv.take(h1));
                }
            }
            assert(hv.take(heads@.len() as int) =~= hv);
            assert(rv[i] == Some(text@));
            assert forall|a: int| 0 <= a < n implies (mark@[a] <==> references(nv, rv, i, a)) by {}
        }
    }
    let mut r: Vec<usize> = Vec::new();
    let mut j: usize = 0;
    while j < n
        invariant
            n == names@.len(),
            nv.len() == n,
            rv.len() == n,
            0 <= i < n,
            duplicate == is_duplicate(nv, i),
            rv[i] == match rhs {
                Some(t) => Some(t@),
                None => None::<Seq<char>>,
            },
            mark@.len() == n,
            forall|a: int| 0 <= a < n ==> (mark@[a] <==> references(nv, rv, i, a)),
            j <= n,
            forall|a: int, b: int| 0 <= a < b < r@.len() ==> #[trigger] r@[a] < #[trigger] r@[b],
            forall|a: int| 0 <= a < r@.len() ==> (#[trigger] r@[a]) < j && references(nv, rv, i, r@[a] as int),
            forall|a: int| 0 <= a < j && references(nv, rv, i, a) ==> r@.contains(a as usize),
        decreases n - j,
    {
        if mark[j] {
            let ghost before = r@;
            r.push(j);
            proof {
                assert forall|a: int| 0 <= a < j && references(nv, rv, i, a) implies r@.contains(a as usize) by {
                    let w = before.index_of(a as usize);
                    assert(r@[w] == a as usize);
                }
                assert(r@[before.len() as int] == j);
            }
        }
        j += 1;
    }
    r
}

// ---- findings ----

/// The `duplicate-declaration` message for declaration `i`.
pub open spec fn duplicate_message(iris: Seq<&str>, names: Seq<Seq<char>>, i: int) -> Seq<char> {
    prefix_of(rule_id(RuleKind::DuplicateDeclaration)) + "own declaration "@ + iris[i]@
        + " re-binds local name `"@ + names[i] + "` first declared at "@ + iris[first_named(
        names,
        names[i],
        i,
    )]@
}

/// The duplicate findings of the first `k` declarations, in chained order.
pub open spec fn duplicate_findings(iris: Seq<&str>, names: Seq<Seq<char>>, k: nat) -> Seq<
    (DiagCode, Seq<char>, Seq<char>),
>
    decreases k,
{
    if k == 0 {
        seq![]
    } else {
        duplicate_findings(iris, names, (k - 1) as nat) + if is_duplicate(names, k - 1) {
            seq![
                (
                    rule_code(RuleKind::DuplicateDeclaration),
                    duplicate_message(iris, names, k - 1),
                    iris[k - 1]@,
                ),
            ]
        } else {
            seq![]
        }
    }
}

/// `i` and `j` reach each other: they lie in one strongly connected component.
pub open spec fn mutual(g: Seq<Seq<usize>>, i: int, j: int) -> bool {
    reaches(g, i, j) && reaches(g, j, i)
}

/// `i` is the earliest member of a reference cycle.
pub open spec fn leads_cycle(g: Seq<Seq<usize>>, i: int) -> bool {
    on_cycle(g, i) && forall|j: int| 0 <= j < i ==> !#[trigger] mutual(g, i, j)
}

/// The members among the first `k` nodes of `i`'s component, ascending.
pub open spec fn participants(g: Seq<Seq<usize>>, i: int, k: nat) -> Seq<int>
    decreases k,
{
    if k == 0 {
        seq![]
    } else {
        participants(g, i, (k - 1) as nat) + if mutual(g, i, k - 1) {
            seq![k - 1]
        } else {
            seq![]
        }
    }
}

/// The IRIs of `ps`, joined by ` -> `.
pub open spec fn arrow_join(iris: Seq<&str>, ps: Seq<int>) -> Seq<char>
    decreases ps.len(),
{
    if ps.len() == 0 {
        seq![]
    } else if ps.len() == 1 {
        iris[ps[0]]@
    } else {
        arrow_join(iris, ps.drop_last()) + " -> "@ + iris[ps.last()]@
    }
}

/// The `declaration-cycle` message for the cycle led by `i`.
pub open spec fn cycle_message(iris: Seq<&str>, g: Seq<Seq<usize>>, i: int) -> Seq<char> {
    prefix_of(rule_id(RuleKind::DeclarationCycle)) + "cycle in the block's own declaration references: "@
        + arrow_join(iris, participants(g, i, g.len())) + " -> "@ + iris[i]@
}

/// The cycle findings led by the first `k` declarations, in chained order.
pub open spec fn cycle_findings(iris: Seq<&str>, g: Seq<Seq<usize>>, k: nat) -> Seq<
    (DiagCode, Seq<char>, Seq<char>),
>
    decreases k,
{
    if k == 0 {
        seq![]
    } else {
        cycle_findings(iris, g, (k - 1) as nat) + if leads_cycle(g, k - 1) {
            seq![(rule_code(RuleKind::DeclarationCycle), cycle_message(iris, g, k - 1), iris[k - 1]@)]
        } else {
            seq![]
        }
    }
}

/// `diags` are exactly `findings`, as errors.
pub open spec fn reports(diags: Seq<Diagnostic>, findings: Seq<(DiagCode, Seq<char>, Seq<char>)>) -> bool {
    &&& diags.len() == findings.len()
    &&& forall|k: int|
        0 <= k < diags.len() ==> is_error_about(
            #[trigger] diags[k],
            findings[k].0,
            findings[k].1,
            findings[k].2,
        )
}

/// The IRIs of `ps`, joined by ` -> `.
fn arrow_path(iris: &[&str], ps: &Vec<usize>) -> (r: String)
    requires
        ps@.len() > 0,
        forall|k: int| 0 <= k < ps@.len() ==> (#[trigger] ps@[k] as int) < iris@.len(),
    ensures
        r@ == arrow_join(iris@, ps@.map_values(|j: usize| j as int)),
{
    let ghost pv = ps@.map_values(|j: usize| j as int);
    let mut r = owned(iris[ps[0]]);
    assert(pv.take(1) =~= seq![pv[0]]);
    let mut k: usize = 1;
    while k < ps.len()
        invariant
            pv == ps@.map_values(|j: usize| j as int),
            forall|a: int| 0 <= a < ps@.len() ==> (#[trigger] ps@[a] as int) < iris@.len(),
            1 <= k <= ps@.len(),
            r@ == arrow_join(iris@, pv.take(k as int)),
        decreases ps@.len() - k,
    {
        push_str(&mut r, " -> ");
        push_str(&mut r, iris[ps[k]]);
        assert(pv.take(k + 1).drop_last() =~= pv.take(k as int));
        k += 1;
    }
    assert(pv.take(ps@.len() as int) =~= pv);
    r
}

/// The duplicate findings, in chained order.
fn duplicate_diagnostics(iris: &[&str], names: &Vec<&str>, Ghost(nv): Ghost<Seq<Seq<char>>>) -> (d: Vec<Diagnostic>)
    requires
        names@.len() == iris@.len(),
        nv == chain_names(iris@),
        forall|j: int| 0 <= j < iris@.len() ==> (#[trigger] names@[j])@ == nv[j],
    ensures
        reports(d@, duplicate_findings(iris@, nv, iris@.len() as nat)),
{
    let n = iris.len();
    let mut d: Vec<Diagnostic> = Vec::new();
    let mut i: usize = 0;
    while i < n
        invariant
            n == iris@.len(),
            names@.len() == n,
            nv == chain_names(iris@),
            forall|j: int| 0 <= j < n ==> (#[trigger] names@[j])@ == nv[j],
            i <= n,
            reports(d@, duplicate_findings(iris@, nv, i as nat)),
        decreases n - i,
    {
        assert(nv.len() == n);
        let first = first_named_exec(names, names[i], i, Ghost(nv));
        proof {
            lemma_first_named(nv, nv[i as int], i as int);
        }
        if let Some(f) = first {
            let rule = RuleKind::DuplicateDeclaration.rule();
            let mut detail = owned("own declaration ");
            push_str(&mut detail, iris[i]);
            push_str(&mut detail, " re-binds local name `");
            push_str(&mut detail, names[i]);
            push_str(&mut detail, "` first declared at ");
            push_str(&mut detail, iris[f]);
            let diag = Diagnostic::error(rule.code, rule.message(detail.as_str())).with_subject(
                owned(iris[i]),
            );
            let ghost before = d@;
            d.push(diag);
            proof {
                let want = duplicate_findings(iris@, nv, (i + 1) as nat);
                assert(want == duplicate_findings(iris@, nv, i as nat).push(
                    (
                        rule_code(RuleKind::DuplicateDeclaration),
                        duplicate_message(iris@, nv, i as int),
                        iris@[i as int]@,
                    ),
                ));
                assert(diag.message@ =~= duplicate_message(iris@, nv, i as int));
                assert forall|k: int| 0 <= k < d@.len() implies is_error_about(
                    #[trigger] d@[k],
                    want[k].0,
                    want[k].1,
                    want[k].2,
                ) by {
                    if k < before.len() {
                        assert(d@[k] == before[k]);
                    }
                }
            }
        } else {
            proof {
                assert(duplicate_findings(iris@, nv, (i + 1) as nat) =~= duplicate_findings(iris@, nv, i as nat));
            }
        }
        i += 1;
    }
    d
}

/// The cycle findings, ordered by each cycle's earliest member.
fn cycle_diagnostics(
    iris: &[&str],
    reach: &Vec<Vec<bool>>,
    cyclic: &Vec<bool>,
    Ghost(g): Ghost<Seq<Seq<usize>>>,
) -> (d: Vec<Diagnostic>)
    requires
        g.len() == iris@.len(),
        reach@.len() == g.len(),
        cyclic@.len() == g.len(),
        forall|i: int| 0 <= i < g.len() ==> (#[trigger] reach@[i])@.len() == g.len(),
        forall|i: int, j: int| 0 <= i < g.len() && 0 <= j < g.len() ==> reach@[i]@[j] == reaches(g, i, j),
        forall|i: int| 0 <= i < g.len() ==> cyclic@[i] == on_cycle(g, i),
    ensures
        reports(d@, cycle_findings(iris@, g, g.len())),
{
    let n = iris.len();
    let mut d: Vec<Diagnostic> = Vec::new();
    let mut i: usize = 0;
    while i < n
        invariant
            n == iris@.len() == g.len(),
            reach@.len() == n,
            cyclic@.len() == n,
            forall|a: int| 0 <= a < n ==> (#[trigger] reach@[a])@.len() == n,
            forall|a: int, j: int| 0 <= a < n && 0 <= j < n ==> reach@[a]@[j] == reaches(g, a, j),
            forall|a: int| 0 <= a < n ==> cyclic@[a] == on_cycle(g, a),
            i <= n,
            reports(d@, cycle_findings(iris@, g, i as nat)),
        decreases n - i,
    {
        let mut leads = cyclic[i];
        if leads {
            let mut j: usize = 0;
            while j < i
                invariant
                    n == g.len(),
                    i < n,
                    reach@.len() == n,
                    forall|a: int| 0 <= a < n ==> (#[trigger] reach@[a])@.len() == n,
                    forall|a: int, b: int| 0 <= a < n && 0 <= b < n ==> reach@[a]@[b] == reaches(g, a, b),
                    j <= i,
                    leads ==> on_cycle(g, i as int) && forall|b: int| 0 <= b < j ==> !#[trigger] mutual(g, i as int, b),
                    !leads ==> !leads_cycle(g, i as int),
                decreases i - j,
            {
                if reach[i][j] && reach[j][i] {
                    assert(mutual(g, i as int, j as int));
                    leads = false;
                }
                j += 1;
            }
        }
        if leads {
            let mut ps: Vec<usize> = Vec::new();
            let mut j: usize = 0;
            while j < n
                invariant
                    n == g.len() == iris@.len(),
                    i < n,
                    reach@.len() == n,
                    forall|a: int| 0 <= a < n ==> (#[trigger] reach@[a])@.len() == n,
                    forall|a: int, b: int| 0 <= a < n && 0 <= b < n ==> reach@[a]@[b] == reaches(g, a, b),
                    j <= n,
                    ps@.map_values(|x: usize| x as int) == participants(g, i as int, j as nat),
                    forall|k: int| 0 <= k < ps@.len() ==> (#[trigger] ps@[k] as int) < j,
                    j > i ==> ps@.len() > 0,
                decreases n - j,
            {
                if reach[i][j] && reach[j][i] {
                    ps.push(j);
                }
                proof {
                    lemma_reaches_refl(g, i as int);
                    assert(ps@.map_values(|x: usize| x as int) =~= participants(g, i as int, (j + 1) as nat));
                }
                j += 1;
            }
            let rule = RuleKind::DeclarationCycle.rule();
            let mut detail = owned("cycle in the block's own declaration references: ");
            push_str(&mut detail, arrow_path(iris, &ps).as_str());
            push_str(&mut detail, " -> ");
            push_str(&mut detail, iris[i]);
            let diag = Diagnostic::error(rule.code, rule.message(detail.as_str())).with_subject(owned(iris[i]));
            let ghost before = d@;
            d.push(diag);
            proof {
                let want = cycle_findings(iris@, g, (i + 1) as nat);
                assert(want == cycle_findings(iris@, g, i as nat).push(
                    (rule_code(RuleKind::DeclarationCycle), cycle_message(iris@, g, i as int), iris@[i as int]@),
                ));
                assert(diag.message@ =~= cycle_message(iris@, g, i as int));
                assert forall|k: int| 0 <= k < d@.len() implies is_error_about(
                    #[trigger] d@[k],
                    want[k].0,
                    want[k].1,
                    want[k].2,
                ) by {
                    if k < before.len() {
                        assert(d@[k] == before[k]);
                    }
                }
            }
        } else {
            proof {
                assert(!leads_cycle(g, i as int));
                assert(cycle_findings(iris@, g, (i + 1) as nat) =~= cycle_findings(iris@, g, i as nat));
            }
        }
        i += 1;
    }
    d
}

/// The plan of one block's own declaration chain.
pub struct DeclarationPlan {
    /// `references[i]`: the chained indices of the siblings declaration `i` references, ascending.
    pub references: Vec<Vec<usize>>,
    /// Whether each declaration is refused: a later duplicate, or a member of a reference cycle.
    /// A refused declaration is excluded from validation, grounding and the produced scope.
    pub refused: Vec<bool>,
    /// The `duplicate-declaration` findings in chained order, then the `declaration-cycle`
    /// findings ordered by each cycle's earliest member.
    pub findings: Vec<Diagnostic>,
    /// The surviving declarations in evaluation order.
    pub order: Vec<usize>,
}

/// Plan a block's own declaration chain: `iris` in chained declaration order, and for each the
/// expression text of its right-hand side when it has one that can ground (`None` for a missing
/// node, a non-`Expr` value, or a declaration that is refused before grounding).
pub fn plan_declarations(iris: &[&str], rhs: &[Option<&str>]) -> (p: DeclarationPlan)
    requires
        iris@.len() == rhs@.len(),
    ensures
        ({
            let n = iris@.len() as int;
            let names = chain_names(iris@);
            let rv = chain_rhs(rhs@);
            let g = graph_view(p.references@);
            &&& p.references@.len() == n
            &&& forall|i: int|
                0 <= i < n ==> ascending_exactly(
                    #[trigger] p.references@[i]@,
                    n,
                    |j: int| references(names, rv, i, j),
                )
            &&& p.refused@.len() == n
            &&& forall|i: int| 0 <= i < n ==> p.refused@[i] == (is_duplicate(names, i) || on_cycle(g, i))
            &&& reports(p.findings@, duplicate_findings(iris@, names, n as nat) + cycle_findings(iris@, g, n as nat))
            &&& is_evaluation_order(g, p.refused@, p.order@)
        }),
{
    let n = iris.len();
    let ghost nv = chain_names(iris@);
    let ghost rv = chain_rhs(rhs@);
    let names = names_of_chain(iris);
    let mut duplicate: Vec<bool> = Vec::new();
    let mut i: usize = 0;
    while i < n
        invariant
            n == iris@.len(),
            nv == chain_names(iris@),
            names@.len() == n,
            forall|j: int| 0 <= j < n ==> (#[trigger] names@[j])@ == nv[j],
            i <= n,
            duplicate@.len() == i,
            forall|j: int| 0 <= j < i ==> duplicate@[j] == is_duplicate(nv, j),
        decreases n - i,
    {
        let first = first_named_exec(&names, names[i], i, Ghost(nv));
        duplicate.push(first.is_some());
        i += 1;
    }
    let mut refs: Vec<Vec<usize>> = Vec::new();
    let mut i: usize = 0;
    while i < n
        invariant
            n == iris@.len() == rhs@.len(),
            nv == chain_names(iris@),
            rv == chain_rhs(rhs@),
            names@.len() == n,
            forall|j: int| 0 <= j < n ==> (#[trigger] names@[j])@ == nv[j],
            duplicate@.len() == n,
            forall|j: int| 0 <= j < n ==> duplicate@[j] == is_duplicate(nv, j),
            i <= n,
            refs@.len() == i,
            forall|a: int|
                0 <= a < i ==> ascending_exactly(#[trigger] refs@[a]@, n as int, |j: int| references(nv, rv, a, j)),
        decreases n - i,
    {
        let r = references_of(&names, rhs[i], duplicate[i], Ghost(nv), Ghost(rv), Ghost(i as int));
        refs.push(r);
        i += 1;
    }
    let ghost g = graph_view(refs@);
    assert(refs_ok(g)) by {
        assert forall|a: int, k: int| 0 <= a < g.len() && 0 <= k < g[a].len() implies (#[trigger] g[a][k] as int) < g.len() by {
            assert(ascending_exactly(refs@[a]@, n as int, |j: int| references(nv, rv, a, j)));
        }
    }
    let reach = reach_matrix(&refs);
    let cyclic = cycle_flags(&refs, &reach);
    let mut refused: Vec<bool> = Vec::new();
    let mut i: usize = 0;
    while i < n
        invariant
            n == refs@.len(),
            g == graph_view(refs@),
            duplicate@.len() == n,
            forall|j: int| 0 <= j < n ==> duplicate@[j] == is_duplicate(nv, j),
            cyclic@.len() == n,
            forall|j: int| 0 <= j < n ==> cyclic@[j] == on_cycle(g, j),
            i <= n,
            refused@.len() == i,
            forall|j: int| 0 <= j < i ==> refused@[j] == (is_duplicate(nv, j) || on_cycle(g, j)),
        decreases n - i,
    {
        refused.push(duplicate[i] || cyclic[i]);
        i += 1;
    }
    let mut findings = duplicate_diagnostics(iris, &names, Ghost(nv));
    let mut cycles = cycle_diagnostics(iris, &reach, &cyclic, Ghost(g));
    let ghost dv = findings@;
    let ghost cv = cycles@;
    findings.append(&mut cycles);
    proof {
        let want = duplicate_findings(iris@, nv, n as nat) + cycle_findings(iris@, g, n as nat);
        assert forall|k: int| 0 <= k < findings@.len() implies is_error_about(
            #[trigger] findings@[k],
            want[k].0,
            want[k].1,
            want[k].2,
        ) by {
            if k < dv.len() {
                assert(findings@[k] == dv[k]);
            } else {
                assert(findings@[k] == cv[k - dv.len()]);
            }
        }
    }
    let order = evaluation_order(&refs, &refused);
    DeclarationPlan { references: refs, refused, findings, order }
}

} // verus!
