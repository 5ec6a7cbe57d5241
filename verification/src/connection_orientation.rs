//! Canonical orientation of authored CXF connections.
//!
//! Either endpoint of a connection may carry `isConnectedTo`, so an authored edge is re-anchored
//! on its driving end before the flat model sees it, and the forward and reverse spellings of
//! one relation collapse one for one.
use vstd::prelude::*;
use crate::model::{Connector, ConnectorId, Dir};
use crate::port_binding::str_eq;
use crate::specialize::{contains_str, names, Specialization};
use crate::strmap::StrMap;
use crate::text::owned;

verus! {

/// The direction of the connector an IRI resolves to, if it resolves to one.
pub open spec fn dir_at(conn_of_iri: StrMap<ConnectorId>, connectors: Seq<Connector>, iri: Seq<char>) -> Option<Dir> {
    match conn_of_iri.at(iri) {
        Some(id) => Some(connectors[id.0 as int].dir),
        None => None,
    }
}

/// Every connector id the map holds names a connector.
pub open spec fn ids_in_range(conn_of_iri: StrMap<ConnectorId>, n: int) -> bool {
    forall|k: Seq<char>| #[trigger] conn_of_iri.at(k) matches Some(id) ==> (id.0 as int) < n
}

/// The driver-first orientation of the edge `source → target`: an edge leaving a boundary
/// input or entering a boundary output stands; one entering a boundary input or leaving a
/// boundary output swaps; an input-to-output edge between connectors swaps; anything else
/// stands for later diagnostics.
pub open spec fn orient_v(
    source: Seq<char>,
    target: Seq<char>,
    boundary_in: Set<Seq<char>>,
    boundary_out: Set<Seq<char>>,
    ds: Option<Dir>,
    dt: Option<Dir>,
) -> (Seq<char>, Seq<char>) {
    if boundary_in.contains(source) || boundary_out.contains(target) {
        (source, target)
    } else if boundary_in.contains(target) || boundary_out.contains(source) {
        (target, source)
    } else if ds == Some(Dir::In) && dt == Some(Dir::Out) {
        (target, source)
    } else {
        (source, target)
    }
}

fn dir_of(conn_of_iri: &StrMap<ConnectorId>, connectors: &[Connector], iri: &str) -> (r: Option<Dir>)
    requires
        ids_in_range(*conn_of_iri, connectors@.len() as int),
    ensures
        r == dir_at(*conn_of_iri, connectors@, iri@),
{
    match conn_of_iri.get(iri) {
        Some(id) => {
            assert(conn_of_iri.at(iri@) matches Some(x) && (x.0 as int) < connectors@.len());
            Some(connectors[id.0 as usize].dir)
        },
        None => None,
    }
}

/// Re-anchor one `isConnectedTo` edge on its driving end. `conn_of_iri` resolves an IRI to its
/// connector.
pub fn orient_edge<'a>(
    source: &'a str,
    target: &'a str,
    boundary_in: &Vec<String>,
    boundary_out: &Vec<String>,
    conn_of_iri: &StrMap<ConnectorId>,
    connectors: &[Connector],
) -> (r: (&'a str, &'a str))
    requires
        ids_in_range(*conn_of_iri, connectors@.len() as int),
    ensures
        (r.0@, r.1@) == orient_v(
            source@,
            target@,
            names(boundary_in@).to_set(),
            names(boundary_out@).to_set(),
            dir_at(*conn_of_iri, connectors@, source@),
            dir_at(*conn_of_iri, connectors@, target@),
        ),
{
    proof {
        names_to_set(boundary_in@);
        names_to_set(boundary_out@);
    }
    if contains_str(boundary_in, source) || contains_str(boundary_out, target) {
        return (source, target);
    }
    if contains_str(boundary_in, target) || contains_str(boundary_out, source) {
        return (target, source);
    }
    match (dir_of(conn_of_iri, connectors, source), dir_of(conn_of_iri, connectors, target)) {
        (Some(Dir::In), Some(Dir::Out)) => (target, source),
        _ => (source, target),
    }
}

proof fn names_to_set(v: Seq<String>)
    ensures
        forall|x: Seq<char>| #[trigger] names(v).to_set().contains(x) == names(v).contains(x),
{
}

// ---- one-for-one collapse of opposite spellings ----

/// An edge as characters.
pub type EdgeV = (Seq<char>, Seq<char>);

/// The key of `e` is `p`.
pub open spec fn key_is<T>(e: ((String, String), T), p: EdgeV) -> bool {
    e.0.0@ == p.0 && e.0.1@ == p.1
}

/// The value of the first entry keyed `p`.
pub open spec fn pair_at<T>(entries: Seq<((String, String), T)>, p: EdgeV) -> Option<T>
    decreases entries.len(),
{
    if entries.len() == 0 {
        None
    } else if pair_at(entries.drop_last(), p) is Some {
        pair_at(entries.drop_last(), p)
    } else if key_is(entries.last(), p) {
        Some(entries.last().1)
    } else {
        None
    }
}

proof fn lemma_pair_at<T>(s: Seq<((String, String), T)>, p: EdgeV)
    ensures
        pair_at(s, p) is None <==> (forall|j: int| 0 <= j < s.len() ==> !key_is(#[trigger] s[j], p)),
        forall|i: int|
            0 <= i < s.len() && key_is(#[trigger] s[i], p) && (forall|j: int| 0 <= j < i ==> !key_is(#[trigger] s[j], p))
                ==> pair_at(s, p) == Some(s[i].1),
    decreases s.len(),
{
    if s.len() > 0 {
        let d = s.drop_last();
        lemma_pair_at(d, p);
        assert forall|j: int| 0 <= j < d.len() implies d[j] == s[j] by {}
        if pair_at(d, p) is None {
            assert forall|i: int|
                0 <= i < s.len() && key_is(#[trigger] s[i], p) && (forall|j: int| 0 <= j < i ==> !key_is(#[trigger] s[j], p))
                    implies pair_at(s, p) == Some(s[i].1) by {
                if i < s.len() - 1 {
                    assert(key_is(d[i], p));
                }
            }
        } else {
            let w = choose|j: int| 0 <= j < d.len() && key_is(#[trigger] d[j], p);
            assert(key_is(s[w], p));
            assert forall|i: int|
                0 <= i < s.len() && key_is(#[trigger] s[i], p) && (forall|j: int| 0 <= j < i ==> !key_is(#[trigger] s[j], p))
                    implies pair_at(s, p) == Some(s[i].1) by {
                if i == s.len() - 1 {
                    assert(!key_is(s[w], p));
                }
                assert(key_is(d[i], p));
                assert forall|j: int| 0 <= j < i implies !key_is(#[trigger] d[j], p) by {
                    assert(!key_is(s[j], p));
                }
            }
        }
    }
}

/// Replacing the first entry keyed like `e` by `e` changes only that key's value.
proof fn lemma_pair_at_update<T>(s: Seq<((String, String), T)>, i: int, e: ((String, String), T), p: EdgeV)
    requires
        0 <= i < s.len(),
        e.0.0@ == s[i].0.0@,
        e.0.1@ == s[i].0.1@,
        forall|j: int| 0 <= j < i ==> !key_is(#[trigger] s[j], (e.0.0@, e.0.1@)),
    ensures
        pair_at(s.update(i, e), p) == if key_is(e, p) {
            Some(e.1)
        } else {
            pair_at(s, p)
        },
{
    let n = s.update(i, e);
    lemma_pair_at(s, p);
    lemma_pair_at(n, p);
    if key_is(e, p) {
        assert(key_is(n[i], p));
        assert forall|j: int| 0 <= j < i implies !key_is(#[trigger] n[j], p) by {
            assert(n[j] == s[j]);
        }
    } else {
        assert forall|j: int| 0 <= j < s.len() implies key_is(#[trigger] n[j], p) == key_is(s[j], p) by {
            if j != i {
                assert(n[j] == s[j]);
            }
        }
        if pair_at(s, p) is Some {
            let w = choose|j: int| 0 <= j < s.len() && key_is(#[trigger] s[j], p);
            let f = first_key(s, p, w);
            assert(key_is(n[f], p));
            assert forall|j: int| 0 <= j < f implies !key_is(#[trigger] n[j], p) by {
                assert(key_is(n[j], p) == key_is(s[j], p));
            }
            assert(n[f] == s[f]);
        } else {
            assert forall|j: int| 0 <= j < n.len() implies !key_is(#[trigger] n[j], p) by {
                assert(key_is(n[j], p) == key_is(s[j], p));
            }
        }
    }
}

/// Appending an entry under a new key adds exactly that key.
proof fn lemma_pair_at_push<T>(s: Seq<((String, String), T)>, e: ((String, String), T), p: EdgeV)
    requires
        pair_at(s, (e.0.0@, e.0.1@)) is None,
    ensures
        pair_at(s.push(e), p) == if key_is(e, p) {
            Some(e.1)
        } else {
            pair_at(s, p)
        },
{
    assert(s.push(e).drop_last() =~= s);
}

/// The first index at or before `w` keyed `p`.
proof fn first_key<T>(s: Seq<((String, String), T)>, p: EdgeV, w: int) -> (f: int)
    requires
        0 <= w < s.len(),
        key_is(s[w], p),
    ensures
        0 <= f <= w,
        key_is(s[f], p),
        forall|j: int| 0 <= j < f ==> !key_is(#[trigger] s[j], p),
    decreases w,
{
    if exists|j: int| 0 <= j < w && key_is(#[trigger] s[j], p) {
        let v = choose|j: int| 0 <= j < w && key_is(#[trigger] s[j], p);
        first_key(s, p, v)
    } else {
        w
    }
}

/// Entry lists with the same keys at every position, whose values correspond under `f`,
/// give corresponding lookups.
proof fn lemma_pair_at_map<T, U>(s: Seq<((String, String), T)>, t: Seq<((String, String), U)>, f: spec_fn(T) -> U, p: EdgeV)
    requires
        s.len() == t.len(),
        forall|j: int| 0 <= j < s.len() ==> (#[trigger] s[j]).0.0@ == t[j].0.0@ && s[j].0.1@ == t[j].0.1@ && t[j].1 == f(s[j].1),
    ensures
        pair_at(t, p) == match pair_at(s, p) {
            Some(v) => Some(f(v)),
            None => None,
        },
    decreases s.len(),
{
    if s.len() > 0 {
        lemma_pair_at_map(s.drop_last(), t.drop_last(), f, p);
        assert(s[s.len() - 1] == s.last());
    }
}

/// The forward and reverse spelling counts per oriented pair over the first `k` edges; an
/// edge with a pruned endpoint, or touching no boundary port, is not counted.
pub open spec fn counts_v(
    edges: Seq<EdgeV>,
    k: nat,
    boundary_in: Set<Seq<char>>,
    boundary_out: Set<Seq<char>>,
    dir: spec_fn(Seq<char>) -> Option<Dir>,
    pruned: Seq<Seq<char>>,
) -> Map<EdgeV, (nat, nat)>
    decreases k,
{
    if k == 0 || k > edges.len() {
        Map::empty()
    } else {
        let m = counts_v(edges, (k - 1) as nat, boundary_in, boundary_out, dir, pruned);
        let (s, t) = edges[k - 1];
        if pruned.contains(s) || pruned.contains(t) {
            m
        } else if !boundary_in.contains(s) && !boundary_in.contains(t) && !boundary_out.contains(s)
            && !boundary_out.contains(t) {
            m
        } else {
            let o = orient_v(s, t, boundary_in, boundary_out, dir(s), dir(t));
            let c = if m.contains_key(o) {
                m[o]
            } else {
                (0nat, 0nat)
            };
            m.insert(
                o,
                if o == (t, s) && s != t {
                    (c.0, c.1 + 1)
                } else {
                    (c.0 + 1, c.1)
                },
            )
        }
    }
}

/// The larger of two counts.
pub open spec fn max_nat(a: nat, b: nat) -> nat {
    if a >= b {
        a
    } else {
        b
    }
}

/// How many copies of each canonical pair survive, and how many have been let through.
pub struct RelationMultiplicity {
    pub desired: Vec<((String, String), usize)>,
    pub emitted: Vec<((String, String), usize)>,
}

impl RelationMultiplicity {
    /// The surviving multiplicity of each counted pair.
    pub open spec fn desired_v(&self) -> Map<EdgeV, nat> {
        Map::new(|p: EdgeV| pair_at(self.desired@, p) is Some, |p: EdgeV| pair_at(self.desired@, p)->0 as nat)
    }

    /// How many copies of a pair have been let through (zero when none).
    pub open spec fn emitted_of(&self, p: EdgeV) -> nat {
        match pair_at(self.emitted@, p) {
            Some(n) => n as nat,
            None => 0,
        }
    }

    /// Count active forward and reverse spellings per canonical pair, without collapsing
    /// same-direction copies: a pair survives as many times as its more frequent spelling.
    pub fn new(
        edges: &[(String, String)],
        boundary_in: &Vec<String>,
        boundary_out: &Vec<String>,
        conn_of_iri: &StrMap<ConnectorId>,
        connectors: &[Connector],
        specialization: &Specialization,
    ) -> (r: RelationMultiplicity)
        requires
            ids_in_range(*conn_of_iri, connectors@.len() as int),
        ensures
            ({
                let counts = counts_v(
                    edges@.map_values(|e: (String, String)| (e.0@, e.1@)),
                    edges@.len(),
                    names(boundary_in@).to_set(),
                    names(boundary_out@).to_set(),
                    |x: Seq<char>| dir_at(*conn_of_iri, connectors@, x),
                    specialization.pruned(),
                );
                &&& r.desired_v() == counts.map_values(|c: (nat, nat)| max_nat(c.0, c.1))
                &&& forall|p: EdgeV| r.emitted_of(p) == 0
            }),
    {
        let ghost ev = edges@.map_values(|e: (String, String)| (e.0@, e.1@));
        let ghost bin = names(boundary_in@).to_set();
        let ghost bout = names(boundary_out@).to_set();
        let ghost dir = |x: Seq<char>| dir_at(*conn_of_iri, connectors@, x);
        let ghost pruned = specialization.pruned();
        let mut counts: Vec<((String, String), (usize, usize))> = Vec::new();
        let mut k: usize = 0;
        while k < edges.len()
            invariant
                ev == edges@.map_values(|e: (String, String)| (e.0@, e.1@)),
                bin == names(boundary_in@).to_set(),
                bout == names(boundary_out@).to_set(),
                dir == (|x: Seq<char>| dir_at(*conn_of_iri, connectors@, x)),
                pruned == specialization.pruned(),
                ids_in_range(*conn_of_iri, connectors@.len() as int),
                k <= edges@.len(),
                forall|p: EdgeV| #[trigger] pair_at(counts@, p) is Some == counts_v(ev, k as nat, bin, bout, dir, pruned).contains_key(p),
                forall|p: EdgeV| #[trigger] pair_at(counts@, p) matches Some(c) ==> counts_v(ev, k as nat, bin, bout, dir, pruned)[p] == (
                    c.0 as nat,
                    c.1 as nat,
                ),
                forall|i: int| 0 <= i < counts@.len() ==> #[trigger] counts@[i].1.0 + counts@[i].1.1 <= k,
            decreases edges@.len() - k,
        {
            let s = edges[k].0.as_str();
            let t = edges[k].1.as_str();
            assert(ev[k as int] == (s@, t@));
            let ghost m = counts_v(ev, k as nat, bin, bout, dir, pruned);
            if specialization.is_inactive(s) || specialization.is_inactive(t) {
            } else if !contains_str(boundary_in, s) && !contains_str(boundary_in, t) && !contains_str(boundary_out, s)
                && !contains_str(boundary_out, t) {
                proof {
                    names_to_set(boundary_in@);
                    names_to_set(boundary_out@);
                }
            } else {
                proof {
                    names_to_set(boundary_in@);
                    names_to_set(boundary_out@);
                }
                let o = orient_edge(s, t, boundary_in, boundary_out, conn_of_iri, connectors);
                let reverse = str_eq(o.0, t) && str_eq(o.1, s) && !str_eq(s, t);
                let ghost ov = (o.0@, o.1@);
                let ghost before = counts@;
                match find_pair(&counts, o.0, o.1) {
                    Some(i) => {
                        let c = counts[i].1;
                        assert(counts@[i as int].1.0 + counts@[i as int].1.1 <= k);
                        proof {
                            lemma_pair_at(before, ov);
                            assert(pair_at(before, ov) == Some(c));
                            assert(m.contains_key(ov) && m[ov] == (c.0 as nat, c.1 as nat));
                        }
                        let c2 = if reverse {
                            (c.0, c.1 + 1)
                        } else {
                            (c.0 + 1, c.1)
                        };
                        let e = ((owned(o.0), owned(o.1)), c2);
                        counts.set(i, e);
                        proof {
                            assert forall|p: EdgeV| #[trigger] pair_at(counts@, p) == if key_is(e, p) {
                                Some(c2)
                            } else {
                                pair_at(before, p)
                            } by {
                                lemma_pair_at_update(before, i as int, e, p);
                            }
                        }
                    },
                    None => {
                        let c2: (usize, usize) = if reverse {
                            (0, 1)
                        } else {
                            (1, 0)
                        };
                        let e = ((owned(o.0), owned(o.1)), c2);
                        assert(!m.contains_key(ov));
                        counts.push(e);
                        proof {
                            assert forall|p: EdgeV| #[trigger] pair_at(counts@, p) == if key_is(e, p) {
                                Some(c2)
                            } else {
                                pair_at(before, p)
                            } by {
                                lemma_pair_at_push(before, e, p);
                            }
                        }
                    },
                }
                proof {
                    let m2 = counts_v(ev, (k + 1) as nat, bin, bout, dir, pruned);
                    assert(ov == orient_v(s@, t@, bin, bout, dir(s@), dir(t@)));
                    assert(reverse == (ov == (t@, s@) && s@ != t@));
                    assert forall|p: EdgeV| #[trigger] pair_at(counts@, p) is Some == m2.contains_key(p) by {}
                    assert forall|p: EdgeV| #[trigger] pair_at(counts@, p) is Some implies m2[p] == (
                        (pair_at(counts@, p)->0).0 as nat,
                        (pair_at(counts@, p)->0).1 as nat,
                    ) by {}
                    assert forall|q: int| 0 <= q < counts@.len() implies #[trigger] counts@[q].1.0 + counts@[q].1.1 <= k + 1 by {
                        if q < before.len() && !key_is(counts@[q], ov) {
                            assert(counts@[q] == before[q]);
                        }
                    }
                }
            }
            k += 1;
        }
        let mut desired: Vec<((String, String), usize)> = Vec::new();
        let mut i: usize = 0;
        while i < counts.len()
            invariant
                i <= counts@.len(),
                desired@.len() == i,
                forall|j: int| 0 <= j < i ==> (#[trigger] counts@[j]).0.0@ == desired@[j].0.0@ && counts@[j].0.1@
                    == desired@[j].0.1@ && desired@[j].1 as nat == max_nat(counts@[j].1.0 as nat, counts@[j].1.1 as nat),
            decreases counts@.len() - i,
        {
            let c = counts[i].1;
            let m = if c.0 >= c.1 {
                c.0
            } else {
                c.1
            };
            desired.push(((owned(counts[i].0.0.as_str()), owned(counts[i].0.1.as_str())), m));
            i += 1;
        }
        proof {
            let f = |c: (usize, usize)| max_nat(c.0 as nat, c.1 as nat) as usize;
            assert forall|p: EdgeV| #[trigger] pair_at(desired@, p) == match pair_at(counts@, p) {
                Some(v) => Some(f(v)),
                None => None,
            } by {
                lemma_pair_at_map(counts@, desired@, f, p);
            }
        }
        let r = RelationMultiplicity { desired, emitted: Vec::new() };
        assert(r.desired_v() =~= counts_v(ev, edges@.len(), bin, bout, dir, pruned).map_values(
            |c: (nat, nat)| max_nat(c.0, c.1),
        ));
        r
    }
}

/// One `retain` of pair `p` taking `a` to `z` and answering `r`: the multiplicities stay; a pair
/// never counted passes; a pair at its multiplicity is refused; any other passes and its count
/// grows by one. Only a passing counted pair changes a count.
pub open spec fn retain_step(a: RelationMultiplicity, z: RelationMultiplicity, p: EdgeV, r: bool) -> bool {
    &&& z.desired_v() == a.desired_v()
    &&& if !a.desired_v().contains_key(p) {
        r && forall|q: EdgeV| z.emitted_of(q) == a.emitted_of(q)
    } else if a.emitted_of(p) >= a.desired_v()[p] {
        !r && forall|q: EdgeV| z.emitted_of(q) == a.emitted_of(q)
    } else {
        &&& r
        &&& z.emitted_of(p) == a.emitted_of(p) + 1
        &&& forall|q: EdgeV| q != p ==> z.emitted_of(q) == a.emitted_of(q)
    }
}

/// How many times `x` occurs in `s`.
pub open spec fn occurrences(s: Seq<EdgeV>, x: EdgeV) -> nat
    decreases s.len(),
{
    if s.len() == 0 {
        0
    } else {
        occurrences(s.drop_last(), x) + if s.last() == x {
            1nat
        } else {
            0nat
        }
    }
}

/// The smaller of two counts.
pub open spec fn min_nat(a: nat, b: nat) -> nat {
    if a <= b {
        a
    } else {
        b
    }
}

/// After the first `k` retains of a sequence from a fresh count, each counted pair has been let
/// through as often as it occurred, up to its multiplicity.
proof fn lemma_retain_prefix(states: Seq<RelationMultiplicity>, ps: Seq<EdgeV>, bs: Seq<bool>, k: int)
    requires
        states.len() == ps.len() + 1,
        bs.len() == ps.len(),
        forall|q: EdgeV| states[0].emitted_of(q) == 0,
        forall|i: int| 0 <= i < ps.len() ==> retain_step(#[trigger] states[i], states[i + 1], ps[i], bs[i]),
        0 <= k <= ps.len(),
    ensures
        states[k].desired_v() == states[0].desired_v(),
        forall|q: EdgeV|
            states[0].desired_v().contains_key(q) ==> #[trigger] states[k].emitted_of(q) == min_nat(
                occurrences(ps.take(k), q),
                states[0].desired_v()[q],
            ),
    decreases k,
{
    if k == 0 {
        assert forall|q: EdgeV| states[0].desired_v().contains_key(q) implies #[trigger] states[0].emitted_of(q)
            == min_nat(occurrences(ps.take(0), q), states[0].desired_v()[q]) by {
            assert(ps.take(0).len() == 0);
        }
    } else {
        lemma_retain_prefix(states, ps, bs, k - 1);
        assert(retain_step(states[k - 1], states[k], ps[k - 1], bs[k - 1]));
        assert(ps.take(k).drop_last() =~= ps.take(k - 1));
        assert forall|q: EdgeV| states[0].desired_v().contains_key(q) implies #[trigger] states[k].emitted_of(q)
            == min_nat(occurrences(ps.take(k), q), states[0].desired_v()[q]) by {
            assert(states[k - 1].emitted_of(q) == min_nat(occurrences(ps.take(k - 1), q), states[0].desired_v()[q]));
            assert(occurrences(ps.take(k), q) == occurrences(ps.take(k - 1), q) + if ps[k - 1] == q {
                1nat
            } else {
                0nat
            });
        }
    }
}

/// A sequence of `retain` calls from a fresh count lets each counted pair through at its
/// earliest occurrences, as many times as its multiplicity: call `i` passes exactly when its
/// pair was never counted or occurred fewer times than its multiplicity before.
pub proof fn lemma_retain_sequence(states: Seq<RelationMultiplicity>, ps: Seq<EdgeV>, bs: Seq<bool>)
    requires
        states.len() == ps.len() + 1,
        bs.len() == ps.len(),
        forall|q: EdgeV| states[0].emitted_of(q) == 0,
        forall|i: int| 0 <= i < ps.len() ==> retain_step(#[trigger] states[i], states[i + 1], ps[i], bs[i]),
    ensures
        forall|i: int|
            0 <= i < ps.len() ==> #[trigger] bs[i] == (!states[0].desired_v().contains_key(ps[i]) || occurrences(
                ps.take(i),
                ps[i],
            ) < states[0].desired_v()[ps[i]]),
{
    assert forall|i: int| 0 <= i < ps.len() implies #[trigger] bs[i] == (!states[0].desired_v().contains_key(ps[i])
        || occurrences(ps.take(i), ps[i]) < states[0].desired_v()[ps[i]]) by {
        lemma_retain_prefix(states, ps, bs, i);
        assert(retain_step(states[i], states[i + 1], ps[i], bs[i]));
        if states[0].desired_v().contains_key(ps[i]) {
            assert(states[i].emitted_of(ps[i]) == min_nat(occurrences(ps.take(i), ps[i]), states[0].desired_v()[ps[i]]));
        }
    }
}

impl RelationMultiplicity {
    /// Let an occurrence of `source → target` through while its pair is under its required
    /// multiplicity; a pair that was never counted always passes.
    pub fn retain(&mut self, source: &str, target: &str) -> (b: bool)
        ensures
            retain_step(*old(self), *final(self), (source@, target@), b),
    {
        let ghost p = (source@, target@);
        let d = match find_pair(&self.desired, source, target) {
            Some(i) => {
                proof {
                    lemma_pair_at(self.desired@, p);
                }
                self.desired[i].1
            },
            None => {
                return true;
            },
        };
        let ghost before = self.emitted@;
        proof {
            lemma_pair_at(before, p);
        }
        match find_pair(&self.emitted, source, target) {
            Some(j) => {
                let e = self.emitted[j].1;
                if e >= d {
                    return false;
                }
                let entry = ((owned(source), owned(target)), e + 1);
                self.emitted.set(j, entry);
                proof {
                    assert forall|q: EdgeV| #[trigger] pair_at(self.emitted@, q) == if key_is(entry, q) {
                        Some((e + 1) as usize)
                    } else {
                        pair_at(before, q)
                    } by {
                        lemma_pair_at_update(before, j as int, entry, q);
                    }
                }
                true
            },
            None => {
                if 0 >= d {
                    return false;
                }
                let entry = ((owned(source), owned(target)), 1usize);
                self.emitted.push(entry);
                proof {
                    assert forall|q: EdgeV| #[trigger] pair_at(self.emitted@, q) == if key_is(entry, q) {
                        Some(1usize)
                    } else {
                        pair_at(before, q)
                    } by {
                        lemma_pair_at_push(before, entry, q);
                    }
                }
                true
            },
        }
    }
}

/// The position of the first entry keyed `(a, b)`.
fn find_pair<T>(entries: &Vec<((String, String), T)>, a: &str, b: &str) -> (r: Option<usize>)
    ensures
        match r {
            Some(i) => i < entries@.len() && key_is(entries@[i as int], (a@, b@)) && (forall|j: int|
                0 <= j < i ==> !key_is(#[trigger] entries@[j], (a@, b@))),
            None => pair_at(entries@, (a@, b@)) is None,
        },
{
    proof {
        lemma_pair_at(entries@, (a@, b@));
    }
    let mut i: usize = 0;
    while i < entries.len()
        invariant
            i <= entries@.len(),
            forall|j: int| 0 <= j < i ==> !key_is(#[trigger] entries@[j], (a@, b@)),
            pair_at(entries@, (a@, b@)) is None <==> (forall|j: int| 0 <= j < entries@.len() ==> !key_is(#[trigger] entries@[j], (a@, b@))),
        decreases entries@.len() - i,
    {
        if str_eq(entries[i].0.0.as_str(), a) && str_eq(entries[i].0.1.as_str(), b) {
            return Some(i);
        }
        i += 1;
    }
    None
}

} // verus!
