//! Laws of the export planning: every surviving connection reaches the document, and every
//! emitted datatype term reads back as the connector's type.
use vstd::prelude::*;
use crate::export::{datatype_v, edges_v};
use crate::model::{Dir, ModelGraph, ValueType};
use crate::text::{after_last_in, rfind_in};
use crate::value_types::datatype_value_type;

verus! {

/// Connection `j` is carried into the document: it runs from an output to an input that both
/// exist, its source's block survives, and its target's port was claimed.
pub open spec fn carried(g: ModelGraph, deferred: Seq<usize>, port_iri: Seq<Option<Seq<char>>>, j: int) -> bool {
    let conn = g.connections@[j];
    let f = conn.from.0 as int;
    let t = conn.to.0 as int;
    let n = g.connectors@.len();
    &&& f < n
    &&& t < n
    &&& g.connectors@[f].dir == Dir::Out
    &&& g.connectors@[t].dir == Dir::In
    &&& !deferred.contains(g.connectors@[f].block.0 as usize)
    &&& port_iri[t] is Some
}

/// How many of the first `k` connections are carried out of connector `f`.
pub open spec fn carried_from(g: ModelGraph, deferred: Seq<usize>, port_iri: Seq<Option<Seq<char>>>, f: int, k: nat) -> nat
    decreases k,
{
    if k == 0 || k > g.connections@.len() {
        0
    } else {
        carried_from(g, deferred, port_iri, f, (k - 1) as nat) + if carried(g, deferred, port_iri, k - 1)
            && g.connections@[k - 1].from.0 as int == f {
            1nat
        } else {
            0nat
        }
    }
}

/// Every carried connection reaches the document: the `@id` of its target port is among the
/// targets of its source, and each source has exactly as many targets as connections carried
/// out of it; a later connection from the same output never displaces an earlier one.
pub proof fn lemma_every_carried_connection_is_a_target(
    g: ModelGraph,
    deferred: Seq<usize>,
    port_iri: Seq<Option<Seq<char>>>,
    k: nat,
)
    requires
        port_iri.len() == g.connectors@.len(),
        k <= g.connections@.len(),
    ensures
        edges_v(g, deferred, port_iri, k).0.targets.len() == g.connectors@.len(),
        forall|f: int|
            0 <= f < g.connectors@.len() ==> (#[trigger] edges_v(g, deferred, port_iri, k).0.targets[f]).len()
                == carried_from(g, deferred, port_iri, f, k),
        forall|j: int|
            0 <= j < k && #[trigger] carried(g, deferred, port_iri, j) ==> edges_v(g, deferred, port_iri, k).0.targets[
                g.connections@[j].from.0 as int].contains(port_iri[g.connections@[j].to.0 as int]->0),
    decreases k,
{
    if k > 0 {
        lemma_every_carried_connection_is_a_target(g, deferred, port_iri, (k - 1) as nat);
        let e0 = edges_v(g, deferred, port_iri, (k - 1) as nat).0;
        let e1 = edges_v(g, deferred, port_iri, k).0;
        let conn = g.connections@[k - 1];
        let f = conn.from.0 as int;
        let t = conn.to.0 as int;
        if carried(g, deferred, port_iri, k - 1) {
            let to = port_iri[t]->0;
            assert(e1.targets == e0.targets.update(f, e0.targets[f].push(to)));
            assert(e1.targets[f].contains(to)) by {
                assert(e1.targets[f][e0.targets[f].len() as int] == to);
            }
            assert forall|j: int| 0 <= j < k && #[trigger] carried(g, deferred, port_iri, j) implies e1.targets[
                g.connections@[j].from.0 as int].contains(port_iri[g.connections@[j].to.0 as int]->0) by {
                if j < k - 1 {
                    let fj = g.connections@[j].from.0 as int;
                    let x = port_iri[g.connections@[j].to.0 as int]->0;
                    assert(e0.targets[fj].contains(x));
                    if fj == f {
                        let w = choose|w: int| 0 <= w < e0.targets[fj].len() && e0.targets[fj][w] == x;
                        assert(e1.targets[fj][w] == x);
                    }
                }
            }
        } else {
            assert(e1.targets == e0.targets);
        }
    }
}

/// In a run `p`, one separator, then a run `w` free of separators, the last separator is the
/// one after `p`.
proof fn lemma_last_separator(p: Seq<char>, sep: char, w: Seq<char>, cs: Seq<char>)
    requires
        cs.contains(sep),
        forall|i: int| 0 <= i < w.len() ==> !cs.contains(#[trigger] w[i]),
    ensures
        rfind_in(p + seq![sep] + w, cs) == p.len(),
    decreases w.len(),
{
    let s = p + seq![sep] + w;
    if w.len() == 0 {
        assert(s.last() == sep);
    } else {
        lemma_last_separator(p, sep, w.drop_last(), cs);
        assert(s.drop_last() =~= p + seq![sep] + w.drop_last());
        assert(s.last() == w[w.len() - 1]);
    }
}

/// A run `p`, one separator, then a run `w` free of separators ends, after its last separator,
/// with `w`.
proof fn lemma_after_separator(p: Seq<char>, sep: char, w: Seq<char>, cs: Seq<char>)
    requires
        cs.contains(sep),
        forall|i: int| 0 <= i < w.len() ==> !cs.contains(#[trigger] w[i]),
    ensures
        after_last_in(p + seq![sep] + w, cs) == w,
{
    lemma_last_separator(p, sep, w, cs);
    let s = p + seq![sep] + w;
    assert(s.subrange(p.len() as int + 1, s.len() as int) =~= w);
}

/// The datatype term a port is emitted with reads back as the port's own value type, for every
/// type the exporter emits.
pub proof fn lemma_emitted_datatype_reads_back(vt: ValueType)
    requires
        vt is Real || vt is Integer || vt is Boolean,
    ensures
        datatype_value_type(datatype_v(vt)) == Some(vt),
{
    reveal_strlit("S231:Real");
    reveal_strlit("S231:Integer");
    reveal_strlit("S231:Boolean");
    reveal_strlit("S231");
    reveal_strlit("Real");
    reveal_strlit("Integer");
    reveal_strlit("Boolean");
    let cs = seq![':', '#', '/'];
    assert(cs.contains(':')) by {
        assert(cs[0] == ':');
    }
    let word = match vt {
        ValueType::Integer => "Integer"@,
        ValueType::Boolean => "Boolean"@,
        _ => "Real"@,
    };
    assert forall|i: int| 0 <= i < word.len() implies !cs.contains(#[trigger] word[i]) by {
        if cs.contains(word[i]) {
            let k = choose|k: int| 0 <= k < cs.len() && cs[k] == word[i];
            assert(cs[k] == ':' || cs[k] == '#' || cs[k] == '/');
        }
    }
    lemma_after_separator("S231"@, ':', word, cs);
    assert(datatype_v(vt) =~= "S231"@ + seq![':'] + word);
}

} // verus!
