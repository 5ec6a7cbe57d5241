//! An accepted export never repeats an `@id`: every node the document carries was claimed once
//! while planning, and a repeated claim is a rejection.
use vstd::prelude::*;
use crate::composite::Finding;
use crate::export::{
    binding_v, block_step_v, blocks_v, boundary_index, bouts_v, datatype_v, ext_step, ext_target, externals_v,
    owner_subject_v, pt_output, BoundaryV, ExtS, block_is, block_node_is, block_nodes_is, block_nodes_len, boundaries_view,
    boundary_node_is, bout_node_is, bouts_view, graph_is, param_node_is, params_some, params_view, plan_findings, plan_is,
    doc_is, documented, port_is, port_node_is, root_node_is, stage_blocks, stage_bouts, stage_edges, stage_externals, Plan, PlannedBlock, claim_v, claimable, emitted_connectors, export_root_iri, initial_plan, minted_v,
    orphan_findings, owner_reserved, params_v, plan_subject, ports_v, BindingV, BlockV, PlanS,
};
use crate::export_pass_through::pass_through_type;
use crate::composite_orientation::node_ids;
use crate::diag::Diagnostic;
use crate::dto::{CxfDocument, CxfValue, Node};
use crate::export_defer::deferral_order;
use crate::model::{ConnectorId, Dir, ModelGraph, Value};

verus! {

/// The present values of `pi`, in index order.
pub open spec fn somes(pi: Seq<Option<Seq<char>>>) -> Seq<Seq<char>>
    decreases pi.len(),
{
    if pi.len() == 0 {
        seq![]
    } else {
        somes(pi.drop_last()) + match pi.last() {
            Some(x) => seq![x],
            None => seq![],
        }
    }
}

/// Filling an empty slot adds its value to the present values.
proof fn lemma_somes_fill(pi: Seq<Option<Seq<char>>>, idx: int, m: Seq<char>)
    requires
        0 <= idx < pi.len(),
        pi[idx] is None,
    ensures
        somes(pi.update(idx, Some(m))).to_multiset() == somes(pi).to_multiset().insert(m),
    decreases pi.len(),
{
    broadcast use vstd::seq_lib::group_to_multiset_ensures;

    let q = pi.update(idx, Some(m));
    if idx == pi.len() - 1 {
        assert(q.drop_last() =~= pi.drop_last());
        assert(somes(q) =~= somes(pi.drop_last()).push(m));
        assert(somes(pi) =~= somes(pi.drop_last()));
    } else {
        lemma_somes_fill(pi.drop_last(), idx, m);
        assert(q.drop_last() =~= pi.drop_last().update(idx, Some(m)));
        match pi.last() {
            Some(x) => {
                assert(somes(q) =~= somes(q.drop_last()).push(x));
                assert(somes(pi) =~= somes(pi.drop_last()).push(x));
                assert(somes(q.drop_last()).push(x).to_multiset() =~= somes(q.drop_last()).to_multiset().insert(x));
                assert(somes(pi.drop_last()).push(x).to_multiset() =~= somes(pi.drop_last()).to_multiset().insert(x));
            },
            None => {
                assert(somes(q) =~= somes(q.drop_last()));
                assert(somes(pi) =~= somes(pi.drop_last()));
            },
        }
    }
}

/// A claim that raises nothing records its `@id`.
proof fn lemma_claim_fresh(seen: Seq<Seq<char>>, id: Seq<char>, subject: Seq<char>)
    ensures
        claim_v(seen, id, subject).1.len() == 0 ==> claim_v(seen, id, subject).0 == seen.push(id),
        claim_v(seen, id, subject).0.no_duplicates() <== seen.no_duplicates(),
{
    if !seen.contains(id) && seen.no_duplicates() {
        assert forall|i: int, j: int| 0 <= i < j < seen.push(id).len() implies seen.push(id)[i] != seen.push(id)[j] by {
            if j == seen.len() {
                assert(seen[i] == seen.push(id)[i]);
            }
        }
    }
}

/// Planning parameters that raises nothing records each parameter node `@id` in order.
pub proof fn lemma_params_log(seen: Seq<Seq<char>>, ps: Seq<(String, Value)>, k: nat, subject: Seq<char>)
    requires
        params_v(seen, ps, k, subject).2.len() == 0,
    ensures
        params_v(seen, ps, k, subject).0 == seen + params_v(seen, ps, k, subject).1.map_values(
            |x: (Seq<char>, BindingV)| x.0,
        ),
        seen.no_duplicates() ==> params_v(seen, ps, k, subject).0.no_duplicates(),
    decreases k,
{
    if k == 0 || k > ps.len() {
        assert(seen + seq![] =~= seen);
    } else {
        let (s1, out, f) = params_v(seen, ps, (k - 1) as nat, subject);
        let name = ps[k - 1].0@;
        if name.len() == 0 || name.contains('.') {
        } else {
            match binding_v(name, ps[k - 1].1) {
                Err(m) => {},
                Ok(b) => {
                    let pid = subject + "."@ + name;
                    let (s2, f2) = claim_v(s1, pid, subject);
                    lemma_params_log(seen, ps, (k - 1) as nat, subject);
                    lemma_claim_fresh(s1, pid, subject);
                    assert(out.push((pid, b)).map_values(|x: (Seq<char>, BindingV)| x.0) =~= out.map_values(
                        |x: (Seq<char>, BindingV)| x.0,
                    ).push(pid));
                },
            }
        }
    }
}

/// Planning ports that raises nothing records each port `@id` in order, and fills each port's
/// empty slot with it, for connectors owned by the block.
pub proof fn lemma_ports_log(
    g: ModelGraph,
    seen: Seq<Seq<char>>,
    pi: Seq<Option<Seq<char>>>,
    bi: int,
    subject: Seq<char>,
    ids: Seq<ConnectorId>,
    k: nat,
    dir: Dir,
)
    requires
        pi.len() == g.connectors@.len(),
        ports_v(g, seen, pi, bi, subject, ids, k, dir).3.len() == 0,
    ensures
        ({
            let r = ports_v(g, seen, pi, bi, subject, ids, k, dir);
            &&& r.0 == seen + r.2
            &&& r.1.len() == pi.len()
            &&& somes(r.1).to_multiset() == somes(pi).to_multiset().add(r.2.to_multiset())
            &&& forall|i: int| 0 <= i < pi.len() && (#[trigger] r.1[i]) is Some ==> pi[i] is Some || g.connectors@[i].block.0
                as int == bi
            &&& forall|i: int| 0 <= i < pi.len() && pi[i] is Some ==> #[trigger] r.1[i] == pi[i]
            &&& seen.no_duplicates() ==> r.0.no_duplicates()
        }),
    decreases k,
{
    broadcast use vstd::seq_lib::group_to_multiset_ensures;

    if k == 0 || k > ids.len() {
        assert(seen + seq![] =~= seen);
        assert(somes(pi).to_multiset().add(Seq::<Seq<char>>::empty().to_multiset()) =~= somes(pi).to_multiset());
    } else {
        let (s1, p1, out, f) = ports_v(g, seen, pi, bi, subject, ids, (k - 1) as nat, dir);
        let cid = ids[k - 1];
        let minted = minted_v(g, subject, cid, k - 1, dir);
        if claimable(g, p1, bi, cid.0 as int, dir) {
            lemma_ports_log(g, seen, pi, bi, subject, ids, (k - 1) as nat, dir);
            lemma_claim_fresh(s1, minted, subject);
            lemma_somes_fill(p1, cid.0 as int, minted);
            assert(out.push(minted).to_multiset() =~= out.to_multiset().insert(minted));
            assert(somes(pi).to_multiset().add(out.to_multiset()).insert(minted) =~= somes(pi).to_multiset().add(
                out.to_multiset().insert(minted),
            ));
            assert(seen + out.push(minted) =~= (seen + out).push(minted));
        }
    }
}


/// The `@id`s a planned block claims: its own, its parameters', its ports'.
pub open spec fn block_log(v: BlockV) -> Seq<Seq<char>> {
    seq![v.iri] + v.params.map_values(|x: (Seq<char>, BindingV)| x.0) + v.input_ports + v.output_ports
}

/// The `@id`s the planned blocks claim, in order.
pub open spec fn blocks_log(bs: Seq<BlockV>) -> Seq<Seq<char>>
    decreases bs.len(),
{
    if bs.len() == 0 {
        seq![]
    } else {
        blocks_log(bs.drop_last()) + block_log(bs.last())
    }
}

/// The port `@id`s of the planned blocks, in order.
pub open spec fn ports_log(bs: Seq<BlockV>) -> Seq<Seq<char>>
    decreases bs.len(),
{
    if bs.len() == 0 {
        seq![]
    } else {
        ports_log(bs.drop_last()) + bs.last().input_ports + bs.last().output_ports
    }
}

/// The block and parameter node `@id`s of the planned blocks, in document order.
pub open spec fn section_ids(bs: Seq<BlockV>) -> Seq<Seq<char>>
    decreases bs.len(),
{
    if bs.len() == 0 {
        seq![]
    } else {
        section_ids(bs.drop_last()) + seq![bs.last().iri] + bs.last().params.map_values(|x: (Seq<char>, BindingV)| x.0)
    }
}

/// Connector `i` belongs to a surviving, ordinary block.
pub open spec fn emitted_pred(g: ModelGraph, deferred: Seq<usize>, i: int) -> bool {
    !deferred.contains(g.connectors@[i].block.0 as usize) && !owner_reserved(g, g.connectors@[i])
}

/// What planning the first blocks keeps, when it raises nothing.
pub open spec fn blocks_inv(g: ModelGraph, deferred: Seq<usize>, s: PlanS) -> bool {
    &&& s.seen == seq![export_root_iri()] + blocks_log(s.blocks)
    &&& s.seen.no_duplicates()
    &&& s.port_iri.len() == g.connectors@.len()
    &&& somes(s.port_iri).to_multiset() == ports_log(s.blocks).to_multiset()
    &&& forall|i: int| 0 <= i < s.port_iri.len() && (#[trigger] s.port_iri[i]) is Some ==> emitted_pred(g, deferred, i)
}

proof fn lemma_somes_none(n: nat)
    ensures
        somes(Seq::new(n, |i: int| None::<Seq<char>>)) == Seq::<Seq<char>>::empty(),
    decreases n,
{
    if n > 0 {
        assert(Seq::new(n, |i: int| None::<Seq<char>>).drop_last() =~= Seq::new((n - 1) as nat, |i: int| None::<Seq<char>>));
        lemma_somes_none((n - 1) as nat);
    }
}

/// Planning the blocks that raises nothing keeps [`blocks_inv`].
pub proof fn lemma_blocks_log(g: ModelGraph, deferred: Seq<usize>, k: nat)
    requires
        blocks_v(g, deferred, k).1.len() == 0,
    ensures
        blocks_inv(g, deferred, blocks_v(g, deferred, k).0),
    decreases k,
{
    broadcast use vstd::seq_lib::group_to_multiset_ensures;

    if k == 0 || k > g.blocks@.len() {
        let s = initial_plan(g);
        lemma_somes_none(g.connectors@.len());
        assert(s.seen =~= seq![export_root_iri()] + blocks_log(s.blocks));
        assert(ports_log(s.blocks) =~= Seq::<Seq<char>>::empty());
    } else {
        let (s, f) = blocks_v(g, deferred, (k - 1) as nat);
        let (s2, f2) = block_step_v(g, deferred, s, k - 1);
        assert(f + f2 == blocks_v(g, deferred, k).1);
        lemma_blocks_log(g, deferred, (k - 1) as nat);
        lemma_block_step_log(g, deferred, s, k - 1);
    }
}

proof fn lemma_block_step_log(g: ModelGraph, deferred: Seq<usize>, s: PlanS, bi: int)
    requires
        0 <= bi < g.blocks@.len(),
        blocks_inv(g, deferred, s),
        block_step_v(g, deferred, s, bi).1.len() == 0,
    ensures
        blocks_inv(g, deferred, block_step_v(g, deferred, s, bi).0),
{
    broadcast use vstd::seq_lib::group_to_multiset_ensures;

    let b = g.blocks@[bi];
    if deferred.contains(bi as usize) || pass_through_type(b.class_iri@) is Some {
    } else {
        let subject = plan_subject(b, bi);
        let (seen1, f1) = claim_v(s.seen, subject, subject);
        let (seen3, params, f3) = params_v(seen1, b.params.values@, b.params.values@.len(), subject);
        let (seen4, pi4, ins, f4) = ports_v(g, seen3, s.port_iri, bi, subject, b.inputs@, b.inputs@.len(), Dir::In);
        let (seen5, pi5, outs, f5) = ports_v(g, seen4, pi4, bi, subject, b.outputs@, b.outputs@.len(), Dir::Out);
        let r = block_step_v(g, deferred, s, bi);
        let v = r.0.blocks.last();
        assert(r.0.blocks == s.blocks.push(v));
        lemma_claim_fresh(s.seen, subject, subject);
        lemma_params_log(seen1, b.params.values@, b.params.values@.len(), subject);
        lemma_ports_log(g, seen3, s.port_iri, bi, subject, b.inputs@, b.inputs@.len(), Dir::In);
        lemma_ports_log(g, seen4, pi4, bi, subject, b.outputs@, b.outputs@.len(), Dir::Out);
        assert(r.0.blocks.drop_last() =~= s.blocks);
        let pids = params.map_values(|x: (Seq<char>, BindingV)| x.0);
        assert(seen5 =~= s.seen + block_log(v));
        assert(blocks_log(r.0.blocks) =~= blocks_log(s.blocks) + block_log(v));
        assert(r.0.seen =~= seq![export_root_iri()] + blocks_log(r.0.blocks));
        assert(ports_log(r.0.blocks) =~= ports_log(s.blocks) + ins + outs);
        assert((ports_log(s.blocks) + ins + outs).to_multiset() =~= ports_log(s.blocks).to_multiset().add(ins.to_multiset()).add(
            outs.to_multiset(),
        )) by {
            vstd::seq_lib::lemma_multiset_commutative(ports_log(s.blocks) + ins, outs);
            vstd::seq_lib::lemma_multiset_commutative(ports_log(s.blocks), ins);
        }
        assert forall|i: int| 0 <= i < pi5.len() && (#[trigger] pi5[i]) is Some implies emitted_pred(g, deferred, i) by {
            if s.port_iri[i] is None {
                assert(g.connectors@[i].block.0 as int == bi);
            }
        }
    }
}


/// Without orphan rejections, every connector of a surviving, ordinary block among the first
/// `k` has its port `@id`.
proof fn lemma_no_orphans(g: ModelGraph, deferred: Seq<usize>, pi: Seq<Option<Seq<char>>>, k: nat)
    requires
        k <= g.connectors@.len(),
        pi.len() == g.connectors@.len(),
        orphan_findings(g, deferred, pi, k).len() == 0,
    ensures
        forall|i: int| 0 <= i < k && emitted_pred(g, deferred, i) ==> (#[trigger] pi[i]) is Some,
    decreases k,
{
    if k > 0 {
        lemma_no_orphans(g, deferred, pi, (k - 1) as nat);
    }
}

/// When exactly the connectors of surviving, ordinary blocks carry a port `@id`, the port
/// `@id`s in connector order are the present values.
proof fn lemma_emitted_somes(g: ModelGraph, deferred: Seq<usize>, pi: Seq<Option<Seq<char>>>, k: nat)
    requires
        k <= g.connectors@.len(),
        pi.len() == g.connectors@.len(),
        forall|i: int| 0 <= i < pi.len() ==> ((#[trigger] pi[i]) is Some <==> emitted_pred(g, deferred, i)),
    ensures
        emitted_connectors(g, deferred, k).map_values(|i: int| pi[i]->0) == somes(pi.take(k as int)),
    decreases k,
{
    if k == 0 {
        assert(pi.take(0) =~= Seq::<Option<Seq<char>>>::empty());
        assert(emitted_connectors(g, deferred, k).map_values(|i: int| pi[i]->0) =~= somes(pi.take(k as int)));
    } else {
        lemma_emitted_somes(g, deferred, pi, (k - 1) as nat);
        assert(pi.take(k as int).drop_last() =~= pi.take(k - 1));
        assert(pi.take(k as int).last() == pi[k - 1]);
        let e0 = emitted_connectors(g, deferred, (k - 1) as nat);
        if emitted_pred(g, deferred, k - 1) {
            assert(emitted_connectors(g, deferred, k) == e0 + seq![k - 1]);
            assert(emitted_connectors(g, deferred, k).map_values(|i: int| pi[i]->0) =~= e0.map_values(|i: int| pi[i]->0)
                + seq![pi[k - 1]->0]);
        } else {
            assert(emitted_connectors(g, deferred, k) =~= e0);
        }
    }
}


/// The `@id`s of boundary entries.
pub open spec fn firsts(o: Seq<(Seq<char>, Seq<char>)>) -> Seq<Seq<char>> {
    o.map_values(|x: (Seq<char>, Seq<char>)| x.0)
}

/// Planning the root boundary outputs that raises nothing records each emitted output's `@id`
/// in order.
proof fn lemma_bouts_log(
    g: ModelGraph,
    deferred: Seq<usize>,
    pi: Seq<Option<Seq<char>>>,
    seen: Seq<Seq<char>>,
    targets: Seq<Seq<Seq<char>>>,
    k: nat,
)
    requires
        bouts_v(g, deferred, pi, seen, targets, k).3.len() == 0,
    ensures
        bouts_v(g, deferred, pi, seen, targets, k).0 == seen + firsts(bouts_v(g, deferred, pi, seen, targets, k).2),
        seen.no_duplicates() ==> bouts_v(g, deferred, pi, seen, targets, k).0.no_duplicates(),
    decreases k,
{
    if k == 0 || k > g.boundary_outputs@.len() {
        assert(seen + firsts(seq![]) =~= seen);
    } else {
        let (s1, t1, outs, fs) = bouts_v(g, deferred, pi, seen, targets, (k - 1) as nat);
        let output = g.boundary_outputs@[k - 1];
        let idx = output.source.0 as int;
        if idx < g.connectors@.len() {
            let source = g.connectors@[idx];
            if source.dir == Dir::Out && !(deferred.contains(source.block.0 as usize) || pi[idx] is None) {
                let subject = owner_subject_v(g, source, idx);
                let (s2, f2) = claim_v(s1, output.iri@, subject);
                assert(fs + f2 == bouts_v(g, deferred, pi, seen, targets, k).3);
                lemma_bouts_log(g, deferred, pi, seen, targets, (k - 1) as nat);
                lemma_claim_fresh(s1, output.iri@, subject);
                let d = datatype_v(source.value_type);
                assert(firsts(outs.push((output.iri@, d))) =~= firsts(outs).push(output.iri@));
                assert(seen + firsts(outs).push(output.iri@) =~= (seen + firsts(outs)).push(output.iri@));
            } else if source.dir == Dir::Out {
                lemma_bouts_log(g, deferred, pi, seen, targets, (k - 1) as nat);
            }
        }
    }
}


/// The `@id`s of planned boundary inputs.
pub open spec fn boundary_ids(bs: Seq<BoundaryV>) -> Seq<Seq<char>> {
    bs.map_values(|b: BoundaryV| b.iri)
}

/// What planning the boundary inputs from `st0` keeps in `st`: the boundary outputs planned
/// before stay first, and the claim log grew by exactly the `@id`s of the boundary outputs and
/// boundary inputs it added, none twice.
pub open spec fn ext_log(st0: ExtS, st: ExtS) -> bool {
    let n0 = st0.bouts.len() as int;
    &&& st.bouts.len() >= n0
    &&& st.bouts.take(n0) == st0.bouts
    &&& st.seen.to_multiset() == st0.seen.to_multiset().add(firsts(st.bouts.skip(n0)).to_multiset()).add(
        boundary_ids(st.boundaries).to_multiset(),
    )
    &&& st.seen.no_duplicates()
}

/// Claiming the `@id` of one more boundary output keeps [`ext_log`].
proof fn lemma_ext_claim_bout(st0: ExtS, st: ExtS, o: Seq<char>, dt: Seq<char>, subject: Seq<char>)
    requires
        ext_log(st0, st),
        claim_v(st.seen, o, subject).1.len() == 0,
    ensures
        ext_log(st0, ExtS { seen: claim_v(st.seen, o, subject).0, bouts: st.bouts.push((o, dt)), ..st }),
{
    broadcast use vstd::seq_lib::group_to_multiset_ensures;
    broadcast use vstd::multiset::group_multiset_axioms;

    lemma_claim_fresh(st.seen, o, subject);
    let n0 = st0.bouts.len() as int;
    let nb = st.bouts.push((o, dt));
    assert(nb.take(n0) =~= st.bouts.take(n0));
    assert(firsts(nb.skip(n0)) =~= firsts(st.bouts.skip(n0)).push(o));
    let a = st0.seen.to_multiset();
    let b = firsts(st.bouts.skip(n0)).to_multiset();
    let c = boundary_ids(st.boundaries).to_multiset();
    assert(a.add(b.insert(o)).add(c) =~= a.add(b).add(c).insert(o));
}

/// Claiming the `@id` of one more boundary input keeps [`ext_log`].
proof fn lemma_ext_claim_boundary(st0: ExtS, st: ExtS, bv: BoundaryV, subject: Seq<char>)
    requires
        ext_log(st0, st),
        claim_v(st.seen, bv.iri, subject).1.len() == 0,
    ensures
        ext_log(
            st0,
            ExtS { seen: claim_v(st.seen, bv.iri, subject).0, boundaries: st.boundaries.push(bv), ..st },
        ),
{
    broadcast use vstd::seq_lib::group_to_multiset_ensures;
    broadcast use vstd::multiset::group_multiset_axioms;

    lemma_claim_fresh(st.seen, bv.iri, subject);
    let n0 = st0.bouts.len() as int;
    assert(boundary_ids(st.boundaries.push(bv)) =~= boundary_ids(st.boundaries).push(bv.iri));
    let a = st0.seen.to_multiset();
    let b = firsts(st.bouts.skip(n0)).to_multiset();
    let c = boundary_ids(st.boundaries).to_multiset();
    assert(a.add(b).add(c.insert(bv.iri)) =~= a.add(b).add(c).insert(bv.iri));
}

/// One boundary-input entry planned without a rejection keeps [`ext_log`].
proof fn lemma_ext_step_log(g: ModelGraph, deferred: Seq<usize>, pi: Seq<Option<Seq<char>>>, st0: ExtS, st: ExtS, cid: ConnectorId)
    requires
        ext_log(st0, st),
        ext_step(g, deferred, pi, st, cid).1.len() == 0,
    ensures
        ext_log(st0, ext_step(g, deferred, pi, st, cid).0),
{
    let idx = cid.0 as int;
    if idx < g.connectors@.len() {
        let c = g.connectors@[idx];
        let subject = owner_subject_v(g, c, idx);
        if !deferred.contains(c.block.0 as usize) && !st.listed.contains(cid.0 as usize) {
            let st1 = ExtS { listed: st.listed.push(cid.0 as usize), ..st };
            assert(ext_log(st0, st1));
            if c.dir == Dir::In {
                match c.iri {
                    None => {},
                    Some(b) => {
                        let dt = datatype_v(c.value_type);
                        let (st2, target, f2) = ext_target(g, pi, st1, c, cid, subject);
                        match pt_output(g, c, cid) {
                            Some(oid) => {
                                let oi = oid.0 as int;
                                if oi < g.connectors@.len() {
                                    let output = g.connectors@[oi];
                                    if !(output.dir != Dir::Out || output.block != c.block || datatype_v(output.value_type) != dt) {
                                        match output.iri {
                                            None => {},
                                            Some(o) => {
                                                let (seen2, fc) = claim_v(st1.seen, o@, subject);
                                                if target is Some {
                                                    assert(fc.len() == 0) by {
                                                        let r = ext_step(g, deferred, pi, st, cid);
                                                        assert(f2 == fc);
                                                        assert(r.1.len() >= f2.len());
                                                    }
                                                    lemma_ext_claim_bout(st0, st1, o@, dt, subject);
                                                }
                                            },
                                        }
                                    }
                                }
                            },
                            None => {},
                        }
                        match target {
                            None => {},
                            Some(t) => {
                                assert(ext_log(st0, st2));
                                let j = boundary_index(st2.boundaries, b@);
                                if j >= 0 {
                                    if st2.boundaries[j].datatype == dt {
                                        let pb = st2.boundaries[j];
                                        let nb = st2.boundaries.update(j, BoundaryV { targets: pb.targets.push(t), ..pb });
                                        lemma_boundary_index_range(st2.boundaries, b@);
                                        assert(boundary_ids(nb) =~= boundary_ids(st2.boundaries));
                                    }
                                } else {
                                    let bv = BoundaryV { iri: b@, datatype: dt, targets: seq![t] };
                                    let (seen3, fc) = claim_v(st2.seen, b@, subject);
                                    assert(fc.len() == 0) by {
                                        let r = ext_step(g, deferred, pi, st, cid);
                                        assert(r.1 == f2 + fc);
                                    }
                                    lemma_ext_claim_boundary(st0, st2, bv, subject);
                                }
                            },
                        }
                    },
                }
            }
        }
    }
}

/// A found boundary position is in range.
proof fn lemma_boundary_index_range(bs: Seq<BoundaryV>, iri: Seq<char>)
    ensures
        -1 <= boundary_index(bs, iri) < bs.len(),
    decreases bs.len(),
{
    if bs.len() > 0 {
        lemma_boundary_index_range(bs.drop_last(), iri);
    }
}

/// Planning the first `k` boundary-input entries without a rejection keeps [`ext_log`].
proof fn lemma_externals_log(g: ModelGraph, deferred: Seq<usize>, pi: Seq<Option<Seq<char>>>, st0: ExtS, k: nat)
    requires
        ext_log(st0, st0),
        externals_v(g, deferred, pi, st0, k).1.len() == 0,
    ensures
        ext_log(st0, externals_v(g, deferred, pi, st0, k).0),
    decreases k,
{
    if k > 0 && k <= g.external_inputs@.len() {
        let (s1, f1) = externals_v(g, deferred, pi, st0, (k - 1) as nat);
        let (s2, f2) = ext_step(g, deferred, pi, s1, g.external_inputs@[k - 1]);
        assert(f1 + f2 == externals_v(g, deferred, pi, st0, k).1);
        lemma_externals_log(g, deferred, pi, st0, (k - 1) as nat);
        lemma_ext_step_log(g, deferred, pi, st0, s1, g.external_inputs@[k - 1]);
    }
}


/// The block and parameter node `@id`s of planned blocks, in document order.
pub open spec fn planned_section_ids(blocks: Seq<PlannedBlock>) -> Seq<Seq<char>>
    decreases blocks.len(),
{
    if blocks.len() == 0 {
        seq![]
    } else {
        planned_section_ids(blocks.drop_last()) + seq![blocks.last().iri@] + blocks.last().params@.map_values(
            |x: (String, CxfValue)| x.0@,
        )
    }
}

/// The `@id`s of block nodes each followed by its parameter nodes.
proof fn lemma_block_node_ids(nodes: Seq<Node>, blocks: Seq<PlannedBlock>)
    requires
        block_nodes_is(nodes, blocks),
    ensures
        node_ids(nodes) == planned_section_ids(blocks),
    decreases blocks.len(),
{
    if blocks.len() == 0 {
        assert(node_ids(nodes) =~= seq![]);
    } else {
        let b = blocks.last();
        let m = nodes.len() - 1 - b.params@.len();
        lemma_block_node_ids(nodes.take(m), blocks.drop_last());
        let ps = b.params@.map_values(|x: (String, CxfValue)| x.0@);
        assert forall|k: int| 0 <= k < b.params@.len() implies node_ids(nodes)[m + 1 + k] == #[trigger] ps[k] by {
            assert(param_node_is(nodes[m + 1 + k], b.params@[k].0@, b.params@[k].1));
        }
        assert(node_ids(nodes) =~= node_ids(nodes.take(m)) + seq![b.iri@] + ps);
    }
}

/// Planned blocks that are the block views have the views' section `@id`s.
proof fn lemma_planned_sections(blocks: Seq<PlannedBlock>, bs: Seq<BlockV>)
    requires
        blocks.len() == bs.len(),
        forall|j: int| 0 <= j < bs.len() ==> block_is(#[trigger] blocks[j], bs[j]),
    ensures
        planned_section_ids(blocks) == section_ids(bs),
    decreases bs.len(),
{
    if bs.len() > 0 {
        let n = bs.len() - 1;
        assert forall|j: int| 0 <= j < n implies block_is(#[trigger] blocks.drop_last()[j], bs.drop_last()[j]) by {
            assert(block_is(blocks[j], bs[j]));
        }
        lemma_planned_sections(blocks.drop_last(), bs.drop_last());
        let b = blocks.last();
        let v = bs.last();
        assert(block_is(blocks[n], bs[n]));
        let l = b.params@.map_values(|x: (String, CxfValue)| x.0@);
        let r = v.params.map_values(|x: (Seq<char>, BindingV)| x.0);
        assert(params_view(b.params@).len() == params_some(v.params).len());
        assert forall|k: int| 0 <= k < l.len() implies l[k] == r[k] by {
            assert(params_view(b.params@)[k] == params_some(v.params)[k]);
        }
        assert(l =~= r);
    }
}

/// What the blocks claim is their sections and their ports.
proof fn lemma_blocks_log_split(bs: Seq<BlockV>)
    ensures
        blocks_log(bs).to_multiset() == section_ids(bs).to_multiset().add(ports_log(bs).to_multiset()),
    decreases bs.len(),
{
    broadcast use vstd::multiset::group_multiset_axioms;
    broadcast use vstd::seq_lib::group_to_multiset_ensures;

    if bs.len() == 0 {
        assert(blocks_log(bs) =~= Seq::<Seq<char>>::empty());
        assert(section_ids(bs) =~= Seq::<Seq<char>>::empty());
        assert(ports_log(bs) =~= Seq::<Seq<char>>::empty());
        assert(Seq::<Seq<char>>::empty().to_multiset().len() == 0);
        assert(Seq::<Seq<char>>::empty().to_multiset() =~= vstd::multiset::Multiset::empty());
        assert(blocks_log(bs).to_multiset() =~= section_ids(bs).to_multiset().add(ports_log(bs).to_multiset()));
    } else {
        let p = bs.drop_last();
        let v = bs.last();
        lemma_blocks_log_split(p);
        let head = seq![v.iri] + v.params.map_values(|x: (Seq<char>, BindingV)| x.0);
        assert(block_log(v) =~= head + (v.input_ports + v.output_ports));
        assert(section_ids(bs) =~= section_ids(p) + head);
        assert(ports_log(bs) =~= ports_log(p) + (v.input_ports + v.output_ports));
        vstd::seq_lib::lemma_multiset_commutative(blocks_log(p), block_log(v));
        vstd::seq_lib::lemma_multiset_commutative(head, v.input_ports + v.output_ports);
        vstd::seq_lib::lemma_multiset_commutative(section_ids(p), head);
        vstd::seq_lib::lemma_multiset_commutative(ports_log(p), v.input_ports + v.output_ports);
        assert(blocks_log(bs) == blocks_log(p) + block_log(v));
        let a1 = section_ids(p).to_multiset();
        let a2 = ports_log(p).to_multiset();
        let a3 = head.to_multiset();
        let a4 = (v.input_ports + v.output_ports).to_multiset();
        assert(blocks_log(bs).to_multiset() == a1.add(a2).add(a3.add(a4)));
        assert(section_ids(bs).to_multiset() == a1.add(a3));
        assert(ports_log(bs).to_multiset() == a2.add(a4));
        assert(a1.add(a2).add(a3.add(a4)) =~= a1.add(a3).add(a2.add(a4)));
    }
}

/// An accepted export never repeats an `@id`: when planning a graph under `deferred` raises
/// nothing, the nodes of the document of its plan carry pairwise distinct `@id`s.
pub proof fn lemma_export_ids_distinct(g: ModelGraph, deferred: Seq<usize>, p: Plan, graph: Seq<Node>)
    requires
        plan_findings(g, deferred).len() == 0,
        plan_is(g, deferred, p),
        graph_is(graph, p),
    ensures
        node_ids(graph).no_duplicates(),
{
    broadcast use vstd::seq_lib::group_to_multiset_ensures;
    broadcast use vstd::multiset::group_multiset_axioms;

    let b = stage_blocks(g, deferred);
    let e = stage_edges(g, deferred);
    let o = stage_bouts(g, deferred);
    let x = stage_externals(g, deferred);
    let pi = b.0.port_iri;
    let nc = g.connectors@.len();
    // every stage raised nothing
    assert(b.1.len() == 0);
    assert(orphan_findings(g, deferred, pi, nc).len() == 0);
    assert(o.3.len() == 0);
    assert(x.1.len() == 0);
    // the block stage
    lemma_blocks_log(g, deferred, g.blocks@.len());
    let bs = b.0.blocks;
    lemma_no_orphans(g, deferred, pi, nc);
    lemma_emitted_somes(g, deferred, pi, nc);
    assert(pi.take(nc as int) =~= pi);
    let en = emitted_connectors(g, deferred, nc);
    // the boundary stages
    lemma_bouts_log(g, deferred, pi, b.0.seen, e.0.targets, g.boundary_outputs@.len());
    let st0 = ExtS { seen: o.0, bouts: o.2, boundaries: seq![], listed: seq![] };
    assert(st0.bouts.take(st0.bouts.len() as int) =~= st0.bouts);
    assert(firsts(st0.bouts.skip(st0.bouts.len() as int)) =~= seq![]);
    assert(boundary_ids(st0.boundaries) =~= seq![]);
    assert(st0.seen.to_multiset() =~= st0.seen.to_multiset().add(firsts(st0.bouts.skip(st0.bouts.len() as int)).to_multiset()).add(
        boundary_ids(st0.boundaries).to_multiset(),
    ));
    lemma_externals_log(g, deferred, pi, st0, g.external_inputs@.len());
    let n0 = o.2.len() as int;
    let tail = firsts(x.0.bouts.skip(n0));
    assert(firsts(x.0.bouts) =~= firsts(o.2) + tail) by {
        assert(x.0.bouts =~= x.0.bouts.take(n0) + x.0.bouts.skip(n0));
    }
    // the document's @ids, section by section
    let nb = block_nodes_len(p.blocks@) as int;
    let np = p.ports@.len() as int;
    let nx = p.boundaries@.len() as int;
    let no = p.boundary_outputs@.len() as int;
    lemma_block_node_ids(graph.subrange(1, 1 + nb), p.blocks@);
    lemma_planned_sections(p.blocks@, bs);
    let sec = section_ids(bs);
    let ports = en.map_values(|i: int| pi[i]->0);
    assert forall|j: int| 0 <= j < np implies node_ids(graph)[1 + nb + j] == #[trigger] ports[j] by {
        assert(port_is(g, deferred, pi, o.1, en[j], p.ports@[j]));
        assert(port_node_is(graph[1 + nb + j], p.ports@[j]));
    }
    let bnd = boundary_ids(x.0.boundaries);
    assert(boundaries_view(p.boundaries@) == x.0.boundaries);
    assert forall|j: int| 0 <= j < nx implies node_ids(graph)[1 + nb + np + j] == #[trigger] bnd[j] by {
        assert(boundary_node_is(graph[1 + nb + np + j], p.boundaries@[j]));
        assert(boundaries_view(p.boundaries@)[j].iri == p.boundaries@[j].iri@);
    }
    let outs = firsts(x.0.bouts);
    assert(bouts_view(p.boundary_outputs@) == x.0.bouts);
    assert forall|j: int| 0 <= j < no implies node_ids(graph)[1 + nb + np + nx + j] == #[trigger] outs[j] by {
        assert(bout_node_is(graph[1 + nb + np + nx + j], p.boundary_outputs@[j]));
        assert(bouts_view(p.boundary_outputs@)[j].0 == p.boundary_outputs@[j].iri@);
    }
    let ids = node_ids(graph);
    assert(ids =~= seq![export_root_iri()] + sec + ports + bnd + outs) by {
        assert(root_node_is(graph[0], p));
        assert forall|j: int| 0 <= j < nb implies ids[1 + j] == #[trigger] sec[j] by {
            assert(node_ids(graph.subrange(1, 1 + nb))[j] == ids[1 + j]);
        }
    }
    // the same multiset as the claim log
    let r = seq![export_root_iri()];
    vstd::seq_lib::lemma_multiset_commutative(r + sec + ports + bnd, outs);
    vstd::seq_lib::lemma_multiset_commutative(r + sec + ports, bnd);
    vstd::seq_lib::lemma_multiset_commutative(r + sec, ports);
    vstd::seq_lib::lemma_multiset_commutative(r, sec);
    vstd::seq_lib::lemma_multiset_commutative(r, blocks_log(bs));
    vstd::seq_lib::lemma_multiset_commutative(b.0.seen, firsts(o.2));
    vstd::seq_lib::lemma_multiset_commutative(firsts(o.2), tail);
    lemma_blocks_log_split(bs);
    let seen = x.0.seen;
    assert(ids.to_multiset() =~= seen.to_multiset());
    seen.lemma_multiset_has_no_duplicates();
    ids.lemma_multiset_has_no_duplicates_conv();
}


/// A document the exporter accepts carries pairwise distinct node `@id`s.
pub proof fn lemma_accepted_document_ids_distinct(
    g: ModelGraph,
    w: Seq<Diagnostic>,
    r: Result<(CxfDocument, Vec<Diagnostic>), Vec<Diagnostic>>,
)
    requires
        documented(g, deferral_order(g), w, r),
        r is Ok,
    ensures
        node_ids(r->Ok_0.0.graph@).no_duplicates(),
{
    let o = deferral_order(g);
    let doc = r->Ok_0.0;
    let p = choose|p: Plan| #[trigger] plan_is(g, o, p) && doc_is(doc, p);
    lemma_export_ids_distinct(g, o, p, doc.graph@);
}

} // verus!
