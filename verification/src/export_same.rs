//! The exporter decides its output: the plan of a graph under its deferral, and the document of
//! that plan, are fixed by the graph, so two exports of one graph give the same document.
use vstd::prelude::*;
use crate::composite::refs_match;
use crate::dto::{json_tree, member_trees, Context, CxfDocument, CxfValue, IriRef, JsonTree, JsonValue, Node, OneOrMany};
use crate::export::{
    binding_view, block_is, boundaries_view, bouts_view, classified_ok, opt_view, params_some, params_view,
    plan_is, port_attrs_ok, port_is, stage_blocks, stage_bouts, emitted_connectors, BindingV, BoundaryV, Plan,
    PlannedBlock, PlannedPort, PortAttrs,
};
use crate::model::ModelGraph;
use crate::specialize::names;

verus! {

// ---- views ----

/// A value slot as a specification value.
pub ghost enum ValueV {
    Bool(bool),
    Int(i64),
    Float(u64),
    Typed(Seq<char>, Seq<char>, Seq<(Seq<char>, JsonTree)>),
    Expr(Seq<char>),
}

/// The view of a value.
pub open spec fn value_v(v: CxfValue) -> ValueV {
    match v {
        CxfValue::Bool(b) => ValueV::Bool(b),
        CxfValue::Int(i) => ValueV::Int(i),
        CxfValue::Float(f) => ValueV::Float(f),
        CxfValue::Typed { value, datatype, extra } => ValueV::Typed(
            value@,
            datatype@,
            member_trees(extra@, extra@.len()),
        ),
        CxfValue::Expr(e) => ValueV::Expr(e@),
    }
}

/// The view of an optional value.
pub open spec fn opt_value_v(v: Option<CxfValue>) -> Option<ValueV> {
    match v {
        Some(x) => Some(value_v(x)),
        None => None,
    }
}

/// The view of a node reference: its `@id` and its other keys.
pub open spec fn iri_v(r: IriRef) -> (Seq<char>, Seq<(Seq<char>, JsonTree)>) {
    (r.id@, member_trees(r.other@, r.other@.len()))
}

/// Which shape a one-or-many slot has: absent, one, or many.
pub open spec fn shape<T>(r: OneOrMany<T>) -> int {
    match r {
        OneOrMany::Absent => 0,
        OneOrMany::One(_) => 1,
        OneOrMany::Many(_) => 2,
    }
}

/// The view of a reference slot.
pub open spec fn refs_v(r: OneOrMany<IriRef>) -> (int, Seq<(Seq<char>, Seq<(Seq<char>, JsonTree)>)>) {
    (shape(r), r.items().map_values(|x: IriRef| iri_v(x)))
}

/// The view of an optional string slot.
pub open spec fn strs_v(r: Option<OneOrMany<String>>) -> Option<(int, Seq<Seq<char>>)> {
    match r {
        Some(x) => Some((shape(x), names(x.items()))),
        None => None,
    }
}

/// The view of an optional reference.
pub open spec fn opt_iri_v(r: Option<IriRef>) -> Option<(Seq<char>, Seq<(Seq<char>, JsonTree)>)> {
    match r {
        Some(x) => Some(iri_v(x)),
        None => None,
    }
}

/// A node as a specification value: every slot.
pub ghost struct NodeV {
    pub id: Seq<char>,
    pub types: Option<(int, Seq<Seq<char>>)>,
    pub has_input: (int, Seq<(Seq<char>, Seq<(Seq<char>, JsonTree)>)>),
    pub has_output: (int, Seq<(Seq<char>, Seq<(Seq<char>, JsonTree)>)>),
    pub has_parameter: (int, Seq<(Seq<char>, Seq<(Seq<char>, JsonTree)>)>),
    pub has_constant: (int, Seq<(Seq<char>, Seq<(Seq<char>, JsonTree)>)>),
    pub contains_block: (int, Seq<(Seq<char>, Seq<(Seq<char>, JsonTree)>)>),
    pub has_instance: (int, Seq<(Seq<char>, Seq<(Seq<char>, JsonTree)>)>),
    pub is_connected_to: (int, Seq<(Seq<char>, Seq<(Seq<char>, JsonTree)>)>),
    pub is_of_data_type: Option<(Seq<char>, Seq<(Seq<char>, JsonTree)>)>,
    pub label: Option<(int, Seq<Seq<char>>)>,
    pub access: Option<Seq<char>>,
    pub value: Option<ValueV>,
    pub min: Option<ValueV>,
    pub max: Option<ValueV>,
    pub is_final: Option<bool>,
    pub is_array: Option<bool>,
    pub n_dims: Option<i64>,
    pub size_dims: Option<Seq<char>>,
    pub fmu_path: Option<Seq<char>>,
    pub is_conditional: Option<bool>,
    pub cond_expr: Option<Seq<char>>,
    pub is_replaceable: Option<bool>,
    pub other: Seq<(Seq<char>, JsonTree)>,
}

/// The view of a node.
pub open spec fn node_v(n: Node) -> NodeV {
    NodeV {
        id: n.id@,
        types: strs_v(n.types),
        has_input: refs_v(n.has_input),
        has_output: refs_v(n.has_output),
        has_parameter: refs_v(n.has_parameter),
        has_constant: refs_v(n.has_constant),
        contains_block: refs_v(n.contains_block),
        has_instance: refs_v(n.has_instance),
        is_connected_to: refs_v(n.is_connected_to),
        is_of_data_type: opt_iri_v(n.is_of_data_type),
        label: strs_v(n.label),
        access: opt_view(n.access),
        value: opt_value_v(n.value),
        min: opt_value_v(n.min),
        max: opt_value_v(n.max),
        is_final: n.is_final,
        is_array: n.is_array,
        n_dims: n.n_dims,
        size_dims: opt_view(n.size_dims),
        fmu_path: opt_view(n.fmu_path),
        is_conditional: n.is_conditional,
        cond_expr: opt_view(n.cond_expr),
        is_replaceable: n.is_replaceable,
        other: member_trees(n.other@, n.other@.len()),
    }
}

/// A `@context` as a specification value.
pub ghost enum ContextV {
    PrefixMap(Seq<(Seq<char>, JsonTree)>),
    List(Seq<JsonTree>),
    Iri(Seq<char>),
}

/// A document as a specification value.
pub ghost struct DocV {
    pub context: ContextV,
    pub graph: Seq<NodeV>,
    pub other: Seq<(Seq<char>, JsonTree)>,
}

/// The view of a document.
pub open spec fn doc_view(d: CxfDocument) -> DocV {
    DocV {
        context: match d.context {
            Context::PrefixMap(m) => ContextV::PrefixMap(member_trees(m@, m@.len())),
            Context::List(es) => ContextV::List(crate::dto::item_trees(es@, es@.len())),
            Context::Iri(s) => ContextV::Iri(s@),
        },
        graph: d.graph@.map_values(|n: Node| node_v(n)),
        other: member_trees(d.other@, d.other@.len()),
    }
}

/// Classified port attributes as a specification value.
pub ghost enum AttrsV {
    Real(Option<Seq<char>>, Option<Seq<char>>, Option<Seq<char>>, Option<u64>, Option<u64>),
    Integer(Option<i64>, Option<i64>),
    Empty,
}

/// The view of classified port attributes.
pub open spec fn attrs_v(a: PortAttrs) -> AttrsV {
    match a {
        PortAttrs::Real { unit, quantity, display_unit, min, max } => AttrsV::Real(
            opt_view(unit),
            opt_view(quantity),
            opt_view(display_unit),
            min,
            max,
        ),
        PortAttrs::Integer { min, max } => AttrsV::Integer(min, max),
        PortAttrs::Empty => AttrsV::Empty,
    }
}

/// A planned block as a specification value.
pub open spec fn planned_block_v(b: PlannedBlock) -> (
    Seq<char>,
    Seq<char>,
    Seq<(Seq<char>, ValueV)>,
    Seq<Seq<char>>,
    Seq<Seq<char>>,
) {
    (
        b.iri@,
        b.type_iri@,
        b.params@.map_values(|x: (String, CxfValue)| (x.0@, value_v(x.1))),
        names(b.input_ports@),
        names(b.output_ports@),
    )
}

/// A planned port as a specification value.
pub open spec fn planned_port_v(p: PlannedPort) -> (Seq<char>, Seq<char>, Seq<Seq<char>>, AttrsV) {
    (p.iri@, p.datatype@, names(p.targets@), attrs_v(p.attrs))
}

/// A plan as a specification value.
pub ghost struct PlanV {
    pub blocks: Seq<(Seq<char>, Seq<char>, Seq<(Seq<char>, ValueV)>, Seq<Seq<char>>, Seq<Seq<char>>)>,
    pub ports: Seq<(Seq<char>, Seq<char>, Seq<Seq<char>>, AttrsV)>,
    pub boundaries: Seq<BoundaryV>,
    pub boundary_outputs: Seq<(Seq<char>, Seq<char>)>,
}

/// The view of a plan.
pub open spec fn plan_v(p: Plan) -> PlanV {
    PlanV {
        blocks: p.blocks@.map_values(|b: PlannedBlock| planned_block_v(b)),
        ports: p.ports@.map_values(|x: PlannedPort| planned_port_v(x)),
        boundaries: boundaries_view(p.boundaries@),
        boundary_outputs: bouts_view(p.boundary_outputs@),
    }
}

/// The value a binding of an emitted shape is.
pub open spec fn binding_value(b: BindingV) -> ValueV {
    match b {
        BindingV::Bool(x) => ValueV::Bool(x),
        BindingV::Int(x) => ValueV::Int(x),
        BindingV::Float(x) => ValueV::Float(x),
        BindingV::Expr(x) => ValueV::Expr(x),
    }
}

/// A value of an emitted shape is its binding.
proof fn lemma_binding_value(v: CxfValue)
    requires
        binding_view(v) is Some,
    ensures
        value_v(v) == binding_value(binding_view(v)->0),
{
}

/// Two blocks that are one block view are one planned block.
proof fn lemma_block_same(b1: PlannedBlock, b2: PlannedBlock, v: crate::export::BlockV)
    requires
        block_is(b1, v),
        block_is(b2, v),
    ensures
        planned_block_v(b1) == planned_block_v(b2),
{
    let p1 = b1.params@.map_values(|x: (String, CxfValue)| (x.0@, value_v(x.1)));
    let p2 = b2.params@.map_values(|x: (String, CxfValue)| (x.0@, value_v(x.1)));
    assert(params_view(b1.params@).len() == params_some(v.params).len());
    assert(params_view(b2.params@).len() == params_some(v.params).len());
    assert forall|k: int| 0 <= k < p1.len() implies p1[k] == p2[k] by {
        assert(params_view(b1.params@)[k] == params_some(v.params)[k]);
        assert(params_view(b2.params@)[k] == params_some(v.params)[k]);
        lemma_binding_value(b1.params@[k].1);
        lemma_binding_value(b2.params@[k].1);
    }
    assert(p1 =~= p2);
}

/// The plan of a graph under a deferral is fixed: two plans that are it have one view.
pub proof fn lemma_plan_same(g: ModelGraph, deferred: Seq<usize>, p1: Plan, p2: Plan)
    requires
        plan_is(g, deferred, p1),
        plan_is(g, deferred, p2),
    ensures
        plan_v(p1) == plan_v(p2),
{
    let b = stage_blocks(g, deferred).0;
    let e = emitted_connectors(g, deferred, g.connectors@.len());
    let bl1 = p1.blocks@.map_values(|x: PlannedBlock| planned_block_v(x));
    let bl2 = p2.blocks@.map_values(|x: PlannedBlock| planned_block_v(x));
    assert forall|j: int| 0 <= j < bl1.len() implies bl1[j] == bl2[j] by {
        lemma_block_same(p1.blocks@[j], p2.blocks@[j], b.blocks[j]);
    }
    assert(bl1 =~= bl2);
    let po1 = p1.ports@.map_values(|x: PlannedPort| planned_port_v(x));
    let po2 = p2.ports@.map_values(|x: PlannedPort| planned_port_v(x));
    assert forall|j: int| 0 <= j < po1.len() implies po1[j] == po2[j] by {
        let t = stage_bouts(g, deferred).1;
        assert(port_is(g, deferred, b.port_iri, t, e[j], p1.ports@[j]));
        assert(port_is(g, deferred, b.port_iri, t, e[j], p2.ports@[j]));
    }
    assert(po1 =~= po2);
}


// ---- the document of a plan is fixed ----

proof fn lemma_member_trees_same(o1: Seq<(String, JsonValue)>, o2: Seq<(String, JsonValue)>, k: nat)
    requires
        k <= o1.len(),
        k <= o2.len(),
        forall|i: int| 0 <= i < k ==> (#[trigger] o1[i]).0@ == o2[i].0@ && json_tree(o1[i].1) == json_tree(o2[i].1),
    ensures
        member_trees(o1, k) == member_trees(o2, k),
    decreases k,
{
    if k > 0 {
        lemma_member_trees_same(o1, o2, (k - 1) as nat);
    }
}

proof fn lemma_refs_same(ids: Seq<Seq<char>>, r1: OneOrMany<IriRef>, r2: OneOrMany<IriRef>)
    requires
        refs_match(ids, r1),
        refs_match(ids, r2),
    ensures
        refs_v(r1) == refs_v(r2),
{
    let a = r1.items().map_values(|x: IriRef| iri_v(x));
    let b = r2.items().map_values(|x: IriRef| iri_v(x));
    assert(r1.items().map_values(|x: IriRef| x.id@).len() == r2.items().map_values(|x: IriRef| x.id@).len());
    assert forall|k: int| 0 <= k < a.len() implies a[k] == b[k] by {
        assert(r1.items()[k].other@.len() == 0);
        assert(r2.items()[k].other@.len() == 0);
        assert(r1.items().map_values(|x: IriRef| x.id@)[k] == ids[k]);
        assert(r2.items().map_values(|x: IriRef| x.id@)[k] == ids[k]);
    }
    assert(a =~= b);
}

proof fn lemma_absent_refs(r: OneOrMany<IriRef>)
    requires
        r is Absent,
    ensures
        refs_v(r) == (0int, Seq::<(Seq<char>, Seq<(Seq<char>, JsonTree)>)>::empty()),
{
    assert(r.items().map_values(|x: IriRef| iri_v(x)) =~= Seq::<(Seq<char>, Seq<(Seq<char>, JsonTree)>)>::empty());
}

proof fn lemma_type_same(t1: Option<OneOrMany<String>>, t2: Option<OneOrMany<String>>, ty: Seq<char>)
    requires
        crate::export::type_is(t1, ty),
        crate::export::type_is(t2, ty),
    ensures
        strs_v(t1) == strs_v(t2),
{
    assert(names(t1->0.items()) =~= seq![ty]);
    assert(names(t2->0.items()) =~= seq![ty]);
}

/// Two nodes that are quiet, carry the same `@id`, types, references, data type, value, bounds
/// and other keys are one node.
proof fn lemma_nodes_same(n1: Node, n2: Node)
    requires
        crate::export::quiet(n1),
        crate::export::quiet(n2),
        n1.id@ == n2.id@,
        strs_v(n1.types) == strs_v(n2.types),
        refs_v(n1.has_input) == refs_v(n2.has_input),
        refs_v(n1.has_output) == refs_v(n2.has_output),
        refs_v(n1.has_parameter) == refs_v(n2.has_parameter),
        refs_v(n1.contains_block) == refs_v(n2.contains_block),
        refs_v(n1.is_connected_to) == refs_v(n2.is_connected_to),
        opt_iri_v(n1.is_of_data_type) == opt_iri_v(n2.is_of_data_type),
        opt_value_v(n1.value) == opt_value_v(n2.value),
        opt_value_v(n1.min) == opt_value_v(n2.min),
        opt_value_v(n1.max) == opt_value_v(n2.max),
        member_trees(n1.other@, n1.other@.len()) == member_trees(n2.other@, n2.other@.len()),
    ensures
        node_v(n1) == node_v(n2),
{
    lemma_absent_refs(n1.has_constant);
    lemma_absent_refs(n2.has_constant);
    lemma_absent_refs(n1.has_instance);
    lemma_absent_refs(n2.has_instance);
}

proof fn lemma_term_same(r1: Option<IriRef>, r2: Option<IriRef>, id: Seq<char>)
    requires
        crate::export::term_is(r1, id),
        crate::export::term_is(r2, id),
    ensures
        opt_iri_v(r1) == opt_iri_v(r2),
{
}

proof fn lemma_no_members(n: Node)
    requires
        crate::export::no_members(n),
    ensures
        refs_v(n.has_input) == refs_v(OneOrMany::<IriRef>::Absent),
        refs_v(n.has_output) == refs_v(OneOrMany::<IriRef>::Absent),
        refs_v(n.has_parameter) == refs_v(OneOrMany::<IriRef>::Absent),
        refs_v(n.contains_block) == refs_v(OneOrMany::<IriRef>::Absent),
{
}


proof fn lemma_terms_same(o1: Seq<(String, JsonValue)>, o2: Seq<(String, JsonValue)>, t: Seq<(Seq<char>, Seq<char>)>)
    requires
        crate::export::terms_is(o1, t),
        crate::export::terms_is(o2, t),
    ensures
        member_trees(o1, o1.len()) == member_trees(o2, o2.len()),
{
    assert forall|i: int| 0 <= i < o1.len() implies (#[trigger] o1[i]).0@ == o2[i].0@ && json_tree(o1[i].1) == json_tree(
        o2[i].1,
    ) by {
        assert(o1[i].0@ == t[i].0);
        assert(o2[i].0@ == t[i].0);
    }
    lemma_member_trees_same(o1, o2, o1.len());
}

proof fn lemma_opt_entry_same(k: Seq<char>, a: Option<String>, b: Option<String>)
    requires
        opt_view(a) == opt_view(b),
    ensures
        crate::export::opt_entry(k, a) == crate::export::opt_entry(k, b),
{
}

proof fn lemma_port_node_same(n1: Node, n2: Node, q1: PlannedPort, q2: PlannedPort)
    requires
        crate::export::port_node_is(n1, q1),
        crate::export::port_node_is(n2, q2),
        planned_port_v(q1) == planned_port_v(q2),
    ensures
        node_v(n1) == node_v(n2),
{
    lemma_no_members(n1);
    lemma_no_members(n2);
    lemma_term_same(n1.is_of_data_type, n2.is_of_data_type, q1.datatype@);
    lemma_refs_same(names(q1.targets@), n1.is_connected_to, n2.is_connected_to);
    match (q1.attrs, q2.attrs) {
        (
            PortAttrs::Real { unit: u1, quantity: a1, display_unit: d1, min: m1, max: x1 },
            PortAttrs::Real { unit: u2, quantity: a2, display_unit: d2, min: m2, max: x2 },
        ) => {
            lemma_opt_entry_same("S231:unit"@, u1, u2);
            lemma_opt_entry_same("S231:quantity"@, a1, a2);
            lemma_opt_entry_same("S231:displayUnit"@, d1, d2);
            lemma_terms_same(n1.other@, n2.other@, crate::export::term_entries(u1, a1, d1));
        },
        _ => {},
    }
    lemma_nodes_same(n1, n2);
}

proof fn lemma_boundary_node_same(n1: Node, n2: Node, b1: crate::export::PlannedBoundary, b2: crate::export::PlannedBoundary)
    requires
        crate::export::boundary_node_is(n1, b1),
        crate::export::boundary_node_is(n2, b2),
        b1.iri@ == b2.iri@,
        b1.datatype@ == b2.datatype@,
        names(b1.targets@) == names(b2.targets@),
    ensures
        node_v(n1) == node_v(n2),
{
    lemma_no_members(n1);
    lemma_no_members(n2);
    lemma_term_same(n1.is_of_data_type, n2.is_of_data_type, b1.datatype@);
    lemma_refs_same(names(b1.targets@), n1.is_connected_to, n2.is_connected_to);
    lemma_nodes_same(n1, n2);
}

proof fn lemma_bout_node_same(
    n1: Node,
    n2: Node,
    o1: crate::export::PlannedBoundaryOutput,
    o2: crate::export::PlannedBoundaryOutput,
)
    requires
        crate::export::bout_node_is(n1, o1),
        crate::export::bout_node_is(n2, o2),
        o1.iri@ == o2.iri@,
        o1.datatype@ == o2.datatype@,
    ensures
        node_v(n1) == node_v(n2),
{
    lemma_no_members(n1);
    lemma_no_members(n2);
    lemma_term_same(n1.is_of_data_type, n2.is_of_data_type, o1.datatype@);
    lemma_nodes_same(n1, n2);
}

proof fn lemma_param_node_same(n1: Node, n2: Node, id: Seq<char>, v1: CxfValue, v2: CxfValue)
    requires
        crate::export::param_node_is(n1, id, v1),
        crate::export::param_node_is(n2, id, v2),
        binding_view(v1) is Some,
        binding_view(v1) == binding_view(v2),
    ensures
        node_v(n1) == node_v(n2),
{
    lemma_no_members(n1);
    lemma_no_members(n2);
    lemma_binding_value(n1.value->0);
    lemma_binding_value(n2.value->0);
    lemma_nodes_same(n1, n2);
}

proof fn lemma_block_node_same(n1: Node, n2: Node, b1: PlannedBlock, b2: PlannedBlock)
    requires
        crate::export::block_node_is(n1, b1),
        crate::export::block_node_is(n2, b2),
        planned_block_v(b1) == planned_block_v(b2),
    ensures
        node_v(n1) == node_v(n2),
{
    lemma_type_same(n1.types, n2.types, b1.type_iri@);
    lemma_refs_same(names(b1.input_ports@), n1.has_input, n2.has_input);
    lemma_refs_same(names(b1.output_ports@), n1.has_output, n2.has_output);
    let k1 = b1.params@.map_values(|x: (String, CxfValue)| x.0@);
    let k2 = b2.params@.map_values(|x: (String, CxfValue)| x.0@);
    let pv1 = b1.params@.map_values(|x: (String, CxfValue)| (x.0@, value_v(x.1)));
    let pv2 = b2.params@.map_values(|x: (String, CxfValue)| (x.0@, value_v(x.1)));
    assert(pv1.len() == pv2.len());
    assert forall|k: int| 0 <= k < k1.len() implies k1[k] == k2[k] by {
        assert(pv1[k] == pv2[k]);
    }
    assert(k1 =~= k2);
    lemma_refs_same(k1, n1.has_parameter, n2.has_parameter);
    lemma_absent_refs(n1.contains_block);
    lemma_absent_refs(n2.contains_block);
    lemma_absent_refs(n1.is_connected_to);
    lemma_absent_refs(n2.is_connected_to);
    lemma_nodes_same(n1, n2);
}


proof fn lemma_root_node_same(n1: Node, n2: Node, p1: Plan, p2: Plan)
    requires
        crate::export::root_node_is(n1, p1),
        crate::export::root_node_is(n2, p2),
        plan_v(p1) == plan_v(p2),
    ensures
        node_v(n1) == node_v(n2),
{
    lemma_type_same(n1.types, n2.types, "S231:Block"@);
    let ins = boundaries_view(p1.boundaries@).map_values(|b: BoundaryV| b.iri);
    assert(boundaries_view(p2.boundaries@).map_values(|b: BoundaryV| b.iri) == ins);
    lemma_refs_same(ins, n1.has_input, n2.has_input);
    let outs = bouts_view(p1.boundary_outputs@).map_values(|o: (Seq<char>, Seq<char>)| o.0);
    assert(bouts_view(p2.boundary_outputs@).map_values(|o: (Seq<char>, Seq<char>)| o.0) == outs);
    lemma_refs_same(outs, n1.has_output, n2.has_output);
    let bl1 = p1.blocks@.map_values(|b: PlannedBlock| b.iri@);
    let bl2 = p2.blocks@.map_values(|b: PlannedBlock| b.iri@);
    assert(plan_v(p1).blocks.len() == plan_v(p2).blocks.len());
    assert(p1.blocks@.len() == plan_v(p1).blocks.len());
    assert(p2.blocks@.len() == plan_v(p2).blocks.len());
    assert forall|j: int| 0 <= j < bl1.len() implies bl1[j] == bl2[j] by {
        assert(plan_v(p1).blocks[j] == plan_v(p2).blocks[j]);
        assert(plan_v(p1).blocks[j] == planned_block_v(p1.blocks@[j]));
        assert(plan_v(p2).blocks[j] == planned_block_v(p2.blocks@[j]));
    }
    assert(bl1 =~= bl2);
    lemma_refs_same(bl1, n1.contains_block, n2.contains_block);
    lemma_absent_refs(n1.has_parameter);
    lemma_absent_refs(n2.has_parameter);
    lemma_absent_refs(n1.is_connected_to);
    lemma_absent_refs(n2.is_connected_to);
    lemma_nodes_same(n1, n2);
}

proof fn lemma_block_nodes_same(
    n1: Seq<Node>,
    n2: Seq<Node>,
    bl1: Seq<PlannedBlock>,
    bl2: Seq<PlannedBlock>,
    bs: Seq<crate::export::BlockV>,
)
    requires
        crate::export::block_nodes_is(n1, bl1),
        crate::export::block_nodes_is(n2, bl2),
        bl1.len() == bs.len(),
        bl2.len() == bs.len(),
        forall|j: int| 0 <= j < bs.len() ==> block_is(#[trigger] bl1[j], bs[j]) && block_is(bl2[j], bs[j]),
    ensures
        n1.len() == n2.len(),
        forall|i: int| 0 <= i < n1.len() ==> node_v(#[trigger] n1[i]) == node_v(n2[i]),
    decreases bs.len(),
{
    if bs.len() > 0 {
        let last = bs.len() - 1;
        let b1 = bl1.last();
        let b2 = bl2.last();
        let v = bs.last();
        assert(block_is(bl1[last], bs[last]) && block_is(bl2[last], bs[last]));
        assert(params_view(b1.params@).len() == params_some(v.params).len());
        assert(params_view(b2.params@).len() == params_some(v.params).len());
        let m1 = n1.len() - 1 - b1.params@.len();
        let m2 = n2.len() - 1 - b2.params@.len();
        assert forall|j: int| 0 <= j < bs.drop_last().len() implies block_is(#[trigger] bl1.drop_last()[j], bs.drop_last()[j])
            && block_is(bl2.drop_last()[j], bs.drop_last()[j]) by {
            assert(block_is(bl1[j], bs[j]) && block_is(bl2[j], bs[j]));
        }
        lemma_block_nodes_same(n1.take(m1), n2.take(m2), bl1.drop_last(), bl2.drop_last(), bs.drop_last());
        lemma_block_same(b1, b2, v);
        lemma_block_node_same(n1[m1], n2[m2], b1, b2);
        assert forall|i: int| 0 <= i < n1.len() implies node_v(#[trigger] n1[i]) == node_v(n2[i]) by {
            if i < m1 {
                assert(n1.take(m1)[i] == n1[i]);
                assert(n2.take(m2)[i] == n2[i]);
            } else if i > m1 {
                let k = i - m1 - 1;
                assert(params_view(b1.params@)[k] == params_some(v.params)[k]);
                assert(params_view(b2.params@)[k] == params_some(v.params)[k]);
                lemma_param_node_same(n1[m1 + 1 + k], n2[m2 + 1 + k], b1.params@[k].0@, b1.params@[k].1, b2.params@[k].1);
            }
        }
    }
}

/// The document of a plan is fixed: documents of two plans of one graph under one deferral
/// have one view.
pub proof fn lemma_doc_same(g: ModelGraph, deferred: Seq<usize>, p1: Plan, p2: Plan, d1: CxfDocument, d2: CxfDocument)
    requires
        plan_is(g, deferred, p1),
        plan_is(g, deferred, p2),
        crate::export::doc_is(d1, p1),
        crate::export::doc_is(d2, p2),
    ensures
        doc_view(d1) == doc_view(d2),
{
    lemma_plan_same(g, deferred, p1, p2);
    let b = stage_blocks(g, deferred).0;
    let g1 = d1.graph@;
    let g2 = d2.graph@;
    let nb1 = crate::export::block_nodes_len(p1.blocks@) as int;
    let nb2 = crate::export::block_nodes_len(p2.blocks@) as int;
    lemma_block_nodes_same(g1.subrange(1, 1 + nb1), g2.subrange(1, 1 + nb2), p1.blocks@, p2.blocks@, b.blocks);
    let np = p1.ports@.len() as int;
    let nx = p1.boundaries@.len() as int;
    let no = p1.boundary_outputs@.len() as int;
    assert(nb1 == nb2);
    assert(plan_v(p1).ports.len() == plan_v(p2).ports.len());
    assert(plan_v(p1).boundaries.len() == plan_v(p2).boundaries.len());
    assert(plan_v(p1).boundary_outputs.len() == plan_v(p2).boundary_outputs.len());
    assert forall|i: int| 0 <= i < g1.len() implies node_v(#[trigger] g1[i]) == node_v(g2[i]) by {
        if i == 0 {
            lemma_root_node_same(g1[0], g2[0], p1, p2);
        } else if i < 1 + nb1 {
            assert(g1.subrange(1, 1 + nb1)[i - 1] == g1[i]);
            assert(g2.subrange(1, 1 + nb2)[i - 1] == g2[i]);
        } else if i < 1 + nb1 + np {
            let j = i - 1 - nb1;
            assert(plan_v(p1).ports[j] == plan_v(p2).ports[j]);
            assert(crate::export::port_node_is(g1[1 + nb1 + j], p1.ports@[j]));
            assert(crate::export::port_node_is(g2[1 + nb2 + j], p2.ports@[j]));
            lemma_port_node_same(g1[i], g2[i], p1.ports@[j], p2.ports@[j]);
        } else if i < 1 + nb1 + np + nx {
            let j = i - 1 - nb1 - np;
            assert(plan_v(p1).boundaries[j] == plan_v(p2).boundaries[j]);
            assert(crate::export::boundary_node_is(g1[1 + nb1 + np + j], p1.boundaries@[j]));
            assert(crate::export::boundary_node_is(g2[1 + nb2 + np + j], p2.boundaries@[j]));
            lemma_boundary_node_same(g1[i], g2[i], p1.boundaries@[j], p2.boundaries@[j]);
        } else {
            let j = i - 1 - nb1 - np - nx;
            assert(plan_v(p1).boundary_outputs[j] == plan_v(p2).boundary_outputs[j]);
            assert(crate::export::bout_node_is(g1[1 + nb1 + np + nx + j], p1.boundary_outputs@[j]));
            assert(crate::export::bout_node_is(g2[1 + nb2 + np + nx + j], p2.boundary_outputs@[j]));
            lemma_bout_node_same(g1[i], g2[i], p1.boundary_outputs@[j], p2.boundary_outputs@[j]);
        }
    }
    assert(g1.map_values(|n: Node| node_v(n)) =~= g2.map_values(|n: Node| node_v(n)));
    let m1 = d1.context->PrefixMap_0@;
    let m2 = d2.context->PrefixMap_0@;
    lemma_member_trees_same(m1, m2, 1);
}

} // verus!
