//! Export-side validation of reserved pass-through blocks: the lowering-only scalar identity
//! blocks that stand for a boundary input wired straight to a boundary output.
use vstd::prelude::*;
use crate::model::{attrs_default, attrs_match, Attrs, BlockInstance, Connector, ConnectorId, Dir, ModelGraph, ValueType};
use crate::port_binding::str_eq;
use crate::text::{decimal, decimal_string, owned, push_str};

verus! {

/// The scalar type a reserved pass-through class carries, if `class_path` names one.
pub open spec fn pass_through_type(class_path: Seq<char>) -> Option<ValueType> {
    if class_path == "urn:oce:lowering#PassThrough.Real"@ {
        Some(ValueType::Real)
    } else if class_path == "urn:oce:lowering#PassThrough.Integer"@ {
        Some(ValueType::Integer)
    } else if class_path == "urn:oce:lowering#PassThrough.Boolean"@ {
        Some(ValueType::Boolean)
    } else {
        None
    }
}

/// The scalar type a reserved pass-through class carries.
pub fn pass_through_value_type(class_path: &str) -> (r: Option<ValueType>)
    ensures
        r == pass_through_type(class_path@),
{
    if str_eq(class_path, "urn:oce:lowering#PassThrough.Real") {
        Some(ValueType::Real)
    } else if str_eq(class_path, "urn:oce:lowering#PassThrough.Integer") {
        Some(ValueType::Integer)
    } else if str_eq(class_path, "urn:oce:lowering#PassThrough.Boolean") {
        Some(ValueType::Boolean)
    } else {
        None
    }
}

/// Whether `class_path` names one of the reserved scalar pass-through identities.
pub fn is_pass_through_class(class_path: &str) -> (b: bool)
    ensures
        b == pass_through_type(class_path@) is Some,
{
    pass_through_value_type(class_path).is_some()
}

/// The block at position `i`, if there is one.
pub open spec fn block_at(g: ModelGraph, i: int) -> Option<BlockInstance> {
    if 0 <= i < g.blocks@.len() {
        Some(g.blocks@[i])
    } else {
        None
    }
}

/// The connector at position `i`, if there is one.
pub open spec fn connector_at(g: ModelGraph, i: int) -> Option<Connector> {
    if 0 <= i < g.connectors@.len() {
        Some(g.connectors@[i])
    } else {
        None
    }
}

/// The block at position `i` is a reserved pass-through block.
pub open spec fn reserved_at(g: ModelGraph, i: int) -> bool {
    block_at(g, i) matches Some(b) && pass_through_type(b.class_iri@) is Some
}

/// Whether `connector` belongs to the declared input/output pair of a reserved pass-through
/// block.
pub fn is_declared_pass_through_connector(graph: &ModelGraph, connector: &Connector) -> (b: bool)
    ensures
        b == (reserved_at(*graph, connector.block.0 as int) && (graph.blocks@[connector.block.0 as int].inputs@.contains(
            connector.id,
        ) || graph.blocks@[connector.block.0 as int].outputs@.contains(connector.id))),
{
    let bi = connector.block.0 as usize;
    if bi >= graph.blocks.len() {
        return false;
    }
    let block = &graph.blocks[bi];
    is_pass_through_class(block.class_iri.as_str()) && (contains_id(&block.inputs, connector.id) || contains_id(
        &block.outputs,
        connector.id,
    ))
}

/// Whether `ids` lists `id`.
fn contains_id(ids: &Vec<ConnectorId>, id: ConnectorId) -> (b: bool)
    ensures
        b == ids@.contains(id),
{
    let mut i: usize = 0;
    while i < ids.len()
        invariant
            i <= ids@.len(),
            forall|j: int| 0 <= j < i ==> ids@[j] != id,
        decreases ids@.len() - i,
    {
        if ids[i].0 == id.0 {
            assert(ids@[i as int] == id);
            return true;
        }
        i += 1;
    }
    false
}

/// The reserved-owned endpoint of a connection, source first, with its connector position;
/// `None` when neither endpoint belongs to a reserved pass-through block.
pub fn reserved_connection_endpoint(graph: &ModelGraph, source_position: usize, target_position: usize) -> (r: Option<
    (&Connector, usize),
>)
    ensures
        ({
            let owned_by_reserved = |p: int|
                connector_at(*graph, p) matches Some(c) && reserved_at(*graph, c.block.0 as int);
            if owned_by_reserved(source_position as int) {
                r matches Some((c, p)) && p == source_position && *c == graph.connectors@[p as int]
            } else if owned_by_reserved(target_position as int) {
                r matches Some((c, p)) && p == target_position && *c == graph.connectors@[p as int]
            } else {
                r is None
            }
        }),
{
    if endpoint_reserved(graph, source_position) {
        return Some((&graph.connectors[source_position], source_position));
    }
    if endpoint_reserved(graph, target_position) {
        return Some((&graph.connectors[target_position], target_position));
    }
    None
}

fn endpoint_reserved(graph: &ModelGraph, position: usize) -> (b: bool)
    ensures
        b == (connector_at(*graph, position as int) matches Some(c) && reserved_at(*graph, c.block.0 as int)),
{
    if position >= graph.connectors.len() {
        return false;
    }
    let bi = graph.connectors[position].block.0 as usize;
    bi < graph.blocks.len() && is_pass_through_class(graph.blocks[bi].class_iri.as_str())
}

/// The block declares one input/output pair whose input belongs to it and is listed as
/// external.
pub open spec fn wiring_shape_ok(g: ModelGraph, bp: int) -> bool {
    block_at(g, bp) matches Some(b) && b.inputs@.len() == 1 && b.outputs@.len() == 1 && (connector_at(
        g,
        b.inputs@[0].0 as int,
    ) matches Some(input) && input.block.0 as int == bp) && g.external_inputs@.contains(b.inputs@[0])
}

/// The block's input/output pair exists, belongs to it, and has the required directions.
pub open spec fn endpoint_shape_ok(g: ModelGraph, bp: int) -> bool {
    block_at(g, bp) matches Some(b) && b.inputs@.len() == 1 && b.outputs@.len() == 1 && (connector_at(
        g,
        b.inputs@[0].0 as int,
    ) matches Some(input) && connector_at(g, b.outputs@[0].0 as int) matches Some(output) && input.block.0 as int
        == bp && output.block.0 as int == bp && input.dir == Dir::In && output.dir == Dir::Out)
}

/// Both reserved endpoints carry the boundary identities the exporter emits.
pub open spec fn boundary_iris_ok(g: ModelGraph, bp: int) -> bool {
    block_at(g, bp) matches Some(b) && b.inputs@.len() == 1 && b.outputs@.len() == 1 && (connector_at(
        g,
        b.inputs@[0].0 as int,
    ) matches Some(input) && connector_at(g, b.outputs@[0].0 as int) matches Some(output) && input.iri is Some
        && output.iri is Some)
}

/// The single input and output of the block at `bp`, when it has exactly one of each and both
/// name connectors.
fn pair_of(graph: &ModelGraph, bp: usize) -> (r: Option<(usize, usize)>)
    ensures
        match r {
            Some((i, o)) => block_at(*graph, bp as int) matches Some(b) && b.inputs@.len() == 1 && b.outputs@.len() == 1
                && i == b.inputs@[0].0 && o == b.outputs@[0].0 && i < graph.connectors@.len() && o
                < graph.connectors@.len(),
            None => !(block_at(*graph, bp as int) matches Some(b) && b.inputs@.len() == 1 && b.outputs@.len() == 1
                && connector_at(*graph, b.inputs@[0].0 as int) is Some && connector_at(
                *graph,
                b.outputs@[0].0 as int,
            ) is Some),
        },
{
    if bp >= graph.blocks.len() {
        return None;
    }
    let block = &graph.blocks[bp];
    if block.inputs.len() != 1 || block.outputs.len() != 1 {
        return None;
    }
    let i = block.inputs[0].0 as usize;
    let o = block.outputs[0].0 as usize;
    if i >= graph.connectors.len() || o >= graph.connectors.len() {
        return None;
    }
    Some((i, o))
}

/// Whether the block at `bp` has the reserved wiring shape.
pub fn has_valid_wiring_shape(graph: &ModelGraph, bp: usize) -> (b: bool)
    ensures
        b == wiring_shape_ok(*graph, bp as int),
{
    if bp >= graph.blocks.len() {
        return false;
    }
    let block = &graph.blocks[bp];
    if block.inputs.len() != 1 || block.outputs.len() != 1 {
        return false;
    }
    let input_id = block.inputs[0];
    let i = input_id.0 as usize;
    i < graph.connectors.len() && graph.connectors[i].block.0 as usize == bp && contains_id(
        &graph.external_inputs,
        input_id,
    )
}

/// Whether the block at `bp` has the reserved endpoint shape.
pub fn has_valid_endpoint_shape(graph: &ModelGraph, bp: usize) -> (b: bool)
    ensures
        b == endpoint_shape_ok(*graph, bp as int),
{
    match pair_of(graph, bp) {
        Some((i, o)) => {
            let input = &graph.connectors[i];
            let output = &graph.connectors[o];
            input.block.0 as usize == bp && output.block.0 as usize == bp && input.dir == Dir::In && output.dir
                == Dir::Out
        },
        None => false,
    }
}

/// Whether both reserved endpoints of the block at `bp` carry boundary identities.
pub fn has_boundary_iris(graph: &ModelGraph, bp: usize) -> (b: bool)
    ensures
        b == boundary_iris_ok(*graph, bp as int),
{
    match pair_of(graph, bp) {
        Some((i, o)) => graph.connectors[i].iri.is_some() && graph.connectors[o].iri.is_some(),
        None => false,
    }
}

/// An IEEE-754 double with these bits is finite: its exponent is not all ones.
pub open spec fn finite_bits(bits: u64) -> bool {
    (bits >> 52u64) & 0x7ffu64 != 0x7ffu64
}

/// Whether the real with the bits `bits` is finite.
pub fn is_finite_bits(bits: u64) -> (b: bool)
    ensures
        b == finite_bits(bits),
{
    (bits >> 52u64) & 0x7ffu64 != 0x7ffu64
}

/// The input carries an attribute that eliding the reserved block would discard: a Real
/// quantity, unit, display unit or finite bound, or an Integer bound.
pub open spec fn elided_input_attrs(input: Connector) -> bool {
    attrs_match(input.attrs, input.value_type) && match input.attrs {
        Attrs::Real(a) => a.quantity is Some || a.unit is Some || a.display_unit is Some || (a.min matches Some(m)
            && finite_bits(m)) || (a.max matches Some(m) && finite_bits(m)),
        Attrs::Integer(a) => a.min is Some || a.max is Some,
        _ => false,
    }
}

fn attrs_match_exec(a: &Attrs, vt: ValueType) -> (b: bool)
    ensures
        b == attrs_match(*a, vt),
{
    match (a, vt) {
        (Attrs::Real(_), ValueType::Real) => true,
        (Attrs::Integer(_), ValueType::Integer) => true,
        (Attrs::Boolean, ValueType::Boolean) => true,
        (Attrs::String, ValueType::String) => true,
        (Attrs::Enum, ValueType::Enum(_)) => true,
        _ => false,
    }
}

fn attrs_default_exec(a: &Attrs, vt: ValueType) -> (b: bool)
    ensures
        b == attrs_default(*a, vt),
{
    match (a, vt) {
        (Attrs::Real(r), ValueType::Real) => r.quantity.is_none() && r.unit.is_none() && r.display_unit.is_none()
            && r.min.is_none() && r.max.is_none() && r.nominal.is_none() && r.unbounded.is_none(),
        (Attrs::Integer(i), ValueType::Integer) => i.min.is_none() && i.max.is_none(),
        (Attrs::Boolean, ValueType::Boolean) => true,
        (Attrs::String, ValueType::String) => true,
        (Attrs::Enum, ValueType::Enum(_)) => true,
        _ => false,
    }
}

/// Whether the reserved input carries an attribute elision would discard.
pub fn has_elided_input_attrs(input: &Connector) -> (b: bool)
    ensures
        b == elided_input_attrs(*input),
{
    if !attrs_match_exec(&input.attrs, input.value_type) {
        return false;
    }
    match &input.attrs {
        Attrs::Real(a) => {
            let min_finite = match a.min {
                Some(m) => is_finite_bits(m),
                None => false,
            };
            let max_finite = match a.max {
                Some(m) => is_finite_bits(m),
                None => false,
            };
            a.quantity.is_some() || a.unit.is_some() || a.display_unit.is_some() || min_finite || max_finite
        },
        Attrs::Integer(a) => a.min.is_some() || a.max.is_some(),
        _ => false,
    }
}

/// Eliding the reserved block at `bp` would discard an authored identity, a parameter, or an
/// input attribute, or would change its scalar identity; a deferred block is checked for every
/// non-default input attribute.
pub open spec fn unrepresentable_ok(g: ModelGraph, bp: int, deferred: bool) -> bool {
    match block_at(g, bp) {
        None => false,
        Some(b) => match pass_through_type(b.class_iri@) {
            None => false,
            Some(vt) => if b.instance_iri is Some || b.params.values@.len() > 0 {
                true
            } else if b.inputs@.len() == 1 && b.outputs@.len() == 1 {
                match (connector_at(g, b.inputs@[0].0 as int), connector_at(g, b.outputs@[0].0 as int)) {
                    (Some(input), Some(output)) => input.value_type != vt || output.value_type != vt
                        || elided_input_attrs(input) || (deferred && !attrs_default(input.attrs, input.value_type)),
                    _ => false,
                }
            } else {
                false
            },
        },
    }
}

/// Whether eliding the reserved block at `bp` would lose state.
pub fn has_unrepresentable_state(graph: &ModelGraph, bp: usize, deferred: bool) -> (b: bool)
    ensures
        b == unrepresentable_ok(*graph, bp as int, deferred),
{
    if bp >= graph.blocks.len() {
        return false;
    }
    let block = &graph.blocks[bp];
    let vt = match pass_through_value_type(block.class_iri.as_str()) {
        Some(vt) => vt,
        None => {
            return false;
        },
    };
    if block.instance_iri.is_some() || block.params.values.len() > 0 {
        return true;
    }
    match pair_of(graph, bp) {
        Some((i, o)) => {
            let input = &graph.connectors[i];
            let output = &graph.connectors[o];
            input.value_type != vt || output.value_type != vt || has_elided_input_attrs(input) || (deferred
                && !attrs_default_exec(&input.attrs, input.value_type))
        },
        None => false,
    }
}

/// A reserved-shape rejection category with its diagnostic subject.
#[derive(Clone, Debug, PartialEq, Eq)]
pub enum ReservedShapeFailure {
    /// Block/connector cross-references disagree.
    Structure(String),
    /// The reserved input or output lacks the boundary identity needed for emission.
    BoundaryIri(String),
    /// Elision would discard state or change the reserved scalar identity.
    HiddenState(String),
}

/// A block's diagnostic subject: its instance IRI, else `block#<position>`.
pub open spec fn block_subject_v(g: ModelGraph, bp: int) -> Seq<char> {
    match block_at(g, bp) {
        Some(b) if b.instance_iri is Some => b.instance_iri->0@,
        _ => "block#"@ + decimal(bp as nat),
    }
}

/// A reserved block's endpoint subject: the instance IRI of the block owning its first input,
/// else `connector#<input id>`; `fallback` when it declares no input.
pub open spec fn endpoint_subject_v(g: ModelGraph, bp: int, fallback: Seq<char>) -> Seq<char> {
    match block_at(g, bp) {
        Some(b) if b.inputs@.len() > 0 => {
            let id = b.inputs@[0];
            match connector_at(g, id.0 as int) {
                Some(input) => match block_at(g, input.block.0 as int) {
                    Some(owner) if owner.instance_iri is Some => owner.instance_iri->0@,
                    _ => "connector#"@ + decimal(id.0 as nat),
                },
                None => "connector#"@ + decimal(id.0 as nat),
            }
        },
        _ => fallback,
    }
}

fn block_subject(graph: &ModelGraph, bp: usize) -> (r: String)
    ensures
        r@ == block_subject_v(*graph, bp as int),
{
    if bp < graph.blocks.len() {
        if let Some(iri) = &graph.blocks[bp].instance_iri {
            return owned(iri.as_str());
        }
    }
    let mut s = owned("block#");
    push_str(&mut s, decimal_string(bp).as_str());
    s
}

fn endpoint_subject(graph: &ModelGraph, bp: usize, fallback: &str) -> (r: String)
    ensures
        r@ == endpoint_subject_v(*graph, bp as int, fallback@),
{
    if bp >= graph.blocks.len() || graph.blocks[bp].inputs.len() == 0 {
        return owned(fallback);
    }
    let id = graph.blocks[bp].inputs[0];
    let i = id.0 as usize;
    if i < graph.connectors.len() {
        let owner = graph.connectors[i].block.0 as usize;
        if owner < graph.blocks.len() {
            if let Some(iri) = &graph.blocks[owner].instance_iri {
                return owned(iri.as_str());
            }
        }
    }
    let mut s = owned("connector#");
    push_str(&mut s, decimal_string(id.0 as usize).as_str());
    s
}

/// The failures of one reserved block, in check order.
pub open spec fn block_failures(g: ModelGraph, bp: int, deferred: bool) -> Seq<(nat, Seq<char>)> {
    let subject = block_subject_v(g, bp);
    let endpoint = endpoint_subject_v(g, bp, subject);
    (if !wiring_shape_ok(g, bp) {
        seq![(0nat, subject)]
    } else if !endpoint_shape_ok(g, bp) {
        seq![(0nat, endpoint)]
    } else if !boundary_iris_ok(g, bp) {
        seq![(1nat, endpoint)]
    } else {
        seq![]
    }) + if unrepresentable_ok(g, bp, deferred) {
        seq![(2nat, subject)]
    } else {
        seq![]
    }
}

/// The failures of the reserved blocks among the first `k`, in block order.
pub open spec fn shape_failures_v(g: ModelGraph, deferred: Seq<usize>, k: nat) -> Seq<(nat, Seq<char>)>
    decreases k,
{
    if k == 0 || k > g.blocks@.len() {
        seq![]
    } else {
        shape_failures_v(g, deferred, (k - 1) as nat) + if reserved_at(g, k - 1) {
            block_failures(g, k - 1, deferred.contains((k - 1) as usize))
        } else {
            seq![]
        }
    }
}

/// A failure as its category (structure, boundary IRI, hidden state) and subject.
pub open spec fn failure_view(f: ReservedShapeFailure) -> (nat, Seq<char>) {
    match f {
        ReservedShapeFailure::Structure(s) => (0nat, s@),
        ReservedShapeFailure::BoundaryIri(s) => (1nat, s@),
        ReservedShapeFailure::HiddenState(s) => (2nat, s@),
    }
}

/// Whether `deferred` lists `x`.
fn contains_usize(v: &Vec<usize>, x: usize) -> (b: bool)
    ensures
        b == v@.contains(x),
{
    let mut i: usize = 0;
    while i < v.len()
        invariant
            i <= v@.len(),
            forall|j: int| 0 <= j < i ==> v@[j] != x,
        decreases v@.len() - i,
    {
        if v[i] == x {
            return true;
        }
        i += 1;
    }
    false
}

/// Validate every reserved block, in block order: a broken wiring shape, else a broken endpoint
/// shape, else missing boundary identities; then state that elision would lose. `deferred`
/// lists the deferred block positions.
pub fn reserved_shape_failures(graph: &ModelGraph, deferred: &Vec<usize>) -> (r: Vec<ReservedShapeFailure>)
    ensures
        r@.map_values(|f: ReservedShapeFailure| failure_view(f)) == shape_failures_v(
            *graph,
            deferred@,
            graph.blocks@.len(),
        ),
{
    let mut failures: Vec<ReservedShapeFailure> = Vec::new();
    let mut bp: usize = 0;
    while bp < graph.blocks.len()
        invariant
            bp <= graph.blocks@.len(),
            failures@.map_values(|f: ReservedShapeFailure| failure_view(f)) == shape_failures_v(
                *graph,
                deferred@,
                bp as nat,
            ),
        decreases graph.blocks@.len() - bp,
    {
        let ghost before = failures@.map_values(|f: ReservedShapeFailure| failure_view(f));
        if is_pass_through_class(graph.blocks[bp].class_iri.as_str()) {
            let subject = block_subject(graph, bp);
            if !has_valid_wiring_shape(graph, bp) {
                failures.push(ReservedShapeFailure::Structure(owned(subject.as_str())));
            } else {
                let endpoint = endpoint_subject(graph, bp, subject.as_str());
                if !has_valid_endpoint_shape(graph, bp) {
                    failures.push(ReservedShapeFailure::Structure(endpoint));
                } else if !has_boundary_iris(graph, bp) {
                    failures.push(ReservedShapeFailure::BoundaryIri(endpoint));
                }
            }
            let ghost mid = failures@.map_values(|f: ReservedShapeFailure| failure_view(f));
            if has_unrepresentable_state(graph, bp, contains_usize(deferred, bp)) {
                failures.push(ReservedShapeFailure::HiddenState(subject));
            }
            proof {
                let bf = block_failures(*graph, bp as int, deferred@.contains(bp));
                assert(failures@.map_values(|f: ReservedShapeFailure| failure_view(f)) =~= before + bf);
            }
        } else {
            assert(failures@.map_values(|f: ReservedShapeFailure| failure_view(f)) =~= before + seq![]);
        }
        bp += 1;
    }
    failures
}

/// Whether the exporter can plan the reserved block at `bp` without repeating a shape
/// diagnostic.
pub fn has_plannable_shape(graph: &ModelGraph, bp: usize) -> (b: bool)
    ensures
        b == (wiring_shape_ok(*graph, bp as int) && endpoint_shape_ok(*graph, bp as int) && boundary_iris_ok(
            *graph,
            bp as int,
        )),
{
    has_valid_wiring_shape(graph, bp) && has_valid_endpoint_shape(graph, bp) && has_boundary_iris(graph, bp)
}

} // verus!
