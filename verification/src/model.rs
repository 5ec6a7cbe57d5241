//! The flat executable model graph the exporter reads: blocks, their connectors, and the
//! output→input connections between them. Only what export planning consults is held here.
use vstd::prelude::*;

verus! {

/// A block's position in [`ModelGraph::blocks`].
#[derive(Clone, Copy, Debug, PartialEq, Eq, Structural)]
pub struct BlockId(pub u32);

/// A connector's position in [`ModelGraph::connectors`].
#[derive(Clone, Copy, Debug, PartialEq, Eq, Structural)]
pub struct ConnectorId(pub u32);

/// An enumeration class identifier.
#[derive(Clone, Copy, Debug, PartialEq, Eq, Structural)]
pub struct EnumClassId(pub u32);

/// Signal direction of a connector.
#[derive(Clone, Copy, Debug, PartialEq, Eq, Structural)]
pub enum Dir {
    In,
    Out,
}

/// The value type a connector carries.
#[derive(Clone, Copy, Debug, PartialEq, Eq, Structural)]
pub enum ValueType {
    Real,
    Integer,
    Boolean,
    String,
    Enum(EnumClassId),
}

/// A ground parameter value. A real is carried by its IEEE-754 bit pattern.
#[derive(Clone, Debug, PartialEq, Eq)]
pub enum Value {
    Real(u64),
    Integer(i64),
    Boolean(bool),
    String(String),
    Enum { class: EnumClassId, ordinal: u32 },
}

/// A block's ordered parameter bindings.
#[derive(Clone, Debug, Default, PartialEq, Eq)]
pub struct ParamTable {
    pub values: Vec<(String, Value)>,
}

/// The §7.4.1 attributes of a Real connector; a bound is carried by its IEEE-754 bit pattern.
#[derive(Clone, Debug, Default, PartialEq, Eq)]
pub struct RealAttrs {
    pub quantity: Option<String>,
    pub unit: Option<String>,
    pub display_unit: Option<String>,
    pub min: Option<u64>,
    pub max: Option<u64>,
    pub nominal: Option<u64>,
    pub unbounded: Option<bool>,
}

/// The §7.4.1 attributes of an Integer connector.
#[derive(Clone, Debug, Default, PartialEq, Eq)]
pub struct IntegerAttrs {
    pub min: Option<i64>,
    pub max: Option<i64>,
}

/// A connector's attributes, tagged by the value type they belong to.
#[derive(Clone, Debug, PartialEq, Eq)]
pub enum Attrs {
    Real(RealAttrs),
    Integer(IntegerAttrs),
    Boolean,
    String,
    Enum,
}

/// The attribute tag belongs to `vt`.
pub open spec fn attrs_match(a: Attrs, vt: ValueType) -> bool {
    match (a, vt) {
        (Attrs::Real(_), ValueType::Real) => true,
        (Attrs::Integer(_), ValueType::Integer) => true,
        (Attrs::Boolean, ValueType::Boolean) => true,
        (Attrs::String, ValueType::String) => true,
        (Attrs::Enum, ValueType::Enum(_)) => true,
        _ => false,
    }
}

/// `a` is the attribute set a connector of type `vt` carries by default: the matching tag with
/// every attribute absent.
pub open spec fn attrs_default(a: Attrs, vt: ValueType) -> bool {
    match (a, vt) {
        (Attrs::Real(r), ValueType::Real) => r.quantity is None && r.unit is None && r.display_unit is None && r.min is None
            && r.max is None && r.nominal is None && r.unbounded is None,
        (Attrs::Integer(i), ValueType::Integer) => i.min is None && i.max is None,
        (Attrs::Boolean, ValueType::Boolean) => true,
        (Attrs::String, ValueType::String) => true,
        (Attrs::Enum, ValueType::Enum(_)) => true,
        _ => false,
    }
}

/// One connector.
#[derive(Clone, Debug, PartialEq, Eq)]
pub struct Connector {
    pub id: ConnectorId,
    /// The block the connector claims as its owner.
    pub block: BlockId,
    pub dir: Dir,
    pub value_type: ValueType,
    /// The connector's authored IRI (for a boundary-driven input, the boundary's).
    pub iri: Option<String>,
    pub attrs: Attrs,
}

/// One block instance.
#[derive(Clone, Debug, PartialEq, Eq)]
pub struct BlockInstance {
    pub id: BlockId,
    pub class_iri: String,
    pub inputs: Vec<ConnectorId>,
    pub outputs: Vec<ConnectorId>,
    pub params: ParamTable,
    pub instance_iri: Option<String>,
}

/// An output→input connection.
#[derive(Clone, Copy, Debug, PartialEq, Eq, Structural)]
pub struct Connection {
    pub from: ConnectorId,
    pub to: ConnectorId,
}

/// A root boundary output driven by a reserved pass-through block's output connector.
#[derive(Clone, Debug, PartialEq, Eq)]
pub struct BoundaryOutput {
    /// The driving connector.
    pub source: ConnectorId,
    /// The boundary output's IRI.
    pub iri: String,
}

/// The flat model graph.
#[derive(Clone, Debug, Default, PartialEq, Eq)]
pub struct ModelGraph {
    pub blocks: Vec<BlockInstance>,
    pub connectors: Vec<Connector>,
    pub connections: Vec<Connection>,
    /// The inputs driven from the root's boundary, in first-occurrence order.
    pub external_inputs: Vec<ConnectorId>,
    /// The root boundary outputs.
    pub boundary_outputs: Vec<BoundaryOutput>,
}

} // verus!
