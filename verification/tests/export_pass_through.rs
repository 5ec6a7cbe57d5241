//! Reserved pass-through block validation on export.

use oce_cxf::export_pass_through::{
    has_elided_input_attrs, has_plannable_shape, has_unrepresentable_state, is_declared_pass_through_connector,
    is_pass_through_class, pass_through_value_type, reserved_connection_endpoint, reserved_shape_failures,
    ReservedShapeFailure,
};
use oce_cxf::model::{
    Attrs, BlockId, BlockInstance, Connector, ConnectorId, Dir, IntegerAttrs, ModelGraph, ParamTable, RealAttrs, Value,
    ValueType,
};

const REAL_PT: &str = "urn:oce:lowering#PassThrough.Real";

fn connector(id: u32, block: u32, dir: Dir, iri: Option<&str>) -> Connector {
    Connector {
        id: ConnectorId(id),
        block: BlockId(block),
        dir,
        value_type: ValueType::Real,
        iri: iri.map(str::to_owned),
        attrs: Attrs::Real(RealAttrs::default()),
    }
}

fn block(id: u32, class: &str, inputs: &[u32], outputs: &[u32], iri: Option<&str>) -> BlockInstance {
    BlockInstance {
        id: BlockId(id),
        class_iri: class.to_owned(),
        inputs: inputs.iter().map(|i| ConnectorId(*i)).collect(),
        outputs: outputs.iter().map(|i| ConnectorId(*i)).collect(),
        params: ParamTable::default(),
        instance_iri: iri.map(str::to_owned),
    }
}

/// A leaf block (0) and a well-formed reserved block (1) wired from the root boundary.
fn graph() -> ModelGraph {
    ModelGraph {
        blocks: vec![
            block(0, "CDL.Reals.Add", &[0], &[1], Some("http://x#add")),
            block(1, REAL_PT, &[2], &[3], None),
        ],
        connectors: vec![
            connector(0, 0, Dir::In, Some("http://x#add.u")),
            connector(1, 0, Dir::Out, Some("http://x#add.y")),
            connector(2, 1, Dir::In, Some("http://x#top.u")),
            connector(3, 1, Dir::Out, Some("http://x#top.y")),
        ],
        connections: Vec::new(),
        external_inputs: vec![ConnectorId(2)],
        boundary_outputs: Vec::new(),
    }
}

#[test]
fn reserved_classes_name_their_scalar_type() {
    assert_eq!(pass_through_value_type(REAL_PT), Some(ValueType::Real));
    assert_eq!(pass_through_value_type("urn:oce:lowering#PassThrough.Integer"), Some(ValueType::Integer));
    assert_eq!(pass_through_value_type("urn:oce:lowering#PassThrough.Boolean"), Some(ValueType::Boolean));
    assert_eq!(pass_through_value_type("urn:oce:lowering#PassThrough.String"), None);
    assert!(is_pass_through_class(REAL_PT));
    assert!(!is_pass_through_class("CDL.Reals.Add"));
}

#[test]
fn a_well_formed_reserved_block_is_plannable_and_fails_nothing() {
    let g = graph();
    assert!(has_plannable_shape(&g, 1));
    assert!(!has_plannable_shape(&g, 0));
    assert!(reserved_shape_failures(&g, &Vec::new()).is_empty());
    assert!(is_declared_pass_through_connector(&g, &g.connectors[2]));
    assert!(!is_declared_pass_through_connector(&g, &g.connectors[0]));
}

#[test]
fn the_reserved_endpoint_of_a_connection_is_found_source_first() {
    let g = graph();
    assert_eq!(reserved_connection_endpoint(&g, 1, 2).map(|(_, p)| p), Some(2));
    assert_eq!(reserved_connection_endpoint(&g, 3, 0).map(|(_, p)| p), Some(3));
    assert_eq!(reserved_connection_endpoint(&g, 1, 0).map(|(_, p)| p), None);
    assert_eq!(reserved_connection_endpoint(&g, 9, 9).map(|(_, p)| p), None);
}

#[test]
fn an_input_not_listed_as_external_breaks_the_wiring_shape() {
    let mut g = graph();
    g.external_inputs.clear();
    assert_eq!(
        reserved_shape_failures(&g, &Vec::new()),
        vec![ReservedShapeFailure::Structure("block#1".to_owned())]
    );
}

#[test]
fn a_wrong_direction_breaks_the_endpoint_shape_named_by_the_input_owner() {
    let mut g = graph();
    g.connectors[3].dir = Dir::In;
    assert_eq!(
        reserved_shape_failures(&g, &Vec::new()),
        vec![ReservedShapeFailure::Structure("connector#2".to_owned())]
    );
}

#[test]
fn a_missing_boundary_iri_is_its_own_failure() {
    let mut g = graph();
    g.connectors[3].iri = None;
    assert_eq!(
        reserved_shape_failures(&g, &Vec::new()),
        vec![ReservedShapeFailure::BoundaryIri("connector#2".to_owned())]
    );
}

#[test]
fn state_that_elision_would_lose_is_reported() {
    let mut g = graph();
    g.blocks[1].params.values.push(("k".to_owned(), Value::Integer(1)));
    assert!(has_unrepresentable_state(&g, 1, false));
    assert_eq!(
        reserved_shape_failures(&g, &Vec::new()),
        vec![ReservedShapeFailure::HiddenState("block#1".to_owned())]
    );
    let mut g = graph();
    g.connectors[3].value_type = ValueType::Integer;
    assert!(has_unrepresentable_state(&g, 1, false));
}

#[test]
fn only_finite_bounds_and_named_units_count_as_elided_attributes() {
    let mut c = connector(0, 0, Dir::In, None);
    assert!(!has_elided_input_attrs(&c));
    c.attrs = Attrs::Real(RealAttrs { max: Some(f64::INFINITY.to_bits()), ..RealAttrs::default() });
    assert!(!has_elided_input_attrs(&c));
    c.attrs = Attrs::Real(RealAttrs { min: Some(1.5f64.to_bits()), ..RealAttrs::default() });
    assert!(has_elided_input_attrs(&c));
    c.attrs = Attrs::Real(RealAttrs { unit: Some("K".to_owned()), ..RealAttrs::default() });
    assert!(has_elided_input_attrs(&c));
    c.attrs = Attrs::Integer(IntegerAttrs { min: Some(0), max: None });
    assert!(!has_elided_input_attrs(&c), "attributes of the wrong tag are not elided attributes");
}

#[test]
fn a_deferred_reserved_block_reports_any_non_default_input_attribute() {
    let mut g = graph();
    g.connectors[2].attrs = Attrs::Real(RealAttrs { nominal: Some(1.0f64.to_bits()), ..RealAttrs::default() });
    assert!(!has_unrepresentable_state(&g, 1, false));
    assert!(has_unrepresentable_state(&g, 1, true));
    assert_eq!(
        reserved_shape_failures(&g, &vec![1]),
        vec![ReservedShapeFailure::HiddenState("block#1".to_owned())]
    );
}
