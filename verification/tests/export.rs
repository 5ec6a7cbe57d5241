//! The exporter's acceptance and rejection surfaces on hand-built graphs.

use oce_cxf::diag::{DiagCode, Diagnostic, Severity};
use oce_cxf::dto::{Context, CxfDocument, CxfValue, JsonValue, Node, OneOrMany};
use oce_cxf::export::{document, string_literal};
use oce_cxf::model::{
    Attrs, BlockId, BlockInstance, BoundaryOutput, Connection, Connector, ConnectorId, Dir, EnumClassId, IntegerAttrs,
    ModelGraph, ParamTable, RealAttrs, Value, ValueType,
};

const HAND_CON_SUBJECT: &str = "http://example.org#Hand.con";
const STRUCTURE: &str = "export subset: block/connector wiring is structurally inconsistent";
const DUPLICATE_ID: &str = "export subset: emitted node @id collides with another emitted node @id";
const CLASS_BRIDGE: &str = "export subset: class path does not survive the class-IRI bridge round-trip";

fn real_value(x: f64) -> Value {
    Value::Real(x.to_bits())
}

fn connector(id: u32, block: u32, dir: Dir, vt: ValueType) -> Connector {
    let attrs = match vt {
        ValueType::Real => Attrs::Real(RealAttrs::default()),
        ValueType::Integer => Attrs::Integer(IntegerAttrs::default()),
        ValueType::Boolean => Attrs::Boolean,
        ValueType::String => Attrs::String,
        ValueType::Enum(_) => Attrs::Enum,
    };
    Connector { id: ConnectorId(id), block: BlockId(block), dir, value_type: vt, iri: None, attrs }
}

/// One `Constant` block with the given parameters and a single Real output.
fn constant_graph(params: Vec<(&str, Value)>) -> ModelGraph {
    ModelGraph {
        blocks: vec![BlockInstance {
            id: BlockId(0),
            class_iri: "CDL.Reals.Sources.Constant".to_owned(),
            inputs: vec![],
            outputs: vec![ConnectorId(0)],
            params: ParamTable { values: params.into_iter().map(|(n, v)| (n.to_owned(), v)).collect() },
            instance_iri: Some(HAND_CON_SUBJECT.to_owned()),
        }],
        connectors: vec![connector(0, 0, Dir::Out, ValueType::Real)],
        connections: vec![],
        external_inputs: vec![],
        boundary_outputs: vec![],
    }
}

/// One `Abs` block with one Real input and one Real output.
fn abs_graph() -> ModelGraph {
    ModelGraph {
        blocks: vec![BlockInstance {
            id: BlockId(0),
            class_iri: "CDL.Reals.Abs".to_owned(),
            inputs: vec![ConnectorId(0)],
            outputs: vec![ConnectorId(1)],
            params: ParamTable::default(),
            instance_iri: Some("http://example.org#Hand.abs".to_owned()),
        }],
        connectors: vec![connector(0, 0, Dir::In, ValueType::Real), connector(1, 0, Dir::Out, ValueType::Real)],
        connections: vec![],
        external_inputs: vec![],
        boundary_outputs: vec![],
    }
}

/// The rejection of `model`: non-empty, every entry an `ExportUnsupported` error.
fn rejection(model: &ModelGraph) -> Vec<Diagnostic> {
    match document(model) {
        Err(diags) => {
            assert!(!diags.is_empty(), "a rejection must carry diagnostics");
            for d in &diags {
                assert_eq!(d.code, DiagCode::ExportUnsupported, "unexpected code: {d:?}");
                assert_eq!(d.severity, Severity::Error, "unexpected severity: {d:?}");
            }
            diags
        },
        Ok((doc, _)) => panic!("expected an export rejection, but got Ok with {} node(s)", doc.graph.len()),
    }
}

fn accepted(model: &ModelGraph) -> (CxfDocument, Vec<Diagnostic>) {
    match document(model) {
        Ok(r) => r,
        Err(diags) => panic!("expected an export, got {diags:?}"),
    }
}

fn node<'a>(doc: &'a CxfDocument, id: &str) -> &'a Node {
    doc.graph.iter().find(|n| n.id == id).unwrap_or_else(|| panic!("no node {id}"))
}

fn ref_ids(r: &OneOrMany<oce_cxf::dto::IriRef>) -> Vec<String> {
    match r {
        OneOrMany::Absent => vec![],
        OneOrMany::One(x) => vec![x.id.clone()],
        OneOrMany::Many(v) => v.iter().map(|x| x.id.clone()).collect(),
    }
}

fn with_real_attrs(attrs: RealAttrs) -> ModelGraph {
    let mut graph = constant_graph(vec![("k", real_value(2.0))]);
    graph.connectors[0].attrs = Attrs::Real(attrs);
    graph
}

#[test]
fn empty_model_graph_is_rejected_without_a_subject() {
    let diags = rejection(&ModelGraph::default());
    assert_eq!(diags.len(), 1);
    assert_eq!(diags[0].subject, None, "a whole-operation rejection must not blame any node");
    assert_eq!(
        diags[0].message,
        "CXF export requires at least one block: an empty ModelGraph has no runtime composite to emit"
    );
}

#[test]
fn block_without_an_instance_iri_is_rejected() {
    let mut graph = constant_graph(vec![("k", real_value(2.0))]);
    graph.blocks[0].instance_iri = None;
    let diags = rejection(&graph);
    assert_eq!(diags[0].subject.as_deref(), Some("block#0"));
    assert_eq!(diags[0].message, "export subset: block has no instance_iri to name its CXF node");
}

#[test]
fn non_finite_real_parameters_are_rejected() {
    for bad in [f64::NAN, f64::INFINITY, f64::NEG_INFINITY] {
        let graph = constant_graph(vec![("k", real_value(bad))]);
        let diags = rejection(&graph);
        assert_eq!(diags[0].subject.as_deref(), Some(HAND_CON_SUBJECT));
        assert_eq!(
            diags[0].message,
            "export subset: parameter `k` is a non-finite Real, which cannot round-trip through JSON"
        );
    }
}

#[test]
fn dotted_parameter_name_is_rejected() {
    let graph = constant_graph(vec![("k.nested", real_value(2.0))]);
    let diags = rejection(&graph);
    assert_eq!(diags[0].subject.as_deref(), Some(HAND_CON_SUBJECT));
    assert_eq!(
        diags[0].message,
        "export subset: parameter name `k.nested` is not a bare member name (re-import recovers the name after the last `.`)"
    );
}

#[test]
fn mismatched_port_wiring_is_rejected_not_exported_shifted() {
    let mut graph = constant_graph(vec![("k", real_value(2.0))]);
    graph.blocks[0].inputs = vec![ConnectorId(0)];
    graph.blocks[0].outputs = vec![];
    let diags = rejection(&graph);
    assert_eq!(diags.len(), 2, "got: {diags:?}");
    for d in &diags {
        assert_eq!(d.subject.as_deref(), Some(HAND_CON_SUBJECT));
        assert_eq!(d.message, STRUCTURE);
    }
}

#[test]
fn external_input_without_a_boundary_iri_is_rejected() {
    let mut graph = abs_graph();
    graph.external_inputs = vec![ConnectorId(0)];
    let diags = rejection(&graph);
    assert_eq!(diags.len(), 1, "got: {diags:?}");
    assert_eq!(diags[0].subject.as_deref(), Some("http://example.org#Hand.abs"));
    assert_eq!(diags[0].message, "export subset: external input carries no boundary IRI to rebuild the root hasInput");
}

#[test]
fn hand_built_attr_bearing_connector_exports_under_the_bare_scalar_canonical_shape() {
    let graph = with_real_attrs(RealAttrs { unit: Some("K".to_owned()), ..RealAttrs::default() });
    let (doc, warnings) = accepted(&graph);
    assert!(warnings.is_empty());
    let port = node(&doc, "http://example.org#Hand.con.out0");
    assert_eq!(port.other.len(), 1);
    assert_eq!(port.other[0].0, "S231:unit");
    assert!(matches!(&port.other[0].1, JsonValue::Str(s) if s == "K"));
}

#[test]
fn nominal_attr_on_real_connector_is_rejected_with_the_owning_block_subject() {
    let graph = with_real_attrs(RealAttrs { nominal: Some(1.0f64.to_bits()), ..RealAttrs::default() });
    let diags = rejection(&graph);
    assert_eq!(diags.len(), 1, "exactly one offender: {diags:?}");
    assert_eq!(diags[0].code, DiagCode::ExportUnsupported);
    assert_eq!(diags[0].subject.as_deref(), Some(HAND_CON_SUBJECT));
    assert_eq!(
        diags[0].message,
        "export subset: connector carries a non-default §7.4.1 nominal attribute, which is outside the canonical (bare-scalar) export subset"
    );
}

#[test]
fn unbounded_attr_on_real_connector_is_rejected_with_the_owning_block_subject() {
    let graph = with_real_attrs(RealAttrs { unbounded: Some(true), ..RealAttrs::default() });
    let diags = rejection(&graph);
    assert_eq!(diags.len(), 1, "exactly one offender: {diags:?}");
    assert_eq!(diags[0].code, DiagCode::ExportUnsupported);
    assert_eq!(diags[0].subject.as_deref(), Some(HAND_CON_SUBJECT));
    assert_eq!(
        diags[0].message,
        "export subset: connector carries a non-default §7.4.1 unbounded attribute, which is outside the canonical (bare-scalar) export subset"
    );
}

#[test]
fn non_finite_real_bound_is_rejected_with_the_owning_block_subject() {
    let check = |attrs: RealAttrs, label: &str, bad: f64| {
        let graph = with_real_attrs(attrs);
        let diags = rejection(&graph);
        assert_eq!(diags.len(), 1, "{label} (bad={bad}): exactly one non-finite-bound diag, got: {diags:?}");
        assert_eq!(diags[0].code, DiagCode::ExportUnsupported);
        assert_eq!(diags[0].subject.as_deref(), Some(HAND_CON_SUBJECT));
        assert_eq!(
            diags[0].message,
            "export subset: connector carries a non-finite §7.4.1 min/max bound, which is outside the canonical (bare-scalar) export subset"
        );
    };
    for bad in [f64::NAN, f64::INFINITY, f64::NEG_INFINITY] {
        check(
            RealAttrs { min: Some(bad.to_bits()), max: None, ..RealAttrs::default() },
            "min non-finite, max None",
            bad,
        );
        check(
            RealAttrs { min: None, max: Some(bad.to_bits()), ..RealAttrs::default() },
            "max non-finite, min None",
            bad,
        );
    }
}

#[test]
fn out_of_range_external_input_is_rejected_without_a_subject() {
    let mut graph = abs_graph();
    graph.external_inputs = vec![ConnectorId(99)];
    let diags = rejection(&graph);
    assert_eq!(diags.len(), 1, "exactly one subjectless diag: {diags:?}");
    assert_eq!(diags[0].code, DiagCode::ExportUnsupported);
    assert_eq!(diags[0].subject, None, "no connector → no owner → subjectless");
    assert_eq!(diags[0].message, STRUCTURE);
}

#[test]
fn root_urn_collision_is_rejected_as_a_duplicate_id() {
    let mut graph = constant_graph(vec![("k", real_value(2.0))]);
    graph.blocks[0].instance_iri = Some("urn:open-control:cxf-export:root".to_owned());
    let diags = rejection(&graph);
    assert_eq!(diags.len(), 1, "exactly one duplicate-id diag: {diags:?}");
    assert_eq!(diags[0].code, DiagCode::ExportUnsupported);
    assert_eq!(diags[0].subject.as_deref(), Some("urn:open-control:cxf-export:root"));
    assert_eq!(diags[0].message, DUPLICATE_ID);
}

#[test]
fn class_path_with_a_hash_is_rejected_by_the_bridge_oracle() {
    let mut graph = constant_graph(vec![("k", real_value(2.0))]);
    graph.blocks[0].class_iri = "CDL.Reals.Sources#Constant".to_owned();
    let diags = rejection(&graph);
    assert_eq!(diags.len(), 1, "got: {diags:?}");
    assert_eq!(diags[0].subject.as_deref(), Some(HAND_CON_SUBJECT));
    assert_eq!(diags[0].message, CLASS_BRIDGE);
}

#[test]
fn obc_prefixed_class_path_is_rejected_before_emission() {
    let mut graph = constant_graph(vec![("k", real_value(2.0))]);
    graph.blocks[0].class_iri = "Buildings.Controls.OBC.CDL.Reals.Sources.Constant".to_owned();
    let diags = rejection(&graph);
    assert_eq!(diags.len(), 1, "got: {diags:?}");
    assert_eq!(diags[0].subject.as_deref(), Some(HAND_CON_SUBJECT));
    assert_eq!(diags[0].message, CLASS_BRIDGE);
}

#[test]
fn string_typed_connector_is_rejected_with_the_owning_block_subject() {
    let mut graph = constant_graph(vec![("k", real_value(2.0))]);
    graph.connectors[0] = connector(0, 0, Dir::Out, ValueType::String);
    let diags = rejection(&graph);
    assert_eq!(diags.len(), 1, "got: {diags:?}");
    assert_eq!(diags[0].subject.as_deref(), Some(HAND_CON_SUBJECT));
    assert_eq!(diags[0].message, "export subset: String connectors are not permitted in CXF (§7.8)");
}

#[test]
fn an_enum_typed_connector_defers_its_block_instead_of_rejecting_it() {
    let mut graph = constant_graph(vec![("k", real_value(2.0))]);
    graph.connectors[0] = connector(0, 0, Dir::Out, ValueType::Enum(EnumClassId(2)));
    let diags = document(&graph).expect_err("the only block is deferred");
    assert_eq!(diags.len(), 2, "got: {diags:?}");
    assert_eq!(diags[0].severity, Severity::Warning);
    assert_eq!(diags[0].code, DiagCode::ExportDeferred);
    assert_eq!(diags[0].subject.as_deref(), Some(HAND_CON_SUBJECT));
    assert!(diags[0].message.contains("enumeration-typed connector (class `EnumClass#2`)"));
    assert_eq!(diags[1].severity, Severity::Error);
    assert_eq!(diags[1].subject, None);
}

#[test]
fn non_dense_ids_are_rejected_wholesale_without_a_subject() {
    let expect_wholesale = |graph: &ModelGraph| {
        let diags = rejection(graph);
        assert_eq!(diags.len(), 1, "got: {diags:?}");
        assert_eq!(diags[0].subject, None);
        assert_eq!(diags[0].message, STRUCTURE);
    };
    let mut graph = constant_graph(vec![("k", real_value(2.0))]);
    graph.blocks[0].id = BlockId(5);
    expect_wholesale(&graph);

    let mut graph = constant_graph(vec![("k", real_value(2.0))]);
    graph.connectors[0].id = ConnectorId(7);
    expect_wholesale(&graph);
}

#[test]
fn backwards_connection_is_rejected_with_the_source_owner_subject() {
    let mut graph = abs_graph();
    graph.connections = vec![Connection { from: ConnectorId(0), to: ConnectorId(1) }];
    let diags = rejection(&graph);
    assert_eq!(diags.len(), 1, "got: {diags:?}");
    assert_eq!(diags[0].subject.as_deref(), Some("http://example.org#Hand.abs"));
    assert_eq!(diags[0].message, STRUCTURE);
}

#[test]
fn duplicate_block_instance_iris_are_rejected() {
    let mut graph = constant_graph(vec![("k", real_value(2.0))]);
    graph.blocks.push(BlockInstance {
        id: BlockId(1),
        class_iri: "CDL.Reals.Sources.Constant".to_owned(),
        inputs: vec![],
        outputs: vec![ConnectorId(1)],
        params: ParamTable::default(),
        instance_iri: Some(HAND_CON_SUBJECT.to_owned()),
    });
    graph.connectors.push(connector(1, 1, Dir::Out, ValueType::Real));
    let diags = rejection(&graph);
    assert_eq!(diags.len(), 2, "got: {diags:?}");
    for d in &diags {
        assert_eq!(d.subject.as_deref(), Some(HAND_CON_SUBJECT));
        assert_eq!(d.message, DUPLICATE_ID);
    }
}

#[test]
fn parameter_named_like_a_minted_port_id_is_rejected() {
    let graph = constant_graph(vec![("out0", real_value(1.0))]);
    let diags = rejection(&graph);
    assert_eq!(diags.len(), 1, "got: {diags:?}");
    assert_eq!(diags[0].subject.as_deref(), Some(HAND_CON_SUBJECT));
    assert_eq!(diags[0].message, DUPLICATE_ID);
}

#[test]
fn every_rejection_path_returns_instead_of_panicking() {
    let with_class = |class: &str| {
        let mut g = constant_graph(vec![("k", real_value(2.0))]);
        g.blocks[0].class_iri = class.to_owned();
        g
    };
    let mut non_dense = constant_graph(vec![("k", real_value(2.0))]);
    non_dense.blocks[0].id = BlockId(5);
    let mut backwards = abs_graph();
    backwards.connections = vec![Connection { from: ConnectorId(0), to: ConnectorId(1) }];
    let mut no_boundary_iri = abs_graph();
    no_boundary_iri.external_inputs = vec![ConnectorId(0)];
    let mut out_of_range_external = abs_graph();
    out_of_range_external.external_inputs = vec![ConnectorId(9)];
    let rejections: Vec<ModelGraph> = vec![
        ModelGraph::default(),
        constant_graph(vec![("k", real_value(f64::NAN))]),
        constant_graph(vec![("mode", Value::Enum { class: EnumClassId(2), ordinal: 1 })]),
        constant_graph(vec![("out0", real_value(1.0))]),
        with_class("CDL.Reals.Sources#Constant"),
        with_class("Buildings.Controls.OBC.CDL.Reals.Sources.Constant"),
        {
            let mut g = constant_graph(vec![("k", real_value(2.0))]);
            g.connectors[0] = connector(0, 0, Dir::Out, ValueType::String);
            g
        },
        {
            let mut g = constant_graph(vec![("k", real_value(2.0))]);
            g.connectors[0] = connector(0, 0, Dir::Out, ValueType::Enum(EnumClassId(2)));
            g
        },
        non_dense,
        backwards,
        no_boundary_iri,
        out_of_range_external,
    ];
    for g in &rejections {
        assert!(document(g).is_err(), "a rejection shape was silently accepted (no diag) — {g:?}");
    }
}

// ---- acceptance: the shape of the emitted document ----

#[test]
fn a_constant_block_exports_as_root_block_parameter_and_port_nodes() {
    let graph = constant_graph(vec![("k", real_value(2.0))]);
    let (doc, warnings) = accepted(&graph);
    assert!(warnings.is_empty());
    let ids: Vec<&str> = doc.graph.iter().map(|n| n.id.as_str()).collect();
    assert_eq!(
        ids,
        vec![
            "urn:open-control:cxf-export:root",
            HAND_CON_SUBJECT,
            "http://example.org#Hand.con.k",
            "http://example.org#Hand.con.out0",
        ]
    );
    let root = &doc.graph[0];
    assert!(matches!(&root.types, Some(OneOrMany::One(t)) if t == "S231:Block"));
    assert_eq!(ref_ids(&root.contains_block), vec![HAND_CON_SUBJECT.to_owned()]);
    assert!(matches!(root.has_input, OneOrMany::Absent));
    let block = &doc.graph[1];
    assert!(matches!(&block.types, Some(OneOrMany::One(t))
        if t == "http://example.org#Buildings.Controls.OBC.CDL.Reals.Sources.Constant"));
    assert_eq!(ref_ids(&block.has_output), vec!["http://example.org#Hand.con.out0".to_owned()]);
    assert_eq!(ref_ids(&block.has_parameter), vec!["http://example.org#Hand.con.k".to_owned()]);
    assert!(matches!(doc.graph[2].value, Some(CxfValue::Float(b)) if b == 2.0f64.to_bits()));
    let port = &doc.graph[3];
    assert_eq!(port.is_of_data_type.as_ref().map(|r| r.id.as_str()), Some("S231:Real"));
    assert!(port.other.is_empty() && port.min.is_none() && port.max.is_none());
    match &doc.context {
        Context::PrefixMap(m) => {
            assert_eq!(m.len(), 1);
            assert_eq!(m[0].0, "S231");
            assert!(matches!(&m[0].1, JsonValue::Str(s) if s == "http://data.ashrae.org/S231P#"));
        },
        other => panic!("unexpected context {other:?}"),
    }
}

#[test]
fn string_parameter_is_emitted_as_a_quoted_literal_expression() {
    let tricky = r#"deg "C" \ path"#;
    let graph = constant_graph(vec![("k", real_value(2.0)), ("note", Value::String(tricky.to_owned()))]);
    let (doc, _) = accepted(&graph);
    let note = node(&doc, "http://example.org#Hand.con.note");
    assert!(matches!(&note.value, Some(CxfValue::Expr(e)) if e == r#""deg \"C\" \\ path""#));
    assert_eq!(string_literal(tricky), r#""deg \"C\" \\ path""#);
}

#[test]
fn integer_bounds_are_emitted_as_bare_numbers() {
    let mut graph = constant_graph(vec![]);
    graph.connectors[0].value_type = ValueType::Integer;
    graph.connectors[0].attrs = Attrs::Integer(IntegerAttrs { min: Some(-3), max: Some(7) });
    let (doc, _) = accepted(&graph);
    let port = node(&doc, "http://example.org#Hand.con.out0");
    assert_eq!(port.is_of_data_type.as_ref().map(|r| r.id.as_str()), Some("S231:Integer"));
    assert!(matches!(port.min, Some(CxfValue::Int(-3))));
    assert!(matches!(port.max, Some(CxfValue::Int(7))));
    assert!(port.other.is_empty());
}

#[test]
fn real_attributes_are_emitted_in_canonical_order() {
    let graph = with_real_attrs(RealAttrs {
        unit: Some("K".to_owned()),
        quantity: Some("ThermodynamicTemperature".to_owned()),
        display_unit: Some("degC".to_owned()),
        min: Some(0.5f64.to_bits()),
        max: Some(1.5f64.to_bits()),
        ..RealAttrs::default()
    });
    let (doc, _) = accepted(&graph);
    let port = node(&doc, "http://example.org#Hand.con.out0");
    let keys: Vec<&str> = port.other.iter().map(|(k, _)| k.as_str()).collect();
    assert_eq!(keys, vec!["S231:unit", "S231:quantity", "S231:displayUnit"]);
    assert!(matches!(port.min, Some(CxfValue::Float(b)) if b == 0.5f64.to_bits()));
    assert!(matches!(port.max, Some(CxfValue::Float(b)) if b == 1.5f64.to_bits()));
}

#[test]
fn a_connection_lists_its_target_on_the_source_port() {
    let mut graph = constant_graph(vec![("k", real_value(2.0))]);
    let mut abs = abs_graph();
    abs.blocks[0].id = BlockId(1);
    abs.blocks[0].inputs = vec![ConnectorId(1)];
    abs.blocks[0].outputs = vec![ConnectorId(2)];
    graph.blocks.push(abs.blocks.remove(0));
    graph.connectors.push(connector(1, 1, Dir::In, ValueType::Real));
    graph.connectors.push(connector(2, 1, Dir::Out, ValueType::Real));
    graph.connections = vec![Connection { from: ConnectorId(0), to: ConnectorId(1) }];
    let (doc, _) = accepted(&graph);
    let out = node(&doc, "http://example.org#Hand.con.out0");
    assert_eq!(ref_ids(&out.is_connected_to), vec!["http://example.org#Hand.abs.in0".to_owned()]);
}

#[test]
fn an_input_driven_twice_is_rejected() {
    let mut graph = abs_graph();
    graph.blocks[0].id = BlockId(0);
    let mut src = constant_graph(vec![]);
    src.blocks[0].id = BlockId(1);
    src.blocks[0].outputs = vec![ConnectorId(2)];
    graph.blocks.push(src.blocks.remove(0));
    graph.connectors.push(connector(2, 1, Dir::Out, ValueType::Real));
    graph.connections = vec![
        Connection { from: ConnectorId(2), to: ConnectorId(0) },
        Connection { from: ConnectorId(2), to: ConnectorId(0) },
    ];
    let diags = rejection(&graph);
    assert_eq!(diags.len(), 1, "got: {diags:?}");
    assert_eq!(diags[0].subject.as_deref(), Some("http://example.org#Hand.abs"));
    assert!(diags[0].message.contains("driven by more than one surviving output"));
}

#[test]
fn a_boundary_input_becomes_a_root_input_node_wired_to_a_minted_child_port() {
    let mut graph = abs_graph();
    graph.connectors[0].iri = Some("http://example.org#Top.u".to_owned());
    graph.external_inputs = vec![ConnectorId(0)];
    let (doc, _) = accepted(&graph);
    let root = &doc.graph[0];
    assert_eq!(ref_ids(&root.has_input), vec!["http://example.org#Top.u".to_owned()]);
    let boundary = doc.graph.last().unwrap();
    assert_eq!(boundary.id, "http://example.org#Top.u");
    assert_eq!(ref_ids(&boundary.is_connected_to), vec!["http://example.org#Hand.abs.in0".to_owned()]);
    assert_eq!(boundary.is_of_data_type.as_ref().map(|r| r.id.as_str()), Some("S231:Real"));
}

#[test]
fn a_connector_listed_twice_as_a_boundary_input_is_rejected() {
    let mut graph = abs_graph();
    graph.connectors[0].iri = Some("http://example.org#Top.u".to_owned());
    graph.external_inputs = vec![ConnectorId(0), ConnectorId(0)];
    let diags = rejection(&graph);
    assert_eq!(diags.len(), 1, "got: {diags:?}");
    assert!(diags[0].message.contains("listed more than once in external_inputs"));
}

#[test]
fn a_root_boundary_output_is_emitted_and_wired_from_its_source() {
    let mut graph = constant_graph(vec![("k", real_value(2.0))]);
    graph.boundary_outputs = vec![BoundaryOutput { source: ConnectorId(0), iri: "http://example.org#Top.y".to_owned() }];
    let (doc, _) = accepted(&graph);
    assert_eq!(ref_ids(&doc.graph[0].has_output), vec!["http://example.org#Top.y".to_owned()]);
    let out = node(&doc, "http://example.org#Hand.con.out0");
    assert_eq!(ref_ids(&out.is_connected_to), vec!["http://example.org#Top.y".to_owned()]);
    let b = doc.graph.last().unwrap();
    assert_eq!(b.id, "http://example.org#Top.y");
    assert_eq!(b.is_of_data_type.as_ref().map(|r| r.id.as_str()), Some("S231:Real"));
}

#[test]
fn an_enum_parameter_block_is_deferred_with_a_warning_and_the_rest_exports() {
    let mut graph = constant_graph(vec![("k", real_value(2.0))]);
    let mut other = constant_graph(vec![("mode", Value::Enum { class: EnumClassId(2), ordinal: 1 })]);
    other.blocks[0].id = BlockId(1);
    other.blocks[0].outputs = vec![ConnectorId(1)];
    other.blocks[0].instance_iri = Some("http://example.org#Hand.mode".to_owned());
    graph.blocks.push(other.blocks.remove(0));
    graph.connectors.push(connector(1, 1, Dir::Out, ValueType::Real));
    let (doc, warnings) = accepted(&graph);
    assert_eq!(warnings.len(), 1);
    assert_eq!(warnings[0].severity, Severity::Warning);
    assert_eq!(warnings[0].code, DiagCode::ExportDeferred);
    assert_eq!(warnings[0].subject.as_deref(), Some("http://example.org#Hand.mode"));
    assert!(doc.graph.iter().all(|n| !n.id.starts_with("http://example.org#Hand.mode")));
    assert_eq!(ref_ids(&doc.graph[0].contains_block), vec![HAND_CON_SUBJECT.to_owned()]);
}

#[test]
fn a_graph_whose_only_block_is_deferred_is_rejected_as_total_deferral() {
    let graph = constant_graph(vec![("mode", Value::Enum { class: EnumClassId(2), ordinal: 1 })]);
    let diags = document(&graph).expect_err("nothing left to emit");
    assert_eq!(diags.len(), 2, "got: {diags:?}");
    assert_eq!(diags[0].severity, Severity::Warning);
    assert_eq!(diags[1].severity, Severity::Error);
    assert_eq!(diags[1].subject, None);
    assert!(diags[1].message.starts_with("CXF export requires at least one emitted runtime block"));
}

#[test]
fn repeated_exports_are_identical() {
    let graph = with_real_attrs(RealAttrs { unit: Some("K".to_owned()), ..RealAttrs::default() });
    let first = format!("{:?}", accepted(&graph).0);
    for _ in 0..3 {
        assert_eq!(format!("{:?}", accepted(&graph).0), first);
    }
}

#[test]
fn a_block_listing_a_missing_connector_is_rejected_not_a_panic() {
    let mut graph = constant_graph(vec![("k", real_value(2.0))]);
    graph.blocks[0].outputs.push(ConnectorId(9));
    let diags = rejection(&graph);
    assert_eq!(diags.len(), 1, "got: {diags:?}");
    assert_eq!(diags[0].subject.as_deref(), Some(HAND_CON_SUBJECT));
    assert_eq!(diags[0].message, STRUCTURE);

    let mut graph = abs_graph();
    graph.blocks[0].inputs.push(ConnectorId(9));
    let diags = rejection(&graph);
    assert_eq!(diags.len(), 1, "got: {diags:?}");
    assert_eq!(diags[0].subject.as_deref(), Some("http://example.org#Hand.abs"));
    assert_eq!(diags[0].message, STRUCTURE);
}

#[test]
fn exporting_twice_gives_the_same_answer() {
    let graph = abs_graph();
    let first = document(&graph);
    let second = document(&graph);
    match (first, second) {
        (Err(a), Err(b)) => {
            assert_eq!(a.len(), b.len());
            for (x, y) in a.iter().zip(b.iter()) {
                assert_eq!(x.message, y.message);
                assert_eq!(x.subject, y.subject);
            }
        },
        (Ok((_, wa)), Ok((_, wb))) => assert_eq!(wa.len(), wb.len()),
        _ => panic!("one export accepted and the other rejected"),
    }
}

#[test]
fn an_accepted_document_never_repeats_a_node_id() {
    let (doc, _) = accepted(&abs_graph());
    let mut ids: Vec<&str> = doc.graph.iter().map(|n| n.id.as_str()).collect();
    let total = ids.len();
    ids.sort();
    ids.dedup();
    assert_eq!(ids.len(), total);
}
