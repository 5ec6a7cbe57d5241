//! The resolver's document checks: value types, single assignment, diagnostic order, and the
//! declared boundary interface.

use oce_cxf::array_nodes::reject_unsupported;
use oce_cxf::boundary_inputs::refuse_role_aliases;
use oce_cxf::boundary_outputs::{check_declared_interface, materialize};
use oce_cxf::diag::{DiagCode, Diagnostic, Severity};
use oce_cxf::diag_order::finalize_diags;
use oce_cxf::dto::{CxfDocument, Context, IriRef, Node, OneOrMany};
use oce_cxf::model::{Attrs, BlockId, Connection, Connector, ConnectorId, Dir, RealAttrs, ValueType};
use oce_cxf::single_assignment::{check, subject_of};
use oce_cxf::specialize::Specialization;
use oce_cxf::strmap::StrMap;
use oce_cxf::value_types::{derive_value_type, value_type_of_datatype};
use oce_cxf::instance_interface::{
    derive_one, ClassEntry, ClassPorts, InstanceDerivation, SynthesizedConnector,
};

fn iri_ref(id: &str) -> IriRef {
    IriRef { id: id.to_owned(), other: vec![] }
}

fn refs(ids: &[&str]) -> OneOrMany<IriRef> {
    match ids.len() {
        0 => OneOrMany::Absent,
        1 => OneOrMany::One(iri_ref(ids[0])),
        _ => OneOrMany::Many(ids.iter().map(|i| iri_ref(i)).collect()),
    }
}

fn node(id: &str) -> Node {
    Node { id: id.to_owned(), ..Node::default() }
}

fn typed(id: &str, ty: &str) -> Node {
    Node { types: Some(OneOrMany::One(ty.to_owned())), ..node(id) }
}

fn doc(graph: Vec<Node>) -> CxfDocument {
    CxfDocument { context: Context::List(vec![]), graph, other: vec![] }
}

fn connector(id: u32, dir: Dir, iri: Option<&str>) -> Connector {
    Connector {
        id: ConnectorId(id),
        block: BlockId(0),
        dir,
        value_type: ValueType::Real,
        iri: iri.map(str::to_owned),
        attrs: Attrs::Real(RealAttrs::default()),
    }
}

fn diag(code: DiagCode, message: &str, subject: Option<&str>) -> Diagnostic {
    Diagnostic { severity: Severity::Error, code, message: message.to_owned(), subject: subject.map(str::to_owned) }
}

// ---- value types ----

#[test]
fn datatype_terms_name_the_three_scalar_types() {
    assert_eq!(value_type_of_datatype("S231:Real"), Some(ValueType::Real));
    assert_eq!(value_type_of_datatype("http://data.ashrae.org/S231P#Integer"), Some(ValueType::Integer));
    assert_eq!(value_type_of_datatype("Boolean"), Some(ValueType::Boolean));
    assert_eq!(value_type_of_datatype("S231:String"), None);
    assert_eq!(value_type_of_datatype("S231:RealInput"), None);
}

#[test]
fn the_datatype_term_decides_before_the_port_type() {
    let mut diags = Vec::new();
    let n = Node {
        is_of_data_type: Some(iri_ref("S231:Integer")),
        ..typed("http://x#c", "S231:RealInput")
    };
    assert_eq!(derive_value_type(&n, &mut diags), ValueType::Integer);
    assert!(diags.is_empty());
}

#[test]
fn an_unrecognized_datatype_is_an_unresolved_reference_with_a_real_placeholder() {
    let mut diags = Vec::new();
    let n = Node { is_of_data_type: Some(iri_ref("S231:Text")), ..node("http://x#c") };
    assert_eq!(derive_value_type(&n, &mut diags), ValueType::Real);
    assert_eq!(diags.len(), 1);
    assert_eq!(diags[0].code, DiagCode::UnresolvedReference);
    assert_eq!(diags[0].subject.as_deref(), Some("S231:Text"));
}

#[test]
fn port_types_decide_by_their_term_prefix() {
    let mut diags = Vec::new();
    assert_eq!(derive_value_type(&typed("a", "S231:RealInput"), &mut diags), ValueType::Real);
    assert_eq!(derive_value_type(&typed("b", "S231:IntegerOutput"), &mut diags), ValueType::Integer);
    assert_eq!(derive_value_type(&typed("c", "S231:BooleanInput"), &mut diags), ValueType::Boolean);
    assert!(diags.is_empty());
    assert_eq!(derive_value_type(&typed("d", "S231:AnalogInput"), &mut diags), ValueType::Real);
    assert_eq!(diags[0].severity, Severity::Warning);
    assert_eq!(diags[0].code, DiagCode::AnalogCoercedToReal);
    assert_eq!(derive_value_type(&typed("e", "S231:StringInput"), &mut diags), ValueType::Real);
    assert_eq!(diags[1].message, "String connector not permitted (§7.8)");
    assert_eq!(derive_value_type(&node("f"), &mut diags), ValueType::Real);
    assert_eq!(diags[2].message, "connector lacks a recognized data type");
    assert_eq!(diags[2].subject.as_deref(), Some("f"));
}

// ---- single assignment ----

#[test]
fn connector_subjects_fall_back_to_a_positional_tag() {
    assert_eq!(subject_of(&connector(12, Dir::In, None)), "connector#12");
    assert_eq!(subject_of(&connector(12, Dir::In, Some("http://x#a.u"))), "http://x#a.u");
}

#[test]
fn inputs_must_be_driven_exactly_once_unless_they_are_boundary_inputs() {
    let connectors = vec![
        connector(0, Dir::Out, None),
        connector(1, Dir::In, None),
        connector(2, Dir::In, Some("http://x#b.u")),
        connector(3, Dir::In, None),
        connector(4, Dir::In, None),
        connector(5, Dir::In, None),
    ];
    let connections = vec![
        Connection { from: ConnectorId(0), to: ConnectorId(1) },
        Connection { from: ConnectorId(0), to: ConnectorId(2) },
        Connection { from: ConnectorId(0), to: ConnectorId(2) },
        Connection { from: ConnectorId(0), to: ConnectorId(5) },
    ];
    let mut diags = Vec::new();
    check(&connectors, &connections, &[ConnectorId(3), ConnectorId(5)], &mut diags);
    assert_eq!(diags.len(), 2, "{diags:?}");
    assert_eq!(diags[0].code, DiagCode::SingleAssignment);
    assert_eq!(diags[0].message, "input is multiply driven (in-degree 2)");
    assert_eq!(diags[0].subject.as_deref(), Some("http://x#b.u"));
    assert_eq!(diags[1].message, "input is undriven (in-degree 0)");
    assert_eq!(diags[1].subject.as_deref(), Some("connector#4"));
}

// ---- diagnostic order ----

#[test]
fn diagnostics_sort_by_connector_then_subject_then_code_then_message() {
    let mut conn_of_iri = StrMap::new();
    conn_of_iri.insert("http://x#a.y", ConnectorId(3));
    let diags = vec![
        diag(DiagCode::MalformedDocument, "z", Some("http://x#zz")),
        diag(DiagCode::SingleAssignment, "b", Some("connector#10")),
        diag(DiagCode::MalformedDocument, "a", None),
        diag(DiagCode::SingleAssignment, "a", Some("connector#2")),
        diag(DiagCode::MalformedDocument, "m", Some("http://x#a.y")),
        diag(DiagCode::GroundingFailed, "m", Some("http://x#a.y")),
        diag(DiagCode::MalformedDocument, "y", Some("http://x#aa")),
    ];
    let sorted = finalize_diags(diags, &conn_of_iri);
    let got: Vec<(Option<&str>, &str)> =
        sorted.iter().map(|d| (d.subject.as_deref(), d.message.as_str())).collect();
    assert_eq!(
        got,
        vec![
            (Some("connector#2"), "a"),
            (Some("http://x#a.y"), "m"),
            (Some("http://x#a.y"), "m"),
            (Some("connector#10"), "b"),
            (None, "a"),
            (Some("http://x#aa"), "y"),
            (Some("http://x#zz"), "z"),
        ]
    );
    assert_eq!(sorted[1].code, DiagCode::GroundingFailed);
    assert_eq!(sorted[2].code, DiagCode::MalformedDocument);
}

#[test]
fn a_signed_or_oversized_connector_tag_sorts_with_the_other_subjects() {
    let conn_of_iri: StrMap<ConnectorId> = StrMap::new();
    let diags = vec![
        diag(DiagCode::MalformedDocument, "x", Some("connector#99999999999")),
        diag(DiagCode::MalformedDocument, "x", Some("connector#-1")),
        diag(DiagCode::MalformedDocument, "x", Some("connector#+7")),
    ];
    let sorted = finalize_diags(diags, &conn_of_iri);
    let got: Vec<&str> = sorted.iter().map(|d| d.subject.as_deref().unwrap()).collect();
    assert_eq!(got, vec!["connector#+7", "connector#-1", "connector#99999999999"]);
}

// ---- declared boundary outputs ----

#[test]
fn boundary_outputs_materialize_in_document_order() {
    let mut sources = StrMap::new();
    sources.insert("http://x#top.y2", ConnectorId(4));
    sources.insert("http://x#top.y1", ConnectorId(1));
    let d = doc(vec![node("http://x#top"), node("http://x#top.y1"), node("http://x#top.y2")]);
    let outs = materialize(&d, &sources);
    let got: Vec<(&str, u32)> = outs.iter().map(|o| (o.iri.as_str(), o.source.0)).collect();
    assert_eq!(got, vec![("http://x#top.y1", 1), ("http://x#top.y2", 4)]);
}

#[test]
fn declared_outputs_are_refused_when_shadowed_or_multiply_driven_and_warned_when_undriven() {
    let top = Node {
        has_output: refs(&["http://x#top.in", "http://x#a.y", "http://x#top.y", "http://x#top.free", "http://x#top.free"]),
        ..node("http://x#top")
    };
    let bin = vec!["http://x#top.in".to_owned()];
    let bout: Vec<String> =
        ["http://x#top.in", "http://x#a.y", "http://x#top.y", "http://x#top.free"].iter().map(|s| s.to_string()).collect();
    let mut conn_of_iri = StrMap::new();
    conn_of_iri.insert("http://x#a.y", ConnectorId(0));
    let node_ids: Vec<String> = vec!["http://x#top.free".to_owned(), "http://x#top.y".to_owned()];
    let drivers = vec![("http://x#top.y".to_owned(), vec!["http://x#a.y".to_owned(), "http://x#b.y".to_owned()])];
    let mut diags = Vec::new();
    check_declared_interface(&top, &bin, &bout, &conn_of_iri, &node_ids, &drivers, &mut diags);
    assert_eq!(diags.len(), 4, "{diags:?}");
    assert_eq!(diags[0].code, DiagCode::BoundaryOutputShadowsConnector);
    assert_eq!(diags[0].message, "boundary output IRI is also a boundary input");
    assert_eq!(diags[1].message, "boundary output shadows an instance port connector");
    assert_eq!(diags[1].subject.as_deref(), Some("http://x#a.y"));
    assert_eq!(diags[2].code, DiagCode::SingleAssignment);
    assert_eq!(diags[2].message, "boundary output is multiply driven (distinct drivers 2)");
    assert_eq!(diags[3].severity, Severity::Warning);
    assert_eq!(diags[3].code, DiagCode::UndrivenBoundaryOutput);
    assert_eq!(diags[3].subject.as_deref(), Some("http://x#top.free"));
}

// ---- declared boundary inputs ----

#[test]
fn a_root_input_aliasing_a_port_block_or_member_is_refused_once() {
    let top = Node {
        has_input: refs(&["http://x#a.u", "http://x#b", "http://x#b.k", "http://x#top.u", "http://x#a.u"]),
        ..node("http://x#top")
    };
    let bin: Vec<String> =
        ["http://x#a.u", "http://x#b", "http://x#b.k", "http://x#top.u"].iter().map(|s| s.to_string()).collect();
    let mut conn_of_iri = StrMap::new();
    conn_of_iri.insert("http://x#a.u", ConnectorId(0));
    let insts = vec![Node { has_parameter: refs(&["http://x#b.k"]), ..node("http://x#b") }];
    let mut diags = Vec::new();
    refuse_role_aliases(&top, &bin, &conn_of_iri, &insts, &mut diags);
    let got: Vec<&str> = diags.iter().map(|d| d.message.as_str()).collect();
    assert_eq!(
        got,
        vec![
            "boundary input shadows an instance port connector",
            "boundary input shadows a contained block",
            "boundary input shadows an instance member",
        ]
    );
    assert!(diags.iter().all(|d| d.code == DiagCode::MalformedDocument));
}

// ---- array-valued nodes ----

#[test]
fn active_array_connectors_and_instances_are_refused_but_parameters_are_not() {
    let parent = Node {
        has_input: refs(&["http://x#top.u"]),
        contains_block: refs(&["http://x#top.blk", "http://x#top.gone"]),
        has_parameter: refs(&["http://x#top.k"]),
        ..node("http://x#top")
    };
    let arr = |id: &str| Node { is_array: Some(true), ..node(id) };
    let d = doc(vec![
        parent,
        arr("http://x#top.u"),
        Node { size_dims: Some("2".to_owned()), ..node("http://x#top.blk") },
        arr("http://x#top.k"),
        arr("http://x#top.gone"),
        node("http://x#top.plain"),
    ]);
    let sp = Specialization { inactive: vec!["http://x#top.gone".to_owned()] };
    let mut diags = Vec::new();
    reject_unsupported(&d, &sp, &mut diags);
    assert_eq!(diags.len(), 2, "{diags:?}");
    assert!(diags[0].message.starts_with("composite/array-connector: array-valued connector nodes are not supported"));
    assert_eq!(diags[0].subject.as_deref(), Some("http://x#top.u"));
    assert_eq!(diags[0].code, DiagCode::NonSubsetConstruct);
    assert!(diags[1].message.starts_with("composite/array-instance: "));
    assert_eq!(diags[1].subject.as_deref(), Some("http://x#top.blk"));
}

// ---- hasInstance interface derivation ----

fn empty_derivation() -> InstanceDerivation {
    InstanceDerivation {
        interfaces: StrMap::new(),
        skipped: vec![],
        synthesized: vec![],
        member_value_fallback: StrMap::new(),
        param_appendix: StrMap::new(),
    }
}

fn strings(v: &[&str]) -> Vec<String> {
    v.iter().map(|s| s.to_string()).collect()
}

fn add_class() -> (Option<ClassPorts>, Option<ClassEntry>) {
    (
        Some(ClassPorts { inputs: strings(&["u1", "u2"]), outputs: strings(&["y"]) }),
        Some(ClassEntry {
            params: strings(&["k1", "k2"]),
            input_types: vec![ValueType::Real, ValueType::Integer],
            output_types: vec![ValueType::Real],
        }),
    )
}

struct Run {
    out: InstanceDerivation,
    minted: Vec<String>,
    synth: Vec<((usize, usize), SynthesizedConnector)>,
    diags: Vec<Diagnostic>,
}

fn run(node: &Node, node_ids: &[&str], ports: Option<ClassPorts>, entry: Option<ClassEntry>) -> Run {
    let mut r = Run { out: empty_derivation(), minted: vec![], synth: vec![], diags: vec![] };
    let mut pos = StrMap::new();
    pos.insert(node.id.as_str(), 4usize);
    derive_one(
        BlockId(2),
        node,
        "CDL.Reals.Add",
        &ports,
        &entry,
        &strings(node_ids),
        &pos,
        &Specialization { inactive: vec![] },
        &vec![],
        &vec![],
        &mut r.minted,
        &mut r.synth,
        &mut r.out,
        &mut r.diags,
    );
    r
}

#[test]
fn a_listed_interface_derives_in_signature_order_with_synthesis_and_padding() {
    let node = Node {
        has_instance: refs(&["http://x#add.k2", "http://x#add.u2", "http://x#add.u1", "http://x#add.k1"]),
        ..node("http://x#add")
    };
    let (ports, entry) = add_class();
    let r = run(&node, &["http://x#add.u1", "http://x#add.k1", "http://x#add.k2"], ports, entry);
    assert!(r.diags.is_empty(), "{:?}", r.diags);
    let iface = r.out.interfaces.get("http://x#add").expect("derived");
    assert_eq!(iface.inputs, strings(&["http://x#add.u1", "http://x#add.u2"]));
    assert_eq!(iface.outputs, strings(&["http://x#add.y"]));
    assert_eq!(r.out.member_value_fallback.get("http://x#add.u1"), Some(&ValueType::Real));
    assert_eq!(r.minted, strings(&["http://x#add.u2", "http://x#add.y"]));
    let synth: Vec<((usize, usize), &str, Dir, ValueType)> =
        r.synth.iter().map(|(k, s)| (*k, s.identity.as_str(), s.dir, s.value_type)).collect();
    assert_eq!(
        synth,
        vec![((4, 1), "http://x#add.u2", Dir::In, ValueType::Integer), ((4, 2), "http://x#add.y", Dir::Out, ValueType::Real)]
    );
    assert_eq!(r.out.param_appendix.get("http://x#add"), Some(&strings(&["http://x#add.k1", "http://x#add.k2"])));
}

#[test]
fn a_class_without_port_names_is_refused_whole() {
    let node = Node { has_instance: refs(&["http://x#m.u"]), ..node("http://x#m") };
    let (_, entry) = add_class();
    let r = run(&node, &[], None, entry);
    assert_eq!(r.diags.len(), 1);
    assert!(r.diags[0].message.starts_with("composite/vector-port-instance: instance of class `CDL.Reals.Add`"));
    assert_eq!(r.out.skipped, strings(&["http://x#m"]));
}

#[test]
fn unsupported_and_foreign_members_skip_the_instance() {
    let node = Node {
        has_instance: refs(&["http://x#add.u1", "http://x#other.u2", "http://x#add.zz"]),
        ..node("http://x#add")
    };
    let (ports, entry) = add_class();
    let r = run(&node, &[], ports, entry);
    let messages: Vec<&str> = r.diags.iter().map(|d| d.message.as_str()).collect();
    assert_eq!(
        messages,
        vec![
            "composite/unsupported-instance-member: member is not a direct member of `http://x#add`",
            "composite/unsupported-instance-member: `zz` is neither a declared port nor a declared parameter of `CDL.Reals.Add`",
        ]
    );
    assert_eq!(r.out.skipped, strings(&["http://x#add"]));
    assert!(r.out.interfaces.get("http://x#add").is_none());
    assert!(r.minted.is_empty());
}

#[test]
fn a_parameter_declared_on_both_routes_is_a_colliding_identity() {
    let node = Node {
        has_instance: refs(&["http://x#add.k1"]),
        has_parameter: refs(&["http://x#add.k1"]),
        ..node("http://x#add")
    };
    let (ports, entry) = add_class();
    let r = run(&node, &["http://x#add.k1"], ports, entry);
    assert_eq!(r.diags.len(), 1);
    assert_eq!(r.diags[0].code, DiagCode::DuplicateId);
    assert_eq!(
        r.diags[0].message,
        "composite/colliding-member-identity: parameter `k1` is declared by both `hasParameter` and `hasInstance` on `http://x#add`"
    );
}

#[test]
fn a_nodeless_parameter_member_cannot_ground() {
    let node = Node { has_instance: refs(&["http://x#add.k2"]), ..node("http://x#add") };
    let (ports, entry) = add_class();
    let r = run(&node, &[], ports, entry);
    assert_eq!(r.diags.len(), 1);
    assert_eq!(r.diags[0].code, DiagCode::GroundingFailed);
    assert_eq!(r.diags[0].subject.as_deref(), Some("http://x#add.k2"));
    assert!(r.out.interfaces.get("http://x#add").is_some());
    assert!(r.out.param_appendix.get("http://x#add").is_none());
}
