//! Port-identity matching: which document port belongs at which signature position.

use oce_cxf::diag::{DiagCode, Diagnostic, Severity};
use oce_cxf::model::{BlockId, BlockInstance, ConnectorId, ParamTable};
use oce_cxf::port_binding::{apply, check_and_bind, match_names, Binding};

fn order_of(iris: &[&str], names: &[&str]) -> Vec<usize> {
    match match_names(iris, names) {
        Binding::Permuted(order) => order,
        Binding::Positional => panic!("expected a name match, got Positional"),
        Binding::Partial { matched, total } => {
            panic!("expected a full name match, got Partial {matched}/{total}")
        }
    }
}

#[test]
fn alphabetical_document_order_is_permuted_into_signature_order() {
    let order = order_of(
        &["http://ex.org#loop.pid.u_m", "http://ex.org#loop.pid.u_s"],
        &["u_s", "u_m"],
    );
    assert_eq!(order, vec![1, 0]);

    let mut ports = [ConnectorId(70), ConnectorId(71)];
    apply(&order, &mut ports);
    assert_eq!(
        ports,
        [ConnectorId(71), ConnectorId(70)],
        "input 0 must end up holding the connector whose IRI names u_s"
    );
}

#[test]
fn declaration_order_is_the_identity_permutation() {
    let order = order_of(
        &["http://ex.org#loop.pid.u_s", "http://ex.org#loop.pid.u_m"],
        &["u_s", "u_m"],
    );
    assert_eq!(order, vec![0, 1]);
    let mut ports = [ConnectorId(4), ConnectorId(9)];
    apply(&order, &mut ports);
    assert_eq!(ports, [ConnectorId(4), ConnectorId(9)]);
}

#[test]
fn position_named_ports_bind_positionally_without_complaint() {
    assert!(matches!(
        match_names(
            &["http://ex.org#loop.pid.in0", "http://ex.org#loop.pid.in1"],
            &["u_s", "u_m"],
        ),
        Binding::Positional
    ));
}

#[test]
fn a_partial_name_match_is_reported_not_guessed() {
    assert!(matches!(
        match_names(
            &["http://ex.org#loop.pid.u_s", "http://ex.org#loop.pid.in1"],
            &["u_s", "u_m"],
        ),
        Binding::Partial {
            matched: 1,
            total: 2
        }
    ));
}

#[test]
fn duplicate_local_names_do_not_double_bind() {
    assert!(matches!(
        match_names(
            &["http://ex.org#a.u_s", "http://ex.org#b.u_s"],
            &["u_s", "u_m"],
        ),
        Binding::Partial {
            matched: 1,
            total: 2
        }
    ));
}

#[test]
fn count_disagreement_defers_to_the_arity_guard() {
    assert!(matches!(
        match_names(&["http://ex.org#loop.pid.u_s"], &["u_s", "u_m"]),
        Binding::Positional
    ));
    assert!(matches!(
        match_names(
            &[
                "http://ex.org#a.u_s",
                "http://ex.org#a.u_m",
                "http://ex.org#a.x"
            ],
            &["u_s", "u_m"],
        ),
        Binding::Positional
    ));
}

#[test]
fn iris_without_a_local_segment_fall_back_to_position() {
    assert!(matches!(
        match_names(&["urn:a", "urn:b"], &["u_s", "u_m"]),
        Binding::Positional
    ));
}

#[test]
fn a_wide_permutation_maps_every_position() {
    let order = order_of(
        &[
            "http://ex.org#l.f1",
            "http://ex.org#l.f2",
            "http://ex.org#l.u",
            "http://ex.org#l.x1",
            "http://ex.org#l.x2",
        ],
        &["x1", "f1", "x2", "f2", "u"],
    );
    assert_eq!(order, vec![3, 0, 4, 1, 2]);
    let mut ports = [
        ConnectorId(0),
        ConnectorId(1),
        ConnectorId(2),
        ConnectorId(3),
        ConnectorId(4),
    ];
    apply(&order, &mut ports);
    assert_eq!(
        ports,
        [
            ConnectorId(3),
            ConnectorId(0),
            ConnectorId(4),
            ConnectorId(1),
            ConnectorId(2)
        ]
    );
    let mut seen: Vec<u32> = ports.iter().map(|c| c.0).collect();
    seen.sort_unstable();
    assert_eq!(seen, vec![0, 1, 2, 3, 4]);
}

#[test]
fn an_empty_side_binds_trivially() {
    assert!(matches!(match_names(&[], &[]), Binding::Positional));
}

#[test]
fn the_reference_generators_own_port_order_binds_correctly() {
    let order = order_of(
        &[
            "http://data.ashrae.org/S231#Buildings.Controls.OBC.CDL.Reals.PID.u_m",
            "http://data.ashrae.org/S231#Buildings.Controls.OBC.CDL.Reals.PID.u_s",
        ],
        &["u_s", "u_m"],
    );
    assert_eq!(
        order,
        vec![1, 0],
        "signature position 0 is u_s, which modelica-json lists second"
    );
}

// ---- the whole check ----

#[test]
fn positional_markers_name_no_declared_port() {
    // A marker at its own position does not complete a partial name match.
    assert!(matches!(
        match_names(&["http://ex.org#p.u_s", "http://ex.org#p.out1"], &["u_s", "u_m"]),
        Binding::Partial {
            matched: 1,
            total: 2
        }
    ));
    // A duplicate name is consumed once, left to right.
    assert_eq!(
        order_of(
            &["http://ex.org#p.u_m", "http://ex.org#p.u_s", "http://ex.org#q.u_m"],
            &["u_m", "u_s", "u_m"]
        ),
        vec![0, 1, 2]
    );
}

fn block(inputs: Vec<u32>, outputs: Vec<u32>) -> BlockInstance {
    BlockInstance {
        id: BlockId(0),
        class_iri: "https://data.ashrae.org/S231#CDL.Reals.PID".to_string(),
        inputs: inputs.into_iter().map(ConnectorId).collect(),
        outputs: outputs.into_iter().map(ConnectorId).collect(),
        params: ParamTable::default(),
        instance_iri: None,
    }
}

#[test]
fn an_arity_disagreement_is_reported_and_nothing_is_bound() {
    let mut b = block(vec![1], vec![2]);
    let mut diags: Vec<Diagnostic> = Vec::new();
    check_and_bind(
        &mut b,
        "CDL.Reals.PID",
        "http://ex.org#pid",
        (2, 1),
        (&["http://ex.org#pid.u_m"], &["http://ex.org#pid.y"]),
        Some((&["u_s", "u_m"], &["y"])),
        &mut diags,
    );
    assert_eq!(diags.len(), 1);
    assert_eq!(diags[0].severity, Severity::Error);
    assert_eq!(diags[0].code, DiagCode::MalformedDocument);
    assert_eq!(
        diags[0].message,
        "block interface mismatch for `CDL.Reals.PID`: declared 1 input(s)/1 output(s), class requires 2/1"
    );
    assert_eq!(diags[0].subject.as_deref(), Some("http://ex.org#pid"));
    assert_eq!(b, block(vec![1], vec![2]));
}

#[test]
fn a_named_side_is_permuted_and_a_partial_side_reported() {
    let mut b = block(vec![10, 11], vec![20, 21]);
    let mut diags: Vec<Diagnostic> = Vec::new();
    check_and_bind(
        &mut b,
        "CDL.Reals.PID",
        "http://ex.org#pid",
        (2, 2),
        (
            &["http://ex.org#pid.u_m", "http://ex.org#pid.u_s"],
            &["http://ex.org#pid.y", "http://ex.org#pid.z"],
        ),
        Some((&["u_s", "u_m"], &["y", "w"])),
        &mut diags,
    );
    assert_eq!(b.inputs, vec![ConnectorId(11), ConnectorId(10)]);
    assert_eq!(b.outputs, vec![ConnectorId(20), ConnectorId(21)]);
    assert_eq!(diags.len(), 1);
    assert_eq!(diags[0].code, DiagCode::PortNameMismatch);
    assert_eq!(
        diags[0].message,
        "block `CDL.Reals.PID`: 1 of 2 output port(s) name a declared port of the class and the rest do not, so the port list can be read neither by name nor by position"
    );
}

#[test]
fn a_class_without_port_names_stays_positional() {
    let mut b = block(vec![10, 11], vec![20]);
    let mut diags: Vec<Diagnostic> = Vec::new();
    check_and_bind(
        &mut b,
        "CDL.Reals.MultiSum",
        "http://ex.org#sum",
        (2, 1),
        (
            &["http://ex.org#sum.u2", "http://ex.org#sum.u1"],
            &["http://ex.org#sum.y"],
        ),
        None,
        &mut diags,
    );
    assert!(diags.is_empty());
    assert_eq!(b, block(vec![10, 11], vec![20]));
}
