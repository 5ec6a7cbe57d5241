use oce_cxf::export_defer::{
    enum_class_label, msg_enum_defer_cascade, msg_enum_defer_connector, msg_enum_defer_param,
};
use oce_cxf::model::EnumClassId;

#[test]
fn rendered_deferral_messages_are_byte_exact() {
    assert_eq!(
        msg_enum_defer_connector("blk", "EnumClass#2"),
        "export subset: deferring block `blk` — enumeration-typed connector (class \
         `EnumClass#2`) has no CXF literal form; the block and its downstream consumers are \
         omitted from the emitted document so the enum-free remainder can export"
    );
    assert_eq!(
        msg_enum_defer_param("blk", "controllerType", "EnumClass#1"),
        "export subset: deferring block `blk` — parameter `controllerType` is \
         enumeration-valued (class `EnumClass#1`); the block and its downstream consumers are \
         omitted from the emitted document so the enum-free remainder can export"
    );
    assert_eq!(
        msg_enum_defer_cascade("blk", "in1"),
        "export subset: deferring block `blk` — all drivers of input connector `in1` were \
         deferred (upstream enumeration); the block is omitted from the emitted document so \
         the enum-free remainder can export"
    );
}

#[test]
fn a_placeholder_shaped_value_renders_literally() {
    let connector = msg_enum_defer_connector("blk{class}", "EnumClass#2");
    assert!(
        connector.contains("block `blk{class}`") && connector.contains("class `EnumClass#2`"),
        "the subject must keep its literal braces: {connector}"
    );

    let param = msg_enum_defer_param("blk{name}", "{class}", "EnumClass#3");
    assert!(
        param.contains("block `blk{name}`")
            && param.contains("parameter `{class}`")
            && param.contains("class `EnumClass#3`"),
        "subject, name, and class must each land verbatim: {param}"
    );

    let cascade = msg_enum_defer_cascade("blk{conn}", "in0");
    assert!(
        cascade.contains("block `blk{conn}`")
            && cascade.contains("input connector `in0`")
            && !cascade.contains("blkin0"),
        "the subject's braces must not be consumed by the connector slot: {cascade}"
    );
}

#[test]
fn no_slot_ordering_can_corrupt_another_slots_value() {
    let param = msg_enum_defer_param("blk{name}{class}", "{subject}{class}", "EnumClass#3");
    assert!(
        param.contains("block `blk{name}{class}`"),
        "a later step must not rewrite the subject's markers: {param}"
    );
    assert!(
        param.contains("parameter `{subject}{class}`"),
        "a later step must not rewrite the name's markers: {param}"
    );
    assert!(
        param.contains("class `EnumClass#3`"),
        "the class slot must still be filled: {param}"
    );

    let connector = msg_enum_defer_connector("blk{class}{subject}", "EnumClass#2");
    assert!(
        connector.contains("block `blk{class}{subject}`")
            && connector.contains("class `EnumClass#2`"),
        "a self-naming marker in the subject must survive too: {connector}"
    );

    let cascade = msg_enum_defer_cascade("blk{conn}{subject}", "in2");
    assert!(
        cascade.contains("block `blk{conn}{subject}`")
            && cascade.contains("input connector `in2`"),
        "the cascade subject's markers must survive both orders: {cascade}"
    );
}

#[test]
fn the_label_renders_the_decimal_class_id() {
    assert_eq!(enum_class_label(EnumClassId(2)), "EnumClass#2");
    assert_eq!(enum_class_label(EnumClassId(3)), "EnumClass#3");
    assert_eq!(enum_class_label(EnumClassId(110)), "EnumClass#110");
    assert_eq!(enum_class_label(EnumClassId(0)), "EnumClass#0");
}

#[test]
fn every_pinned_enum_class_gets_a_distinct_label() {
    let pinned = [1u32, 2, 3, 4, 101, 102, 103, 104, 105, 106, 107, 108, 109, 110];
    let labels: std::collections::BTreeSet<String> =
        pinned.iter().map(|id| enum_class_label(EnumClassId(*id))).collect();
    assert_eq!(labels.len(), pinned.len(), "each pinned class needs its own label, got: {labels:?}");
}

// ---- the deferral fixpoint against a plain repeated-scan reference ----

use std::collections::BTreeSet;

use oce_cxf::diag::{DiagCode, Diagnostic};
use oce_cxf::export_defer::{block_subject, deferral_set, has_enum_connector, has_enum_param};
use oce_cxf::model::{
    Attrs, BlockId, BlockInstance, Connection, Connector, ConnectorId, Dir, ModelGraph, ParamTable, RealAttrs, ValueType,
};

fn defer(message: String, subject: &str) -> Diagnostic {
    Diagnostic::warning(DiagCode::ExportDeferred, message).with_subject(subject.to_owned())
}

fn repeated_scan_reference(g: &ModelGraph) -> (BTreeSet<usize>, Vec<Diagnostic>) {
    let mut warnings = Vec::new();
    let enum_blocks = (0..g.blocks.len())
        .filter(|&bi| has_enum_connector(g, bi).is_some() || has_enum_param(g, bi).is_some())
        .collect::<BTreeSet<_>>();
    let mut deferred = enum_blocks.clone();
    for &bi in &enum_blocks {
        let subject = block_subject(g, bi);
        if let Some(id) = has_enum_connector(g, bi) {
            warnings.push(defer(msg_enum_defer_connector(&subject, &enum_class_label(id)), &subject));
        } else if let Some((name, id)) = has_enum_param(g, bi) {
            warnings.push(defer(msg_enum_defer_param(&subject, name, &enum_class_label(id)), &subject));
        }
    }
    let mut grew = true;
    while grew {
        grew = false;
        for (bi, block) in g.blocks.iter().enumerate() {
            if deferred.contains(&bi) {
                continue;
            }
            'inputs: for (k, input) in block.inputs.iter().enumerate() {
                let drivers = g
                    .connections
                    .iter()
                    .filter_map(|connection| (connection.to == *input).then_some(connection.from));
                let mut found = false;
                for driver_id in drivers {
                    found = true;
                    let Some(driver) = g.connectors.get(driver_id.0 as usize) else {
                        continue 'inputs;
                    };
                    if !deferred.contains(&(driver.block.0 as usize)) {
                        continue 'inputs;
                    }
                }
                if found {
                    deferred.insert(bi);
                    grew = true;
                    let subject = block_subject(g, bi);
                    warnings.push(defer(msg_enum_defer_cascade(&subject, &format!("in{k}")), &subject));
                    break 'inputs;
                }
            }
        }
    }
    (deferred, warnings)
}

fn chain_graph(block_count: usize, reverse: bool) -> ModelGraph {
    let enum_block = if reverse { block_count - 1 } else { 0 };
    let mut graph = ModelGraph::default();
    for bi in 0..block_count {
        let block_id = BlockId(bi as u32);
        let input_id = ConnectorId((bi * 2) as u32);
        let output_id = ConnectorId(input_id.0 + 1);
        graph.connectors.push(Connector {
            id: input_id,
            block: block_id,
            dir: Dir::In,
            value_type: ValueType::Real,
            iri: None,
            attrs: Attrs::Real(RealAttrs::default()),
        });
        graph.connectors.push(Connector {
            id: output_id,
            block: block_id,
            dir: Dir::Out,
            value_type: if bi == enum_block {
                ValueType::Enum(EnumClassId(1))
            } else {
                ValueType::Real
            },
            iri: None,
            attrs: if bi == enum_block { Attrs::Enum } else { Attrs::Real(RealAttrs::default()) },
        });
        graph.blocks.push(BlockInstance {
            id: block_id,
            class_iri: "CDL.Reals.Add".to_owned(),
            inputs: vec![input_id],
            outputs: vec![output_id],
            params: ParamTable::default(),
            instance_iri: Some(format!("block{bi}")),
        });
    }
    for bi in 0..block_count - 1 {
        let (driver, target) = if reverse { (bi + 1, bi) } else { (bi, bi + 1) };
        graph.connections.push(Connection {
            from: ConnectorId((driver * 2 + 1) as u32),
            to: ConnectorId((target * 2) as u32),
        });
    }
    graph
}

fn deferral(graph: &ModelGraph) -> (BTreeSet<usize>, Vec<Diagnostic>) {
    let (order, warnings) = deferral_set(graph);
    (order.into_iter().collect(), warnings)
}

#[test]
fn ordered_worklist_matches_repeated_scans_on_both_chain_directions() {
    for block_count in [2, 3, 8, 32, 128] {
        for reverse in [false, true] {
            let graph = chain_graph(block_count, reverse);
            assert_eq!(
                deferral(&graph),
                repeated_scan_reference(&graph),
                "block_count={block_count}, reverse={reverse}"
            );
        }
    }
}

#[test]
fn ordered_worklist_matches_every_three_block_topology() {
    for enum_mask in 0_u8..8 {
        for edge_mask in 0_u8..64 {
            let mut graph = chain_graph(3, false);
            graph.connections.clear();
            for bi in 0..3 {
                graph.connectors[bi * 2 + 1].value_type = if enum_mask & (1 << bi) != 0 {
                    ValueType::Enum(EnumClassId(1))
                } else {
                    ValueType::Real
                };
            }
            let mut edge_bit = 0;
            for driver in 0..3 {
                for target in 0..3 {
                    if driver == target {
                        continue;
                    }
                    if edge_mask & (1 << edge_bit) != 0 {
                        graph.connections.push(Connection {
                            from: ConnectorId((driver * 2 + 1) as u32),
                            to: ConnectorId((target * 2) as u32),
                        });
                    }
                    edge_bit += 1;
                }
            }
            assert_eq!(
                deferral(&graph),
                repeated_scan_reference(&graph),
                "enum_mask={enum_mask:03b}, edge_mask={edge_mask:06b}"
            );
        }
    }
}

#[test]
fn a_chain_defers_downstream_in_scan_order() {
    let graph = chain_graph(3, false);
    let (order, warnings) = deferral_set(&graph);
    assert_eq!(order, vec![0, 1, 2]);
    assert_eq!(warnings.len(), 3);
    assert_eq!(
        warnings[1].message,
        msg_enum_defer_cascade("block1", "in0")
    );
    assert_eq!(warnings[1].subject.as_deref(), Some("block1"));
}
