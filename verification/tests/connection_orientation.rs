//! Canonical orientation of authored connections.

use oce_cxf::connection_orientation::{orient_edge, RelationMultiplicity};
use oce_cxf::model::{Attrs, BlockId, Connector, ConnectorId, Dir, RealAttrs, ValueType};
use oce_cxf::specialize::Specialization;
use oce_cxf::strmap::StrMap;

fn connector(id: u32, dir: Dir) -> Connector {
    Connector {
        id: ConnectorId(id),
        block: BlockId(0),
        dir,
        value_type: ValueType::Real,
        iri: None,
        attrs: Attrs::Real(RealAttrs::default()),
    }
}

fn setup() -> (StrMap<ConnectorId>, Vec<Connector>) {
    let map = StrMap {
        entries: vec![("a.y".to_owned(), ConnectorId(0)), ("b.u".to_owned(), ConnectorId(1))],
    };
    (map, vec![connector(0, Dir::Out), connector(1, Dir::In)])
}

fn strings(v: &[&str]) -> Vec<String> {
    v.iter().map(|s| (*s).to_owned()).collect()
}

#[test]
fn an_input_subject_edge_is_reanchored_on_its_driver() {
    let (map, conns) = setup();
    assert_eq!(orient_edge("b.u", "a.y", &Vec::new(), &Vec::new(), &map, &conns), ("a.y", "b.u"));
    assert_eq!(orient_edge("a.y", "b.u", &Vec::new(), &Vec::new(), &map, &conns), ("a.y", "b.u"));
}

#[test]
fn unresolved_or_same_direction_pairs_stand_as_authored() {
    let (map, conns) = setup();
    assert_eq!(orient_edge("b.u", "x", &Vec::new(), &Vec::new(), &map, &conns), ("b.u", "x"));
    assert_eq!(orient_edge("b.u", "b.u", &Vec::new(), &Vec::new(), &map, &conns), ("b.u", "b.u"));
}

#[test]
fn boundary_ports_orient_by_their_role() {
    let (map, conns) = setup();
    let bin = strings(&["top.u"]);
    let bout = strings(&["top.y"]);
    assert_eq!(orient_edge("b.u", "top.u", &bin, &bout, &map, &conns), ("top.u", "b.u"));
    assert_eq!(orient_edge("top.y", "a.y", &bin, &bout, &map, &conns), ("a.y", "top.y"));
    assert_eq!(orient_edge("a.y", "top.y", &bin, &bout, &map, &conns), ("a.y", "top.y"));
}

fn edges(v: &[(&str, &str)]) -> Vec<(String, String)> {
    v.iter().map(|(a, b)| ((*a).to_owned(), (*b).to_owned())).collect()
}

#[test]
fn forward_and_reverse_spellings_collapse_one_for_one() {
    let (map, conns) = setup();
    let bin = strings(&["top.u"]);
    let e = edges(&[("top.u", "b.u"), ("b.u", "top.u")]);
    let mut m = RelationMultiplicity::new(&e, &bin, &Vec::new(), &map, &conns, &Specialization::default());
    assert!(m.retain("top.u", "b.u"));
    assert!(!m.retain("top.u", "b.u"));
}

#[test]
fn two_forward_copies_both_survive() {
    let (map, conns) = setup();
    let bin = strings(&["top.u"]);
    let e = edges(&[("top.u", "b.u"), ("top.u", "b.u"), ("b.u", "top.u")]);
    let mut m = RelationMultiplicity::new(&e, &bin, &Vec::new(), &map, &conns, &Specialization::default());
    assert!(m.retain("top.u", "b.u"));
    assert!(m.retain("top.u", "b.u"));
    assert!(!m.retain("top.u", "b.u"));
}

#[test]
fn uncounted_pairs_always_pass() {
    let (map, conns) = setup();
    let e = edges(&[("a.y", "b.u")]);
    let mut m = RelationMultiplicity::new(&e, &Vec::new(), &Vec::new(), &map, &conns, &Specialization::default());
    assert!(m.retain("a.y", "b.u"));
    assert!(m.retain("a.y", "b.u"));
}

#[test]
fn edges_with_a_pruned_endpoint_are_not_counted() {
    let (map, conns) = setup();
    let bin = strings(&["top.u"]);
    let e = edges(&[("top.u", "b.u")]);
    let spec = Specialization { inactive: vec!["b.u".to_owned()] };
    let mut m = RelationMultiplicity::new(&e, &bin, &Vec::new(), &map, &conns, &spec);
    assert!(m.retain("top.u", "b.u"));
    assert!(m.retain("top.u", "b.u"));
}
