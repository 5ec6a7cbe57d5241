use oce_cxf::bridge::class_path_of;

#[test]
fn strips_obc_prefix_from_full_iri() {
    assert_eq!(
        class_path_of("http://example.org#Buildings.Controls.OBC.CDL.Reals.Add"),
        "CDL.Reals.Add"
    );
    assert_eq!(
        class_path_of("http://example.org#Buildings.Controls.OBC.CDL.Reals.Sources.Constant"),
        "CDL.Reals.Sources.Constant"
    );
    assert_eq!(
        class_path_of("http://example.org#Buildings.Controls.OBC.CDL.Discrete.UnitDelay"),
        "CDL.Discrete.UnitDelay"
    );
}

#[test]
fn passes_through_already_canonical_fragment() {
    assert_eq!(class_path_of("http://x#CDL.Reals.Add"), "CDL.Reals.Add");
    assert_eq!(
        class_path_of("http://x#Buildings.Controls.OBC.CDL.Reals.PID"),
        "CDL.Reals.PID"
    );
}

#[test]
fn no_hash_yields_whole_string_no_panic() {
    assert_eq!(class_path_of("NotAnIri"), "NotAnIri");
    assert_eq!(class_path_of(""), "");
    assert_eq!(
        class_path_of("Buildings.Controls.OBC.CDL.Logical.And"),
        "CDL.Logical.And"
    );
}

#[test]
fn only_strips_prefix_at_the_start() {
    assert_eq!(
        class_path_of("http://x#CDL.Buildings.Controls.OBC.Foo"),
        "CDL.Buildings.Controls.OBC.Foo"
    );
}

#[test]
fn fragment_is_taken_after_the_last_hash() {
    assert_eq!(class_path_of("a#b#Buildings.Controls.OBC.X"), "X");
    assert_eq!(class_path_of("a#"), "");
    assert_eq!(class_path_of("a#Buildings.Controls.OBC."), "");
}
