//! The datatype half of typed-literal grounding.

use oce_cxf::ground::datatype_suffix;

#[test]
fn datatype_suffix_handles_hash_slash_and_bare() {
    assert_eq!(
        datatype_suffix("http://www.w3.org/2001/XMLSchema#double"),
        "double"
    );
    assert_eq!(
        datatype_suffix("http://example.org/types/integer"),
        "integer"
    );
    assert_eq!(datatype_suffix("boolean"), "boolean");
}

#[test]
fn datatype_suffix_takes_the_later_of_hash_and_slash() {
    assert_eq!(datatype_suffix("http://x#a/b"), "b");
    assert_eq!(datatype_suffix("http://x/a#b"), "b");
    assert_eq!(datatype_suffix("http://x/"), "");
}
