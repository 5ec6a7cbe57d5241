//! Array-parameter naming.

use oce_cxf::arrays::{
    array_element_names, check_dims, collides_with_sibling, dimension_literal, plan_list_elements, size_terms, strip_array_label,
    MAX_ARRAY_ELEMENTS,
};
use oce_cxf::diag::DiagCode;

#[test]
fn strip_array_label_drops_the_decoration() {
    assert_eq!(strip_array_label("k[2]"), "k");
    assert_eq!(strip_array_label("B[2,2]"), "B");
    assert_eq!(strip_array_label("k"), "k");
    assert_eq!(strip_array_label("[3]"), "");
}

#[test]
fn one_dimension_enumerates_one_based_names() {
    assert_eq!(array_element_names("k", &[2]).unwrap(), vec!["k_1".to_owned(), "k_2".to_owned()]);
}

#[test]
fn two_dimensions_vary_the_last_index_fastest() {
    assert_eq!(
        array_element_names("B", &[2, 2]).unwrap(),
        vec!["B_1_1", "B_1_2", "B_2_1", "B_2_2"].into_iter().map(str::to_owned).collect::<Vec<_>>()
    );
    assert_eq!(
        array_element_names("M", &[1, 3]).unwrap(),
        vec!["M_1_1", "M_1_2", "M_1_3"].into_iter().map(str::to_owned).collect::<Vec<_>>()
    );
}

#[test]
fn two_digit_indices_render_in_decimal() {
    let names = array_element_names("x", &[12]).unwrap();
    assert_eq!(names.len(), 12);
    assert_eq!(names[9], "x_10");
    assert_eq!(names[11], "x_12");
}

#[test]
fn a_zero_dimension_is_a_legal_empty_array() {
    assert!(array_element_names("k", &[0]).unwrap().is_empty());
    assert!(array_element_names("k", &[3, 0]).unwrap().is_empty());
    assert!(array_element_names("k", &[0, usize::MAX]).unwrap().is_empty());
}

#[test]
fn no_dimensions_is_the_base_name_alone() {
    assert_eq!(array_element_names("k", &[]).unwrap(), vec!["k".to_owned()]);
}

#[test]
fn the_element_ceiling_is_accepted_and_one_more_is_refused() {
    assert_eq!(array_element_names("k", &[MAX_ARRAY_ELEMENTS]).unwrap().len(), MAX_ARRAY_ELEMENTS);
    assert_eq!(
        array_element_names("k", &[MAX_ARRAY_ELEMENTS + 1]).unwrap_err(),
        "array element count 1048577 exceeds the maximum supported (1048576)"
    );
    assert_eq!(
        array_element_names("k", &[1024, 1025]).unwrap_err(),
        "array element count 1049600 exceeds the maximum supported (1048576)"
    );
}

#[test]
fn an_overflowing_count_is_refused_before_allocation() {
    assert_eq!(
        array_element_names("k", &[usize::MAX, 2]).unwrap_err(),
        "array element count overflows usize"
    );
}

fn strings(v: &[&str]) -> Vec<String> {
    v.iter().map(|s| (*s).to_owned()).collect()
}

#[test]
fn size_terms_split_a_parenthesized_list_and_trim_each_term() {
    assert_eq!(size_terms("(2, 3)").unwrap(), strings(&["2", "3"]));
    assert_eq!(size_terms("  ( nin )\n").unwrap(), strings(&["nin"]));
    assert_eq!(size_terms("()").unwrap(), strings(&[""]));
    assert_eq!(size_terms("(a,,b )").unwrap(), strings(&["a", "", "b"]));
}

#[test]
fn an_unparenthesized_size_is_refused_quoting_it() {
    assert_eq!(size_terms("2").unwrap_err(), "sizeOfDimensions \"2\" is not parenthesized");
    assert_eq!(size_terms("(").unwrap_err(), "sizeOfDimensions \"(\" is not parenthesized");
    assert_eq!(size_terms("(2\"").unwrap_err(), "sizeOfDimensions \"(2\\\"\" is not parenthesized");
}

#[test]
fn dimension_literals_follow_integer_parsing() {
    assert_eq!(dimension_literal("12"), Some(12));
    assert_eq!(dimension_literal("-3"), Some(-3));
    assert_eq!(dimension_literal("+4"), Some(4));
    assert_eq!(dimension_literal("007"), Some(7));
    assert_eq!(dimension_literal(" 5"), None);
    assert_eq!(dimension_literal("1_0"), None);
    assert_eq!(dimension_literal("9223372036854775808"), None);
    assert_eq!(dimension_literal("nin"), None);
    assert_eq!(dimension_literal(""), None);
}

#[test]
fn resolved_dimensions_are_checked_in_term_order() {
    assert_eq!(check_dims("(2, 3)", Some(2), &[Some(Ok(2)), Some(Ok(3))]).unwrap(), vec![2, 3]);
    assert_eq!(check_dims("(2, 3)", None, &[Some(Ok(2)), Some(Ok(3))]).unwrap(), vec![2, 3]);
    assert_eq!(
        check_dims("(-1, x)", None, &[Some(Ok(-1)), Some(Err("never reported".to_owned()))]).unwrap_err(),
        "negative array dimension -1 in sizeOfDimensions \"(-1, x)\""
    );
    assert_eq!(
        check_dims("(x, )", None, &[Some(Err("array dimension \"x\" did not evaluate".to_owned())), None]).unwrap_err(),
        "array dimension \"x\" did not evaluate"
    );
    assert_eq!(
        check_dims("(2,)", None, &[Some(Ok(2)), None]).unwrap_err(),
        "empty array dimension in sizeOfDimensions \"(2,)\""
    );
}

#[test]
fn a_disagreeing_dimension_count_is_refused() {
    assert_eq!(
        check_dims("(2,3)", Some(1), &[Some(Ok(2)), Some(Ok(3))]).unwrap_err(),
        "numberDimensions 1 disagrees with sizeOfDimensions arity 2"
    );
    assert_eq!(
        check_dims("(2)", Some(-1), &[Some(Ok(2))]).unwrap_err(),
        "numberDimensions -1 disagrees with sizeOfDimensions arity 1"
    );
}

#[test]
fn a_minted_name_colliding_with_a_sibling_is_refused() {
    let siblings = strings(&["k_1", "gain"]);
    let mut diags = Vec::new();
    assert!(collides_with_sibling(&siblings, "k_1", "http://x#M.k", &mut diags));
    assert!(!collides_with_sibling(&siblings, "k_2", "http://x#M.k", &mut diags));
    assert_eq!(diags.len(), 1);
    assert_eq!(diags[0].code, DiagCode::ArrayFlattenCollision);
    assert_eq!(
        diags[0].message,
        "array element \"k_1\" collides with an existing sibling parameter of the same name"
    );
    assert_eq!(diags[0].subject.as_deref(), Some("http://x#M.k"));
}

#[test]
fn a_value_list_positional_or_broadcast_lays_over_the_element_names() {
    let names: Vec<String> = vec!["k_1".to_owned(), "k_2".to_owned(), "k_3".to_owned()];
    let mut diags = Vec::new();
    let plan = plan_list_elements("ex:M.k", &names, 3, &Vec::new(), &mut diags).unwrap();
    assert!(diags.is_empty());
    assert_eq!(plan, vec![("k_1".to_owned(), 0), ("k_2".to_owned(), 1), ("k_3".to_owned(), 2)]);

    let plan = plan_list_elements("ex:M.k", &names, 1, &Vec::new(), &mut diags).unwrap();
    assert!(diags.is_empty());
    assert_eq!(plan, vec![("k_1".to_owned(), 0), ("k_2".to_owned(), 0), ("k_3".to_owned(), 0)]);

    let plan = plan_list_elements("ex:M.k", &Vec::new(), 0, &Vec::new(), &mut diags).unwrap();
    assert!(plan.is_empty() && diags.is_empty());
}

#[test]
fn a_value_list_of_the_wrong_length_is_refused() {
    let names: Vec<String> = vec!["k_1".to_owned(), "k_2".to_owned(), "k_3".to_owned()];
    let mut diags = Vec::new();
    assert!(plan_list_elements("ex:M.k", &names, 2, &Vec::new(), &mut diags).is_none());
    assert_eq!(diags.len(), 1);
    assert_eq!(diags[0].code, DiagCode::GroundingFailed);
    assert_eq!(diags[0].subject.as_deref(), Some("ex:M.k"));
    assert_eq!(diags[0].message, "array value list has 2 element(s) but the declared dimensions imply 3");

    let mut diags = Vec::new();
    assert!(plan_list_elements("ex:M.k", &Vec::new(), 1, &Vec::new(), &mut diags).is_none());
    assert_eq!(diags[0].message, "array value list has 1 element(s) but the declared dimensions imply 0");
}

#[test]
fn an_element_a_sibling_already_names_is_refused_and_skipped() {
    let names: Vec<String> = vec!["k_1".to_owned(), "k_2".to_owned()];
    let siblings = vec!["k_2".to_owned()];
    let mut diags = Vec::new();
    let plan = plan_list_elements("ex:M.k", &names, 2, &siblings, &mut diags).unwrap();
    assert_eq!(plan, vec![("k_1".to_owned(), 0)]);
    assert_eq!(diags.len(), 1);
    assert_eq!(diags[0].code, DiagCode::ArrayFlattenCollision);
    assert_eq!(diags[0].message, "array element \"k_2\" collides with an existing sibling parameter of the same name");
}

#[test]
fn dimension_literal_agrees_with_the_standard_parse() {
    for text in [
        "0", "7", "+7", "-7", "007", "-0", "", "-", "+", " 5", "5 ", "1_000", "12a", "--1", "+-1",
        "9223372036854775807", "9223372036854775808", "-9223372036854775808", "-9223372036854775809",
        "+9223372036854775807", "99999999999999999999999999",
    ] {
        assert_eq!(dimension_literal(text), text.parse::<i64>().ok(), "{text:?}");
    }
}
