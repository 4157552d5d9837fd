use portal_groups::read_whole_as_filter;

#[test]
fn test() {
    read_whole_as_filter("test=value").unwrap();
    read_whole_as_filter("()").unwrap();
    read_whole_as_filter("(test=value AND other=value)").unwrap();
    read_whole_as_filter("(test=value OR other=value)").unwrap();
    read_whole_as_filter("(test=value OR (test=value AND other=value))").unwrap();
    read_whole_as_filter("(test=value   OR ( test=value   AND  other=value))").unwrap();

    read_whole_as_filter("(tést=value OR (test=value AND other=value))").unwrap_err();
    read_whole_as_filter("(test=value OR test=value AND other=value)").unwrap_err();
}

#[test]
fn empty_composite_is_vacuous_true() {
    // "()" reads as the empty conjunction, which holds of any subject
    let f = read_whole_as_filter("()").unwrap();
    let empty = portal_groups::GroupDescriptor::new_with_groups(vec![]);
    assert!(empty.matches(&f));
    let full = portal_groups::GroupDescriptor::default();
    assert!(full.matches(&f));
}

#[test]
fn mixed_connectives_fail() {
    // one composite may use only one connective
    read_whole_as_filter("(a=1 AND a=2 OR b=3)").unwrap_err();
    read_whole_as_filter("(a=1 OR a=2 AND b=3)").unwrap_err();
}

#[test]
fn bare_conjunction_needs_wrapping() {
    // no outer parentheses: fails directly...
    read_whole_as_filter("a=1 AND b=2").unwrap_err();
    // ...but succeeds once wrapped in one extra pair
    read_whole_as_filter("(a=1 AND b=2)").unwrap();
}

#[test]
fn simple_filter_shapes() {
    let f = read_whole_as_filter("school=insa-rouen").unwrap();
    assert_eq!(f.format_to_string(), "school=insa-rouen");
    let f = read_whole_as_filter("  a:b_c-1 =  x2  ").unwrap();
    assert_eq!(f.format_to_string(), "a:b_c-1=x2");
}

#[test]
fn lowercase_connectives_are_accepted() {
    let f = read_whole_as_filter("(a=1 and b=2)").unwrap();
    assert_eq!(f.format_to_string(), "(a=1 AND b=2)");
    let f = read_whole_as_filter("(a=1 or b=2)").unwrap();
    assert_eq!(f.format_to_string(), "(a=1 OR b=2)");
}

#[test]
fn mixed_case_connective_is_refused() {
    read_whole_as_filter("(a=1 And b=2)").unwrap_err();
    read_whole_as_filter("(a=1 Or b=2)").unwrap_err();
}

#[test]
fn error_positions() {
    // trailing garbage after a filter is reported where it starts
    let e = read_whole_as_filter("a=1 )").unwrap_err();
    assert_eq!(e.position, 4);
    // an empty identifier is reported at the identifier position
    let e = read_whole_as_filter("(=1)").unwrap_err();
    assert_eq!(e.position, 0);
}

#[test]
fn single_operand_parentheses_unwrap() {
    // grouping parentheses around one operand return it bare
    let f = read_whole_as_filter("((a=1))").unwrap();
    assert_eq!(f.format_to_string(), "a=1");
}
