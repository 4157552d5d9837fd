use portal_groups::{Groups, UserGroups, GroupFilter};

#[test]
fn groups_membership() {
    let mut g = Groups::new_with_groups(vec!["b".to_string(), "a".to_string(), "a".to_string()]);
    assert_eq!(g.format_to_string(), "a+b");
    g.insert("c".to_string());
    g.insert("a".to_string());
    assert_eq!(g.format_to_string(), "a+b+c");
    g.remove("b");
    assert_eq!(g.format_to_string(), "a+c");
    g.remove("nope");
    assert_eq!(g.format_to_string(), "a+c");
}

#[test]
fn groups_matching_is_intersection() {
    let a = Groups::new_with_groups(vec!["iti3".to_string(), "etudiants".to_string()]);
    let b = Groups::new_with_groups(vec!["etudiants".to_string()]);
    let c = Groups::new_with_groups(vec!["stpi1".to_string()]);
    assert!(a.matches(&b));
    assert!(b.matches(&a));
    assert!(!a.matches(&c));
    // the name context plays no part
    assert!(a.matches_with_name(&b, Some("zed")));
    assert!(!a.matches_with_name(&c, None));
    // an empty set matches nothing
    let empty = Groups::new_with_groups(vec![]);
    assert!(!empty.matches(&a));
    assert!(!a.matches(&empty));
}

#[test]
fn groups_text() {
    let g = Groups::read_from_string("b+a++c+").unwrap();
    assert_eq!(g.format_to_string(), "a+b+c");
    let g = Groups::read_from_string("").unwrap();
    assert_eq!(g.format_to_string(), "");
    assert_eq!(Groups::default().groups().len(), 12);
}

#[test]
fn user_groups_membership() {
    let mut u = UserGroups::new_with_groups(vec!["iti3".to_string(), "ad-etudiants".to_string()]);
    u.insert("etudiants".to_string());
    u.remove("iti3");
    assert_eq!(u.format_to_string(), "ad-etudiants+etudiants");
}

#[test]
fn user_groups_filters() {
    // a leaf holds when the set contains the key and the value is that key
    let u = UserGroups::new_with_groups(vec!["iti3".to_string()]);
    assert!(u.matches(&GroupFilter::is("iti3".to_string(), "iti3".to_string())));
    assert!(!u.matches(&GroupFilter::is("iti3".to_string(), "other".to_string())));
    assert!(!u.matches(&GroupFilter::is("stpi1".to_string(), "stpi1".to_string())));
    // the reserved keys consult the name context
    let after = GroupFilter::is("name-after".to_string(), "m".to_string());
    let before = GroupFilter::is("name-before".to_string(), "m".to_string());
    assert!(u.matches_with_name(&after, Some("zed")));
    assert!(!u.matches_with_name(&before, Some("zed")));
    assert!(u.matches_with_name(&before, Some("abc")));
}

#[test]
fn user_groups_text() {
    // whitespace is trimmed at both ends, empty segments skipped
    let u = UserGroups::read_from_string("  b+a++c  ").unwrap();
    assert_eq!(u.format_to_string(), "a+b+c");
    assert_eq!(UserGroups::default().groups().len(), 12);
}
