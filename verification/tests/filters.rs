use portal_groups::{GroupFilter, read_whole_as_filter, GroupDescriptor};

#[test]
fn constructors_format() {
    let f = GroupFilter::is("a".to_string(), "1".to_string());
    assert_eq!(f.format_to_string(), "a=1");

    let f = GroupFilter::both(
        GroupFilter::is("a".to_string(), "1".to_string()),
        GroupFilter::is("b".to_string(), "2".to_string()),
    );
    assert_eq!(f.format_to_string(), "(a=1 AND b=2)");

    let f = GroupFilter::three(
        GroupFilter::is("a".to_string(), "1".to_string()),
        GroupFilter::is("b".to_string(), "2".to_string()),
        GroupFilter::is("c".to_string(), "3".to_string()),
    );
    assert_eq!(f.format_to_string(), "(a=1 AND b=2 AND c=3)");

    let f = GroupFilter::either(
        GroupFilter::is("a".to_string(), "1".to_string()),
        GroupFilter::is("b".to_string(), "2".to_string()),
    );
    assert_eq!(f.format_to_string(), "(a=1 OR b=2)");

    let f = GroupFilter::any(vec![
        GroupFilter::is("a".to_string(), "1".to_string()),
        GroupFilter::is("b".to_string(), "2".to_string()),
        GroupFilter::is("c".to_string(), "3".to_string()),
    ]);
    assert_eq!(f.format_to_string(), "(a=1 OR b=2 OR c=3)");

    let f = GroupFilter::any_values(
        "lang".to_string(),
        vec!["ESP".to_string(), "ALL".to_string()],
    );
    assert_eq!(f.format_to_string(), "(lang=ESP OR lang=ALL)");

    let f = GroupFilter::All(vec![]);
    assert_eq!(f.format_to_string(), "()");
}

#[test]
fn round_trip_preserves_behavior() {
    // parse(format(e)) answers as e does, against several subjects
    let filters = vec![
        GroupFilter::is("dept".to_string(), "STPI1".to_string()),
        GroupFilter::both(
            GroupFilter::is("dept".to_string(), "STPI1".to_string()),
            GroupFilter::is("lang".to_string(), "ESP".to_string()),
        ),
        GroupFilter::either(
            GroupFilter::is("dept".to_string(), "STPI2".to_string()),
            GroupFilter::both(
                GroupFilter::is("dept".to_string(), "STPI1".to_string()),
                GroupFilter::is("lang".to_string(), "ESP".to_string()),
            ),
        ),
        GroupFilter::All(vec![]),
        GroupFilter::All(vec![GroupFilter::is("a".to_string(), "1".to_string())]),
    ];
    let subjects = vec![
        GroupDescriptor::new_with_groups(vec![]),
        GroupDescriptor::new_with_groups(vec![("dept".to_string(), "STPI1".to_string())]),
        GroupDescriptor::new_with_groups(vec![
            ("dept".to_string(), "STPI1".to_string()),
            ("lang".to_string(), "ESP".to_string()),
        ]),
        GroupDescriptor::new_with_groups(vec![
            ("dept".to_string(), "STPI2".to_string()),
            ("lang".to_string(), "ALL".to_string()),
        ]),
    ];
    for f in &filters {
        let back = read_whole_as_filter(&f.format_to_string()).unwrap();
        for s in &subjects {
            assert_eq!(s.matches(&back), s.matches(f));
            assert_eq!(
                s.matches_with_name(&back, Some("zed")),
                s.matches_with_name(f, Some("zed"))
            );
        }
    }
}

#[test]
fn stored_filters_get_wrapped() {
    // a stored value may be a bare leaf or a bare top-level conjunction
    let f = GroupFilter::read_from_string("a=1").unwrap();
    assert_eq!(f.format_to_string(), "a=1");
    let f = GroupFilter::read_from_string("a=1 AND b=2").unwrap();
    assert_eq!(f.format_to_string(), "(a=1 AND b=2)");
    let f = GroupFilter::read_from_string("").unwrap();
    assert_eq!(f.format_to_string(), "()");
    GroupFilter::read_from_string("a=1 AND b=2 OR c=3").unwrap_err();
}

#[test]
fn clone_preserves_filters() {
    let f = GroupFilter::either(
        GroupFilter::is("a".to_string(), "1".to_string()),
        GroupFilter::All(vec![]),
    );
    let g = f.clone();
    assert_eq!(f, g);
    assert_eq!(g.format_to_string(), "(a=1 OR ())");
}
