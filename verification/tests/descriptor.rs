use portal_groups::{GroupDescriptor, GroupFilter, Group, ValidationIssue};

fn schema_lang_only() -> Vec<Group> {
    vec![Group {
        id: "lang".to_string(),
        name: "Language".to_string(),
        help: String::new(),
        values: vec![
            ("ESP".to_string(), "Spanish".to_string()),
            ("ALL".to_string(), "German".to_string()),
        ],
        required_if: Some(GroupFilter::is("dept".to_string(), "STPI1".to_string())),
    }]
}

fn schema_dept_and_lang() -> Vec<Group> {
    vec![
        Group {
            id: "dept".to_string(),
            name: "Department".to_string(),
            help: String::new(),
            values: vec![
                ("STPI1".to_string(), "First year".to_string()),
                ("STPI2".to_string(), "Second year".to_string()),
            ],
            required_if: None,
        },
        Group {
            id: "lang".to_string(),
            name: "Language".to_string(),
            help: String::new(),
            values: vec![
                ("ESP".to_string(), "Spanish".to_string()),
                ("ALL".to_string(), "German".to_string()),
            ],
            required_if: Some(GroupFilter::is("dept".to_string(), "STPI1".to_string())),
        },
    ]
}

#[test]
fn insert_get_remove() {
    let mut d = GroupDescriptor::new_with_groups(vec![]);
    d.insert("b".to_string(), "2".to_string());
    d.insert("a".to_string(), "1".to_string());
    d.insert("c".to_string(), "3".to_string());
    assert_eq!(d.get("a").map(|v| v.as_str()), Some("1"));
    assert_eq!(d.get("b").map(|v| v.as_str()), Some("2"));
    assert_eq!(d.get("z"), None);
    // entries come out sorted by key
    assert_eq!(d.format_to_string(), "a=1+b=2+c=3");
    // an insert for an existing key replaces the value
    d.insert("b".to_string(), "9".to_string());
    assert_eq!(d.format_to_string(), "a=1+b=9+c=3");
    d.remove("b");
    assert_eq!(d.format_to_string(), "a=1+c=3");
    d.remove("nope");
    assert_eq!(d.format_to_string(), "a=1+c=3");
}

#[test]
fn attrs_round_trip() {
    // parse(format(a)) == a
    let a = GroupDescriptor::new_with_groups(vec![
        ("school".to_string(), "insa-rouen".to_string()),
        ("insa-rouen:department".to_string(), "STPI1".to_string()),
        ("insa-rouen:language".to_string(), "ESP".to_string()),
    ]);
    let text = a.format_to_string();
    assert_eq!(
        text,
        "insa-rouen:department=STPI1+insa-rouen:language=ESP+school=insa-rouen"
    );
    let b = GroupDescriptor::read_from_string(&text).unwrap();
    assert_eq!(a, b);

    let empty = GroupDescriptor::new_with_groups(vec![]);
    let back = GroupDescriptor::read_from_string(&empty.format_to_string()).unwrap();
    assert_eq!(empty, back);
}

#[test]
fn attrs_text_errors() {
    // empty segments are skipped; leading whitespace is trimmed once
    let d = GroupDescriptor::read_from_string("  a=1++b=2+").unwrap();
    assert_eq!(d.format_to_string(), "a=1+b=2");
    // a key with a bad character is a format error
    GroupDescriptor::read_from_string("a b=1").unwrap_err();
    // a missing value is a format error
    GroupDescriptor::read_from_string("a=").unwrap_err();
    GroupDescriptor::read_from_string("a").unwrap_err();
    // an extra equals sign is a format error
    GroupDescriptor::read_from_string("a=b=c").unwrap_err();
    // a later entry for the same key wins
    let d = GroupDescriptor::read_from_string("a=1+a=2").unwrap();
    assert_eq!(d.format_to_string(), "a=2");
}

#[test]
fn default_descriptor() {
    let d = GroupDescriptor::default();
    assert_eq!(d.get("school").map(|v| v.as_str()), Some("insa-rouen"));
    assert_eq!(d.get("insa-rouen:department").map(|v| v.as_str()), Some("STPI1"));
    assert_eq!(d.get("insa-rouen:language").map(|v| v.as_str()), Some("ESP"));
    assert_eq!(d.get("insa-rouen:stpi:class").map(|v| v.as_str()), Some("A"));
    assert_eq!(d.get("insa-rouen:stpi:tp-group").map(|v| v.as_str()), Some("1"));
    assert_eq!(d.groups().len(), 5);
}

#[test]
fn matching() {
    let d = GroupDescriptor::new_with_groups(vec![
        ("dept".to_string(), "STPI1".to_string()),
        ("lang".to_string(), "ESP".to_string()),
    ]);
    assert!(d.matches(&GroupFilter::is("dept".to_string(), "STPI1".to_string())));
    assert!(!d.matches(&GroupFilter::is("dept".to_string(), "STPI2".to_string())));
    assert!(!d.matches(&GroupFilter::is("nope".to_string(), "STPI1".to_string())));
    // empty conjunction holds, empty disjunction does not
    assert!(d.matches(&GroupFilter::All(vec![])));
    assert!(!d.matches(&GroupFilter::Any(vec![])));
    assert!(d.matches(&GroupFilter::both(
        GroupFilter::is("dept".to_string(), "STPI1".to_string()),
        GroupFilter::is("lang".to_string(), "ESP".to_string()),
    )));
    assert!(!d.matches(&GroupFilter::both(
        GroupFilter::is("dept".to_string(), "STPI1".to_string()),
        GroupFilter::is("lang".to_string(), "ALL".to_string()),
    )));
    assert!(d.matches(&GroupFilter::either(
        GroupFilter::is("dept".to_string(), "STPI2".to_string()),
        GroupFilter::is("lang".to_string(), "ESP".to_string()),
    )));
}

#[test]
fn name_context_short_circuits() {
    // the reserved keys compare the name context, before any lookup
    let empty = GroupDescriptor::new_with_groups(vec![]);
    let after_m = GroupFilter::is("name-after".to_string(), "m".to_string());
    let before_m = GroupFilter::is("name-before".to_string(), "m".to_string());
    assert!(empty.matches_with_name(&after_m, Some("zed")));
    assert!(!empty.matches_with_name(&before_m, Some("zed")));
    assert!(!empty.matches_with_name(&after_m, Some("abc")));
    assert!(empty.matches_with_name(&before_m, Some("abc")));
    // the boundary name satisfies both
    assert!(empty.matches_with_name(&after_m, Some("m")));
    assert!(empty.matches_with_name(&before_m, Some("m")));
    // without a name context the reserved keys are ordinary lookups
    assert!(!empty.matches_with_name(&after_m, None));
    assert!(!empty.matches(&after_m));
}

#[test]
fn validate_missing_required() {
    // dept=STPI1 makes lang required; it is absent
    let d = GroupDescriptor::new_with_groups(vec![("dept".to_string(), "STPI1".to_string())]);
    let schema = schema_dept_and_lang();
    let issues = d.validate(&schema);
    assert_eq!(
        issues,
        vec![ValidationIssue::MissingRequiredGroup { group: "lang".to_string() }]
    );
    assert!(d.needs_correction(&schema));
}

#[test]
fn validate_unknown_and_invalid() {
    let d = GroupDescriptor::new_with_groups(vec![
        ("dept".to_string(), "STPI1".to_string()),
        ("lang".to_string(), "KLINGON".to_string()),
        ("mystery".to_string(), "x".to_string()),
    ]);
    let schema = schema_dept_and_lang();
    let issues = d.validate(&schema);
    assert_eq!(
        issues,
        vec![
            ValidationIssue::InvalidValue { group: "lang".to_string(), value: "KLINGON".to_string() },
            ValidationIssue::UnknownGroup { group: "mystery".to_string() },
        ]
    );
    // an invalid value on a required key forces a correction
    assert!(d.needs_correction(&schema));
}

#[test]
fn unknown_key_never_forces_correction() {
    // everything required is fine; the unknown key alone changes nothing
    let d = GroupDescriptor::new_with_groups(vec![
        ("dept".to_string(), "STPI2".to_string()),
        ("mystery".to_string(), "x".to_string()),
    ]);
    let schema = schema_dept_and_lang();
    let issues = d.validate(&schema);
    assert_eq!(
        issues,
        vec![ValidationIssue::UnknownGroup { group: "mystery".to_string() }]
    );
    assert!(!d.needs_correction(&schema));
    // and the sweep removes the unknown key
    let mut d = d;
    d.sweep(&schema);
    assert_eq!(d.format_to_string(), "dept=STPI2");
}

#[test]
fn sweep_removes_unrequired_and_is_idempotent() {
    // lang is not required once dept is STPI2; the sweep drops it
    let mut d = GroupDescriptor::new_with_groups(vec![
        ("dept".to_string(), "STPI2".to_string()),
        ("lang".to_string(), "ESP".to_string()),
    ]);
    let schema = schema_dept_and_lang();
    d.sweep(&schema);
    assert_eq!(d.format_to_string(), "dept=STPI2");
    // a second sweep is a no-op
    d.sweep(&schema);
    assert_eq!(d.format_to_string(), "dept=STPI2");
}

#[test]
fn sweep_cascades_through_conditions() {
    // with only the lang entry declared, dept itself is unknown: the sweep
    // removes it, and with it the reason for keeping lang
    let mut d = GroupDescriptor::new_with_groups(vec![
        ("dept".to_string(), "STPI1".to_string()),
        ("lang".to_string(), "ESP".to_string()),
    ]);
    let schema = schema_lang_only();
    d.sweep(&schema);
    assert_eq!(d.format_to_string(), "");
    // sweep never adds: the missing required key still needs correction
    let d2 = GroupDescriptor::new_with_groups(vec![("dept".to_string(), "STPI1".to_string())]);
    let schema2 = schema_dept_and_lang();
    let mut d3 = d2.clone();
    d3.sweep(&schema2);
    assert!(d3.needs_correction(&schema2));
}
