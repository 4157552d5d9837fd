use portal_groups::{Class, Department, Language, Promotion, Building, Level, UserDesc};

#[test]
fn class_codes() {
    assert_eq!(Class::from_str("A"), Ok(Class::A));
    assert_eq!(Class::from_str("k"), Ok(Class::K));
    assert!(Class::from_str("Z").is_err());
    assert!(Class::from_str("").is_err());
    assert_eq!(Class::A.as_str(), "A");
    assert_eq!(Class::list().len(), 11);
}

#[test]
fn department_codes() {
    assert_eq!(Department::from_str("STPI1"), Ok(Department::Stpi1));
    assert_eq!(Department::from_str("stpi2"), Ok(Department::Stpi2));
    assert_eq!(Department::from_str("euromed-sic"), Ok(Department::EuromedSic));
    assert_eq!(Department::from_str("M-IC1"), Ok(Department::Mic1));
    assert_eq!(Department::from_str("PERF-ISP4"), Ok(Department::PerfIsp4));
    assert!(Department::from_str("STPI3").is_err());
    assert_eq!(Department::Iti3.as_str(), "ITI3");
    assert_eq!(Department::MsEsd.as_str(), "MS-ESD");
    assert_eq!(Department::list(), vec![Department::Stpi1, Department::Stpi2]);
}

#[test]
fn language_codes() {
    assert_eq!(Language::from_str("esp"), Ok(Language::Esp));
    assert_eq!(Language::from_str("ALL-DEB"), Ok(Language::AllDeb));
    assert_eq!(Language::from_str("FLE"), Ok(Language::Fle));
    assert!(Language::from_str("XX").is_err());
    assert_eq!(Language::EspDeb.as_str(), "ESP-DEB");
    assert_eq!(Language::list().len(), 5);
}

#[test]
fn promotion_codes() {
    assert_eq!(Promotion::from_str("stpi1"), Ok(Promotion::Stpi1));
    assert!(Promotion::from_str("iti3").is_err());
    assert_eq!(Promotion::Stpi2.as_str(), "STPI2");
    assert_eq!(Promotion::list(), vec![Promotion::Stpi1, Promotion::Stpi2]);
}

#[test]
fn location_names() {
    assert_eq!(Building::DumontDurville.as_str(), "Dumont Durville");
    assert_eq!(Building::Magellan.as_str(), "Magellan");
    assert_eq!(Level::Rc.as_str(), "RC");
    assert_eq!(Level::Level2.as_str(), "R2");
}

#[test]
fn user_names() {
    let u = UserDesc::new(7, "edouard.foobar@insa-rouen.fr".to_string());
    assert_eq!(u.uid, 7);
    assert_eq!(u.picture, None);
    assert_eq!(u.get_username(), "edouard.foobar");
    assert_eq!(u.get_mastodon_username(), "edouard_foobar");
    // an address without an at sign is its own username
    let u = UserDesc::new(1, "plain".to_string());
    assert_eq!(u.get_username(), "plain");
    let u = UserDesc::new(2, String::new());
    assert_eq!(u.get_username(), "");
}
