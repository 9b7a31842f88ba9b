use flavours::variant::{family, partner, variant, Variant};

#[test]
fn opposite_is_an_involution() {
    assert_eq!(Variant::Dark.opposite(), Variant::Light);
    assert_eq!(Variant::Light.opposite(), Variant::Dark);
    assert_eq!(Variant::Dark.opposite().opposite(), Variant::Dark);
    assert_eq!(Variant::Light.opposite().opposite(), Variant::Light);
}

#[test]
fn variant_names() {
    assert_eq!(Variant::Dark.as_str(), "dark");
    assert_eq!(Variant::Light.as_str(), "light");
}

#[test]
fn variant_light_day_and_infix() {
    assert_eq!(variant("one-day"), Variant::Light);
    assert_eq!(variant("x-light-y"), Variant::Light);
    assert_eq!(variant("light"), Variant::Dark);
    assert_eq!(variant(""), Variant::Dark);
}

#[test]
fn dark_markers_are_dark() {
    assert_eq!(variant("tokyo-night"), Variant::Dark);
    assert_eq!(variant("one-dark"), Variant::Dark);
    assert_eq!(variant("x-dark-y"), Variant::Dark);
    // a light infix wins over a dark suffix
    assert_eq!(variant("gruvbox-light-soft-dark"), Variant::Light);
}

#[test]
fn family_collapses_repeated_markers() {
    assert_eq!(family("a-dark-light-dark-b"), "a-b");
    assert_eq!(family("a-dark-dark"), "a");
    assert_eq!(family("x-light-light-y"), "x-y");
}

#[test]
fn family_strips_one_suffix_only() {
    assert_eq!(family("a-day-dark"), "a-day");
    assert_eq!(family("tokyo-night"), "tokyo");
    assert_eq!(family("one-day"), "one");
}

#[test]
fn family_has_no_markers_left() {
    for slug in ["a-dark-light-b", "p-light-dark-light-q", "m-dark-x-light-n-dark"] {
        let f = family(slug);
        assert!(!f.contains("-dark-"));
        assert!(!f.contains("-light-"));
    }
}

#[test]
fn partner_is_symmetric() {
    let all = vec![
        "tokyo-night".to_string(),
        "tokyo-day".to_string(),
        "solarized-dark".to_string(),
        "solarized-light".to_string(),
    ];
    assert_eq!(partner("tokyo-night", &all), Some("tokyo-day".to_string()));
    assert_eq!(partner("tokyo-day", &all), Some("tokyo-night".to_string()));
    assert_eq!(partner("solarized-light", &all), Some("solarized-dark".to_string()));
}

#[test]
fn partner_takes_the_first_candidate() {
    let all = vec![
        "gruvbox-dark".to_string(),
        "gruvbox-dark-hard".to_string(),
        "gruvbox".to_string(),
        "gruvbox-light".to_string(),
    ];
    assert_eq!(partner("gruvbox-light", &all), Some("gruvbox-dark".to_string()));
    assert_eq!(partner("gruvbox-light-hard", &all), Some("gruvbox-dark-hard".to_string()));
}

#[test]
fn partner_excludes_itself_and_empty_lists() {
    let all = vec!["a-light".to_string()];
    assert_eq!(partner("a-light", &all), None);
    let none: Vec<String> = vec![];
    assert_eq!(partner("a-dark", &none), None);
}

#[test]
fn one_marker_does_not_change_the_family() {
    assert_eq!(family("gruvbox-dark-hard"), family("gruvbox-hard"));
    assert_eq!(family("gruvbox-light-hard"), family("gruvbox-hard"));
    assert_eq!(family("a-dark-dark-b"), family("a-dark-b"));
    assert_eq!(family("x-light-dark-"), family("x-dark-"));
    assert_eq!(family("-dark-"), family("-"));
    assert_eq!(family("one-light-day"), family("one-day"));
}
