use flavours::variant::{family, partner, variant, Variant};

#[test]
fn variant_defaults_to_dark() {
    assert_eq!(variant("nord"), Variant::Dark);
    assert_eq!(variant("gruvbox-dark"), Variant::Dark);
    assert_eq!(variant("gruvbox-dark-hard"), Variant::Dark);
}

#[test]
fn variant_detects_light_suffixes() {
    assert_eq!(variant("solarized-light"), Variant::Light);
    assert_eq!(variant("rose-pine-dawn"), Variant::Light);
    assert_eq!(variant("catppuccin-light-mocha"), Variant::Light);
}

#[test]
fn family_strips_suffix() {
    assert_eq!(family("rose-pine-dawn"), "rose-pine");
    assert_eq!(family("rose-pine"), "rose-pine");
    assert_eq!(family("gruvbox-dark"), "gruvbox");
    assert_eq!(family("gruvbox-light"), "gruvbox");
}

#[test]
fn family_strips_infix() {
    assert_eq!(family("gruvbox-dark-hard"), "gruvbox-hard");
    assert_eq!(family("gruvbox-light-hard"), "gruvbox-hard");
    assert_eq!(family("gruvbox-material-dark-medium"), "gruvbox-material-medium");
}

#[test]
fn family_leaves_neutral_slugs_alone() {
    assert_eq!(family("nord"), "nord");
    assert_eq!(family("dracula"), "dracula");
}

#[test]
fn partner_finds_opposite_variant() {
    let all = vec![
        "gruvbox-dark".to_string(),
        "gruvbox-light".to_string(),
        "nord".to_string(),
    ];
    assert_eq!(
        partner("gruvbox-dark", &all),
        Some("gruvbox-light".to_string())
    );
    assert_eq!(
        partner("gruvbox-light", &all),
        Some("gruvbox-dark".to_string())
    );
    assert_eq!(partner("nord", &all), None);
}

#[test]
fn partner_pairs_rose_pine_dawn() {
    let all = vec![
        "rose-pine".to_string(),
        "rose-pine-dawn".to_string(),
        "rose-pine-moon".to_string(),
    ];
    assert_eq!(
        partner("rose-pine-dawn", &all),
        Some("rose-pine".to_string())
    );
    assert_eq!(
        partner("rose-pine", &all),
        Some("rose-pine-dawn".to_string())
    );
}
