use flavours::color::HexError;
use flavours::commands::{
    generated_colors, mode_target, needs_partner, patterns_or_wildcard, ApplyMode, GeneratedColorError,
};
use flavours::slugs::SchemeName;

fn stem(s: &str) -> SchemeName {
    SchemeName::Stem(s.to_string())
}

#[test]
fn wildcard_when_no_patterns() {
    assert_eq!(patterns_or_wildcard(None), vec!["*".to_string()]);
    assert_eq!(patterns_or_wildcard(Some(vec!["a".to_string()])), vec!["a".to_string()]);
}

#[test]
fn mode_names() {
    assert_eq!(ApplyMode::from_name("dark"), Some(ApplyMode::Dark));
    assert_eq!(ApplyMode::from_name("light"), Some(ApplyMode::Light));
    assert_eq!(ApplyMode::from_name("toggle"), Some(ApplyMode::Toggle));
    assert_eq!(ApplyMode::from_name("other"), None);
}

#[test]
fn mode_target_switches_or_reapplies() {
    let found = vec![stem("gruvbox-dark"), stem("gruvbox-light"), stem("nord")];
    assert_eq!(mode_target(ApplyMode::Dark, "gruvbox-dark", &found).unwrap(), "gruvbox-dark");
    assert_eq!(mode_target(ApplyMode::Light, "gruvbox-dark", &found).unwrap(), "gruvbox-light");
    assert_eq!(mode_target(ApplyMode::Toggle, "gruvbox-light", &found).unwrap(), "gruvbox-dark");
    assert!(mode_target(ApplyMode::Light, "nord", &found).is_err());
    assert_eq!(mode_target(ApplyMode::Dark, "nord", &found).unwrap(), "nord");
}

#[test]
fn generated_colors_index_and_decode() {
    let colors = vec!["7cafc2".to_string(), "000000".to_string()];
    assert_eq!(
        generated_colors(&colors).unwrap(),
        vec![(0, [0x7c, 0xaf, 0xc2]), (1, [0, 0, 0])]
    );
    assert_eq!(
        generated_colors(&vec!["1234".to_string()]).unwrap_err(),
        GeneratedColorError::Hex(HexError::InvalidStringLength)
    );
    assert_eq!(
        generated_colors(&vec!["12345".to_string()]).unwrap_err(),
        GeneratedColorError::Hex(HexError::OddLength)
    );
    let many: Vec<String> = (0..257).map(|_| "010203".to_string()).collect();
    assert_eq!(generated_colors(&many).unwrap_err(), GeneratedColorError::IndexOutOfRange);
}

#[test]
fn generated_color_errors_count_utf8_bytes() {
    assert_eq!(
        generated_colors(&vec!["é12".to_string()]).unwrap_err(),
        GeneratedColorError::Hex(HexError::InvalidStringLength)
    );
    assert_eq!(
        generated_colors(&vec!["1é345".to_string()]).unwrap_err(),
        GeneratedColorError::Hex(HexError::InvalidHexCharacter { c: '\u{c3}', index: 1 })
    );
    assert_eq!(
        generated_colors(&vec!["010203".to_string(), "é1".to_string()]).unwrap_err(),
        GeneratedColorError::Hex(HexError::OddLength)
    );
}

#[test]
fn partner_needed_only_for_the_other_variant() {
    assert!(!needs_partner(ApplyMode::Dark, "gruvbox-dark"));
    assert!(needs_partner(ApplyMode::Light, "gruvbox-dark"));
    assert!(needs_partner(ApplyMode::Toggle, "nord"));
    assert!(!needs_partner(ApplyMode::Light, "solarized-light"));
    // found names are not consulted when no partner is needed
    assert_eq!(mode_target(ApplyMode::Dark, "nord", &Vec::new()).unwrap(), "nord");
}
