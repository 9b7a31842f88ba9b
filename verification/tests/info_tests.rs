use flavours::color::{color_line, colors_enabled, hex_color, rgb_color_line, true_color, HexError};
use flavours::operations::info::{
    collect_schemes, info_lines, parse_scheme, scheme_hex_colors, scheme_slug, SchemeNameError,
    SchemePath,
};
use flavours::slugs::SchemeName;

fn path(parts: &[&str]) -> SchemePath {
    SchemePath { components: parts.iter().map(|p| p.as_bytes().to_vec()).collect() }
}

fn parts(p: &SchemePath) -> Vec<String> {
    p.components.iter().map(|c| String::from_utf8(c.clone()).unwrap()).collect()
}

#[test]
fn hex_color_formats_lowercase() {
    assert_eq!(hex_color([0x7c, 0xaf, 0xc2]), "#7cafc2");
    assert_eq!(hex_color([0, 10, 255]), "#000aff");
}

#[test]
fn true_color_escapes() {
    assert_eq!(true_color("7cafc2", true).unwrap(), "\x1b[48;2;124;175;194m");
    assert_eq!(true_color("7CAFC2", false).unwrap(), "\x1b[38;2;124;175;194m");
    assert_eq!(true_color("000000ff", false).unwrap(), "\x1b[38;2;0;0;0m");
    assert_eq!(true_color("123", true).unwrap_err(), HexError::OddLength);
    assert_eq!(
        true_color("12345g", true).unwrap_err(),
        HexError::InvalidHexCharacter { c: 'g', index: 5 }
    );
}

#[test]
fn color_lines() {
    assert_eq!(
        color_line("0a0b0c").unwrap(),
        "\x1b[48;2;10;11;12m #0a0b0c \x1b[0m  \x1b[38;2;10;11;12m#0a0b0c\x1b[0m"
    );
    assert_eq!(
        rgb_color_line([10, 11, 12]),
        "\x1b[48;2;10;11;12m #0a0b0c \x1b[0m  \x1b[38;2;10;11;12m#0a0b0c\x1b[0m"
    );
    assert!(color_line("zz").is_err());
}

#[test]
fn colors_enabled_rules() {
    assert!(colors_enabled(None, true));
    assert!(colors_enabled(Some(String::new()), true));
    assert!(!colors_enabled(Some("1".to_string()), true));
    assert!(!colors_enabled(None, false));
}

#[test]
fn collect_schemes_orders_by_components() {
    let found = vec![
        vec![path(&["/", "s", "tinted", "b.yaml"]), path(&["/", "s", "tinted-extra", "a.yaml"])],
        vec![path(&["/", "s", "tinted", "b.yaml"])],
    ];
    let got = collect_schemes(&found).unwrap();
    assert_eq!(got.len(), 2);
    assert_eq!(parts(&got[0]), vec!["/", "s", "tinted", "b.yaml"]);
    assert_eq!(parts(&got[1]), vec!["/", "s", "tinted-extra", "a.yaml"]);
    assert!(collect_schemes(&vec![vec![], vec![]]).is_err());
    assert_eq!(collect_schemes(&vec![]).unwrap_err().message(), "No matching scheme found");
}

#[test]
fn scheme_slug_from_names() {
    assert_eq!(scheme_slug(&SchemeName::Stem("nord".to_string())).unwrap(), "nord");
    assert_eq!(scheme_slug(&SchemeName::NoStem).unwrap_err(), SchemeNameError::NoName);
    assert_eq!(scheme_slug(&SchemeName::NotUnicode).unwrap_err(), SchemeNameError::NotConvertible);
    assert_eq!(SchemeNameError::NoName.message(), "Couldn't get scheme name.");
    assert_eq!(SchemeNameError::NotConvertible.message(), "Couldn't convert scheme file name.");
}

#[test]
fn parse_scheme_reads_yaml() {
    let yaml = "scheme: \"Scheme Name\"\nauthor: \"Scheme Author\"\nbase01: \"000000\"\nbase00: \"7CaFc2\"\n";
    let s = parse_scheme(yaml, "my-slug").unwrap();
    assert_eq!(s.scheme, "Scheme Name");
    assert_eq!(s.author, "Scheme Author");
    assert_eq!(s.slug, "my-slug");
    assert_eq!(s.colors, vec![[0x7c, 0xaf, 0xc2], [0, 0, 0]]);
    assert_eq!(scheme_hex_colors(&s), vec!["#7cafc2".to_string(), "#000000".to_string()]);
    assert!(parse_scheme("author: only", "x").is_err());
}

#[test]
fn info_lines_layout() {
    let yaml = "scheme: \"N\"\nauthor: \"A\"\nbase00: \"0a0b0c\"\n";
    let s = parse_scheme(yaml, "n").unwrap();
    assert_eq!(
        info_lines(&s, "/p/n.yaml", true),
        vec!["N (n) @ /p/n.yaml".to_string(), "by A".to_string(), "#0a0b0c".to_string()]
    );
    let colored = info_lines(&s, "/p/n.yaml", false);
    assert_eq!(colored.len(), 3);
    assert_eq!(colored[2], rgb_color_line([10, 11, 12]));
}

#[test]
fn hex_errors_count_utf8_bytes() {
    // 'é' is two bytes, 0xC3 0xA9: the error reports the first byte and its byte index
    assert_eq!(
        true_color("é1234", true).unwrap_err(),
        HexError::InvalidHexCharacter { c: '\u{c3}', index: 0 }
    );
    assert_eq!(color_line("é123").unwrap_err(), HexError::OddLength);
    assert_eq!(
        color_line("12é45").unwrap_err(),
        HexError::InvalidHexCharacter { c: '\u{c3}', index: 2 }
    );
}
