use flavours::operations::families::families;
use flavours::operations::list::{list, list_entries, listing_text, ListError};
use flavours::operations::partner::{all_scheme_slugs, partner_report, resolve_partner};
use flavours::operations::toggle::{next_scheme, resolve_schemes, toggle_message, NothingToToggle};
use flavours::slugs::SchemeName;
use flavours::variant::Variant;

fn stem(s: &str) -> SchemeName {
    SchemeName::Stem(s.to_string())
}

fn strings(v: &[&str]) -> Vec<String> {
    v.iter().map(|s| s.to_string()).collect()
}

#[test]
fn all_scheme_slugs_sorts_and_dedups() {
    let found = vec![stem("nord"), SchemeName::NoStem, stem("dracula"), stem("nord"), SchemeName::NotUnicode, stem("base16-default-dark")];
    assert_eq!(all_scheme_slugs(&found), strings(&["base16-default-dark", "dracula", "nord"]));
    assert_eq!(all_scheme_slugs(&vec![]), Vec::<String>::new());
}

#[test]
fn slugs_sort_by_characters() {
    let found = vec![stem("b"), stem("a-b"), stem("a"), stem("A"), stem("é")];
    assert_eq!(all_scheme_slugs(&found), strings(&["A", "a", "a-b", "b", "é"]));
}

#[test]
fn resolve_partner_finds_or_explains() {
    let found = vec![stem("gruvbox-light"), stem("gruvbox-dark"), stem("nord")];
    assert_eq!(resolve_partner("gruvbox-dark", &found).unwrap(), "gruvbox-light");
    let err = resolve_partner("nord", &found).unwrap_err();
    assert_eq!(err.slug, "nord");
    assert_eq!(err.family, "nord");
    assert_eq!(err.wanted, Variant::Light);
    assert_eq!(
        err.message(),
        "No partner scheme found for 'nord' (family 'nord', looking for light variant)"
    );
}

#[test]
fn partner_report_names_scheme_partner_family() {
    let found = vec![stem("rose-pine"), stem("rose-pine-dawn")];
    let r = partner_report("rose-pine-dawn", &found).unwrap();
    assert_eq!(r.scheme, "rose-pine-dawn");
    assert_eq!(r.partner, "rose-pine");
    assert_eq!(r.family, "rose-pine");
    assert!(partner_report("rose-pine-moon", &found).is_err());
}

#[test]
fn resolve_schemes_keeps_pattern_order() {
    let found = vec![vec![stem("zenburn")], vec![stem("b"), stem("a"), stem("zenburn"), stem("a")], vec![SchemeName::NoStem, stem("c")]];
    assert_eq!(resolve_schemes(&found), strings(&["zenburn", "a", "b", "c"]));
    assert_eq!(resolve_schemes(&vec![]), Vec::<String>::new());
}

#[test]
fn next_scheme_wraps_around() {
    let schemes = strings(&["a", "b", "c"]);
    assert_eq!(next_scheme(&schemes, Some("a")).unwrap(), "b");
    assert_eq!(next_scheme(&schemes, Some("c")).unwrap(), "a");
    assert_eq!(next_scheme(&schemes, None).unwrap(), "a");
    assert_eq!(next_scheme(&schemes, Some("x")).unwrap(), "a");
    assert!(next_scheme(&vec![], Some("a")).is_err());
}

#[test]
fn toggling_cycles_back() {
    let schemes = strings(&["a", "b", "c", "d"]);
    let mut cur = "c".to_string();
    for _ in 0..schemes.len() {
        cur = next_scheme(&schemes, Some(cur.as_str())).unwrap();
    }
    assert_eq!(cur, "c");
}

#[test]
fn toggle_messages() {
    assert_eq!(toggle_message(Some("a"), "b"), "Toggling from a to b");
    assert_eq!(toggle_message(None, "b"), "No current scheme found, applying b");
    assert_eq!(
        NothingToToggle.message(),
        "None of the given patterns matched an installed scheme. Check the names, or run 'flavours update all' first."
    );
}

#[test]
fn list_sorts_and_reports_errors() {
    let ok = vec![vec![stem("b"), stem("a")], vec![stem("a")]];
    assert_eq!(list(&ok).unwrap(), strings(&["a", "b"]));
    let bad = vec![vec![stem("a")], vec![SchemeName::NotUnicode, SchemeName::NoStem]];
    assert_eq!(list(&bad).unwrap_err(), ListError::NotConvertible);
    let bad2 = vec![vec![SchemeName::NoStem, SchemeName::NotUnicode]];
    assert_eq!(list(&bad2).unwrap_err(), ListError::NoName);
    assert_eq!(list(&vec![vec![], vec![]]).unwrap_err(), ListError::NoMatch);
    assert_eq!(ListError::NoMatch.message(), "No matching scheme found");
    assert_eq!(ListError::NoName.message(), "Couldn't get scheme name");
    assert_eq!(ListError::NotConvertible.message(), "Couldn't convert name");
}

#[test]
fn list_long_entries() {
    let e = list_entries(&strings(&["gruvbox-dark-hard", "rose-pine-dawn"]));
    assert_eq!(e.len(), 2);
    assert_eq!(e[0].slug, "gruvbox-dark-hard");
    assert_eq!(e[0].family, "gruvbox-hard");
    assert_eq!(e[0].mode, "dark");
    assert_eq!(e[1].family, "rose-pine");
    assert_eq!(e[1].mode, "light");
}

#[test]
fn listing_text_lines_or_spaces() {
    let s = strings(&["a", "bc"]);
    assert_eq!(listing_text(&s, true), "a\nbc\n");
    assert_eq!(listing_text(&s, false), "a bc \n");
    assert_eq!(listing_text(&vec![], false), "\n");
    assert_eq!(listing_text(&vec![], true), "");
}

#[test]
fn families_table() {
    let found = vec![
        stem("gruvbox-light"),
        stem("nord"),
        stem("gruvbox-dark"),
        stem("gruvbox-dark-hard"),
        stem("gruvbox-light-hard"),
        stem("rose-pine-dawn"),
    ];
    let t = families(&found).unwrap();
    let names: Vec<&str> = t.iter().map(|e| e.family.as_str()).collect();
    assert_eq!(names, vec!["gruvbox", "gruvbox-hard", "nord", "rose-pine"]);
    assert_eq!(t[0].dark.as_deref(), Some("gruvbox-dark"));
    assert_eq!(t[0].light.as_deref(), Some("gruvbox-light"));
    assert_eq!(t[1].dark.as_deref(), Some("gruvbox-dark-hard"));
    assert_eq!(t[2].dark.as_deref(), Some("nord"));
    assert_eq!(t[2].light, None);
    assert_eq!(t[3].dark, None);
    assert_eq!(t[3].light.as_deref(), Some("rose-pine-dawn"));
}

#[test]
fn families_keeps_the_first_of_each_variant() {
    let found = vec![stem("x-dark"), stem("x"), stem("x-night")];
    let t = families(&found).unwrap();
    assert_eq!(t.len(), 1);
    assert_eq!(t[0].family, "x");
    assert_eq!(t[0].dark.as_deref(), Some("x"));
    assert_eq!(t[0].light, None);
}

#[test]
fn families_without_schemes() {
    let e = families(&vec![SchemeName::NoStem]).unwrap_err();
    assert_eq!(e.message(), "No schemes installed. Run 'flavours update all' first.");
}
