//! Showing the colors of schemes.
use vstd::prelude::*;
use crate::color::{color_line_text, hex_color, hex_rgb, rgb_color_line};
use crate::order::{
    byte_lt, groups_contain, is_strict_total, keys, lemma_byte_order, lemma_lex_exclusive,
    lemma_lex_strict_total, lex_lt, lex_lt_at, sort_unique_groups, strictly_sorted, Order,
    SortKey,
};
use crate::slugs::SchemeName;

verus! {

/// The path of a found scheme file, as the sequence of its components. Each component is a
/// byte string whose byte order is the order of path components (so paths are ordered, and
/// equal, as `Path` orders and compares them: component by component).
#[derive(Debug)]
pub struct SchemePath {
    pub components: Vec<Vec<u8>>,
}

/// The order of path components: by bytes.
pub open spec fn component_order() -> spec_fn(Seq<u8>, Seq<u8>) -> bool {
    |a: Seq<u8>, b: Seq<u8>| lex_lt(a, b, byte_lt())
}

/// The order of paths: by components.
pub open spec fn path_order() -> spec_fn(Seq<Seq<u8>>, Seq<Seq<u8>>) -> bool {
    |a: Seq<Seq<u8>>, b: Seq<Seq<u8>>| lex_lt(a, b, component_order())
}

/// The components of a path, as byte strings.
pub open spec fn path_key(p: SchemePath) -> Seq<Seq<u8>> {
    p.components@.map_values(|c: Vec<u8>| c@)
}

proof fn lemma_path_order()
    ensures
        is_strict_total(component_order()),
        is_strict_total(path_order()),
{
    lemma_byte_order();
    lemma_lex_strict_total(byte_lt());
    lemma_lex_strict_total(component_order());
}

/// Compare two byte strings.
fn compare_bytes(a: &Vec<u8>, b: &Vec<u8>) -> (res: Order)
    ensures
        res == Order::Less <==> lex_lt(a@, b@, byte_lt()),
        res == Order::Equal <==> a@ == b@,
        res == Order::Greater <==> lex_lt(b@, a@, byte_lt()),
{
    proof {
        lemma_byte_order();
        lemma_lex_exclusive(a@, b@, byte_lt());
        lemma_lex_exclusive(b@, a@, byte_lt());
    }
    let mut i: usize = 0;
    loop
        invariant
            i <= a.len(),
            i <= b.len(),
            forall|m: int| 0 <= m < i ==> a@[m] == b@[m],
            lex_lt(a@, b@, byte_lt()) ==> !lex_lt(b@, a@, byte_lt()) && a@ != b@,
            lex_lt(b@, a@, byte_lt()) ==> !lex_lt(a@, b@, byte_lt()) && a@ != b@,
        decreases a.len() - i,
    {
        if i == a.len() {
            if i == b.len() {
                assert(a@ =~= b@);
                return Order::Equal;
            } else {
                assert(lex_lt_at(a@, b@, byte_lt(), i as int));
                return Order::Less;
            }
        } else if i == b.len() {
            assert(lex_lt_at(b@, a@, byte_lt(), i as int));
            return Order::Greater;
        } else if a[i] < b[i] {
            assert(lex_lt_at(a@, b@, byte_lt(), i as int));
            return Order::Less;
        } else if b[i] < a[i] {
            assert(lex_lt_at(b@, a@, byte_lt(), i as int));
            return Order::Greater;
        } else {
            i = i + 1;
        }
    }
}

/// Compare two paths, component by component.
fn compare_paths(a: &SchemePath, b: &SchemePath) -> (res: Order)
    ensures
        res == Order::Less <==> (path_order())(path_key(*a), path_key(*b)),
        res == Order::Equal <==> path_key(*a) == path_key(*b),
        res == Order::Greater <==> (path_order())(path_key(*b), path_key(*a)),
{
    let ghost ka = path_key(*a);
    let ghost kb = path_key(*b);
    proof {
        lemma_path_order();
        lemma_lex_exclusive(ka, kb, component_order());
        lemma_lex_exclusive(kb, ka, component_order());
    }
    let x = &a.components;
    let y = &b.components;
    let mut i: usize = 0;
    loop
        invariant
            ka == path_key(*a),
            kb == path_key(*b),
            *x == a.components,
            *y == b.components,
            is_strict_total(component_order()),
            i <= x.len(),
            i <= y.len(),
            forall|m: int| 0 <= m < i ==> ka[m] == kb[m],
            lex_lt(ka, kb, component_order()) ==> !lex_lt(kb, ka, component_order()) && ka != kb,
            lex_lt(kb, ka, component_order()) ==> !lex_lt(ka, kb, component_order()) && ka != kb,
        decreases x.len() - i,
    {
        if i == x.len() {
            if i == y.len() {
                assert(ka =~= kb);
                return Order::Equal;
            } else {
                assert(lex_lt_at(ka, kb, component_order(), i as int));
                return Order::Less;
            }
        } else if i == y.len() {
            assert(lex_lt_at(kb, ka, component_order(), i as int));
            return Order::Greater;
        } else {
            assert(ka[i as int] == x@[i as int]@ && kb[i as int] == y@[i as int]@);
            match compare_bytes(&x[i], &y[i]) {
                Order::Less => {
                    assert(lex_lt_at(ka, kb, component_order(), i as int));
                    return Order::Less;
                },
                Order::Greater => {
                    assert(lex_lt_at(kb, ka, component_order(), i as int));
                    return Order::Greater;
                },
                Order::Equal => {
                    i = i + 1;
                },
            }
        }
    }
}

/// A copy of a byte string.
fn copy_bytes(v: &Vec<u8>) -> (res: Vec<u8>)
    ensures
        res@ == v@,
{
    let mut res: Vec<u8> = Vec::new();
    let mut i: usize = 0;
    while i < v.len()
        invariant
            i <= v.len(),
            res@ == v@.subrange(0, i as int),
        decreases v.len() - i,
    {
        res.push(v[i]);
        i = i + 1;
    }
    assert(res@ =~= v@);
    res
}

impl SortKey for SchemePath {
    type Key = Seq<Seq<u8>>;

    open spec fn key(&self) -> Seq<Seq<u8>> {
        path_key(*self)
    }

    open spec fn key_order() -> spec_fn(Seq<Seq<u8>>, Seq<Seq<u8>>) -> bool {
        path_order()
    }

    proof fn lemma_key_order() {
        lemma_path_order();
    }

    fn compare(&self, other: &Self) -> (res: Order) {
        compare_paths(self, other)
    }

    fn duplicate(&self) -> (res: Self) {
        let mut components: Vec<Vec<u8>> = Vec::new();
        let mut i: usize = 0;
        while i < self.components.len()
            invariant
                i <= self.components.len(),
                components.len() == i,
                forall|j: int| 0 <= j < i ==> (#[trigger] components@[j])@ == self.components@[j]@,
            decreases self.components.len() - i,
        {
            components.push(copy_bytes(&self.components[i]));
            i = i + 1;
        }
        let res = SchemePath { components };
        assert(path_key(res) =~= path_key(*self));
        res
    }
}

/// No scheme matched.
#[derive(Debug)]
pub struct NoMatchingScheme;

impl NoMatchingScheme {
    pub fn message(&self) -> (res: String)
        ensures
            res@ == "No matching scheme found"@,
    {
        String::from_str("No matching scheme found")
    }
}

/// Collect the scheme files that the patterns found (one list per pattern): sorted by path,
/// without duplicates. An error when no pattern found any.
pub fn collect_schemes(found: &Vec<Vec<SchemePath>>) -> (res: Result<
    Vec<SchemePath>,
    NoMatchingScheme,
>)
    ensures
        res is Err <==> forall|g: int| 0 <= g < found@.len() ==> #[trigger] found@[g]@.len() == 0,
        res matches Ok(v) ==> {
            &&& strictly_sorted(keys(v@), path_order())
            &&& forall|k: Seq<Seq<u8>>| keys(v@).contains(k) <==> groups_contain(found@, k)
        },
{
    let schemes = sort_unique_groups(found);
    if schemes.len() == 0 {
        proof {
            assert forall|g: int| 0 <= g < found@.len() implies #[trigger] found@[g]@.len() == 0 by {
                if found@[g]@.len() > 0 {
                    assert(groups_contain(found@, found@[g]@[0].key()));
                    assert(keys(schemes@).contains(found@[g]@[0].key()));
                }
            }
        }
        return Err(NoMatchingScheme);
    }
    proof {
        let k0 = keys(schemes@)[0];
        assert(keys(schemes@).contains(k0));
        assert(groups_contain(found@, k0));
        let (h, j) = choose|h: int, j: int|
            0 <= h < found@.len() && 0 <= j < found@[h]@.len() && #[trigger] found@[h]@[j].key()
                == k0;
        assert(found@[h]@.len() > 0);
    }
    Ok(schemes)
}

/// Why a found scheme file gives no slug.
#[derive(Debug, PartialEq, Eq, Structural)]
pub enum SchemeNameError {
    /// The path has no file stem.
    NoName,
    /// The file stem is not valid Unicode.
    NotConvertible,
}

impl SchemeNameError {
    pub fn message(&self) -> (res: String)
        ensures
            *self == SchemeNameError::NoName ==> res@ == "Couldn't get scheme name."@,
            *self == SchemeNameError::NotConvertible ==> res@
                == "Couldn't convert scheme file name."@,
    {
        match self {
            SchemeNameError::NoName => String::from_str("Couldn't get scheme name."),
            SchemeNameError::NotConvertible => String::from_str(
                "Couldn't convert scheme file name.",
            ),
        }
    }
}

/// The slug of a scheme, which is the stem of its file name.
pub fn scheme_slug(name: &SchemeName) -> (res: Result<String, SchemeNameError>)
    ensures
        match *name {
            SchemeName::Stem(s) => res matches Ok(t) && t@ == s@,
            SchemeName::NoStem => res == Err::<String, SchemeNameError>(SchemeNameError::NoName),
            SchemeName::NotUnicode => res == Err::<String, SchemeNameError>(
                SchemeNameError::NotConvertible,
            ),
        },
{
    match name {
        SchemeName::Stem(s) => Ok(s.clone()),
        SchemeName::NoStem => Err(SchemeNameError::NoName),
        SchemeName::NotUnicode => Err(SchemeNameError::NotConvertible),
    }
}

/// A base16 scheme: its name, author, slug, and colors (in the order of their base index).
#[derive(Debug)]
pub struct SchemeData {
    pub scheme: String,
    pub author: String,
    pub slug: String,
    pub colors: Vec<[u8; 3]>,
}

/// The error that YAML parsing reports.
#[verifier::external_type_specification]
#[verifier::external_body]
pub struct ExYamlError(serde_yaml::Error);

/// The scheme name, author and colors (in base-index order) that serde_yaml reads from a
/// YAML scheme file into a base16_color_scheme `Scheme`, or `None` where it reports an error.
pub uninterp spec fn yaml_scheme(contents: Seq<char>) -> Option<(Seq<char>, Seq<char>, Seq<[u8; 3]>)>;

/// Parse a YAML scheme file (`serde_yaml::from_str` into base16_color_scheme's `Scheme`).
///
/// Trusted: parsing is a function of the text alone, named `yaml_scheme`; the slug is not
/// read from the file (`Scheme` skips it when deserializing), so it is left empty.
#[verifier::external_body]
fn parse_yaml_scheme(contents: &str) -> (res: Result<SchemeData, serde_yaml::Error>)
    ensures
        res is Ok <==> yaml_scheme(contents@) is Some,
        res matches Ok(d) ==> yaml_scheme(contents@) == Some((d.scheme@, d.author@, d.colors@)),
        res matches Ok(d) ==> d.slug@ == Seq::<char>::empty(),
{
    match serde_yaml::from_str::<base16_color_scheme::Scheme>(contents) {
        Ok(s) => Ok(
            SchemeData {
                scheme: s.scheme,
                author: s.author,
                slug: s.slug,
                colors: s.colors.into_values().map(|c| c.0).collect(),
            },
        ),
        Err(e) => Err(e),
    }
}

/// Read a scheme from the contents of its file, with the file's stem as its slug.
pub fn parse_scheme(contents: &str, slug: &str) -> (res: Result<SchemeData, serde_yaml::Error>)
    ensures
        res is Ok <==> yaml_scheme(contents@) is Some,
        res matches Ok(d) ==> {
            &&& yaml_scheme(contents@) == Some((d.scheme@, d.author@, d.colors@))
            &&& d.slug@ == slug@
        },
{
    let mut scheme = parse_yaml_scheme(contents)?;
    scheme.slug = String::from_str(slug);
    Ok(scheme)
}

/// The colors of a scheme as `#rrggbb` strings, in order.
pub fn scheme_hex_colors(scheme: &SchemeData) -> (res: Vec<String>)
    ensures
        res.len() == scheme.colors.len(),
        forall|i: int|
            0 <= i < res.len() ==> (#[trigger] res@[i])@ == seq!['#'] + hex_rgb(
                scheme.colors@[i],
            ),
{
    let mut res: Vec<String> = Vec::new();
    let mut i: usize = 0;
    while i < scheme.colors.len()
        invariant
            i <= scheme.colors.len(),
            res.len() == i,
            forall|j: int|
                0 <= j < i ==> (#[trigger] res@[j])@ == seq!['#'] + hex_rgb(scheme.colors@[j]),
        decreases scheme.colors.len() - i,
    {
        res.push(hex_color(scheme.colors[i]));
        i = i + 1;
    }
    res
}

/// The line that shows one color: its `#rrggbb` code when plain, else the colored line.
pub open spec fn color_text(color: [u8; 3], plain: bool) -> Seq<char> {
    if plain {
        seq!['#'] + hex_rgb(color)
    } else {
        color_line_text(color[0], color[1], color[2], hex_rgb(color))
    }
}

/// The lines that show a scheme: `NAME (SLUG) @ PATH`, `by AUTHOR`, and one line per color.
pub open spec fn info_text(scheme: SchemeData, path: Seq<char>, plain: bool) -> Seq<Seq<char>> {
    seq![
        scheme.scheme@ + " ("@ + scheme.slug@ + ") @ "@ + path,
        "by "@ + scheme.author@,
    ] + scheme.colors@.map_values(|c: [u8; 3]| color_text(c, plain))
}

/// Law: the text of a scheme is its title line, its author line, and then one line per
/// color, in the order of the scheme's colors (base00 first).
pub proof fn lemma_info_text_lines(scheme: SchemeData, path: Seq<char>, plain: bool)
    ensures
        info_text(scheme, path, plain).len() == 2 + scheme.colors@.len(),
        info_text(scheme, path, plain)[0] == scheme.scheme@ + " ("@ + scheme.slug@ + ") @ "@
            + path,
        info_text(scheme, path, plain)[1] == "by "@ + scheme.author@,
        forall|i: int|
            0 <= i < scheme.colors@.len() ==> info_text(scheme, path, plain)[2 + i] == color_text(
                #[trigger] scheme.colors@[i],
                plain,
            ),
{
}

/// The lines that show a scheme read from the file at `path`.
pub fn info_lines(scheme: &SchemeData, path: &str, plain: bool) -> (res: Vec<String>)
    ensures
        res@.map_values(|s: String| s@) == info_text(*scheme, path@, plain),
{
    let mut res: Vec<String> = Vec::new();
    let mut header = String::from_str(scheme.scheme.as_str());
    header.append(" (");
    header.append(scheme.slug.as_str());
    header.append(") @ ");
    header.append(path);
    res.push(header);
    let mut by = String::from_str("by ");
    by.append(scheme.author.as_str());
    res.push(by);
    let ghost start = res@.len();
    let ghost head = res@.map_values(|s: String| s@);
    let mut i: usize = 0;
    while i < scheme.colors.len()
        invariant
            i <= scheme.colors.len(),
            res@.len() == start + i,
            forall|j: int| 0 <= j < start ==> (#[trigger] res@[j])@ == head[j],
            forall|j: int|
                0 <= j < i ==> (#[trigger] res@[start + j])@ == color_text(scheme.colors@[j], plain),
        decreases scheme.colors.len() - i,
    {
        let line = if plain {
            hex_color(scheme.colors[i])
        } else {
            rgb_color_line(scheme.colors[i])
        };
        res.push(line);
        i = i + 1;
    }
    proof {
        let want = info_text(*scheme, path@, plain);
        let got = res@.map_values(|s: String| s@);
        assert(head.len() == start);
        assert(head =~= want.subrange(0, start as int));
        assert forall|j: int| 0 <= j < got.len() implies got[j] == want[j] by {
            if j < start {
                assert(want[j] == head[j]);
            } else {
                assert(got[j] == res@[start + (j - start)]@);
            }
        }
        assert(got =~= want);
    }
    res
}

} // verus!
