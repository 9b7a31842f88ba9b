//! Light/dark variants of scheme slugs, their families, and their partners.
use vstd::prelude::*;
use crate::text::{
    chars_of, collapse, collapse_chars, contains, drop_suffix, ends_with, ends_with_chars, first_index,
    find_chars, is_marker, lemma_collapse_any_step, lemma_collapse_passes_step,
    lemma_collapse_removes, lemma_first_index, lemma_step_keeps_absence, marker_step, occurs_at,
    replace_at, string_from_chars,
};

verus! {

/// Whether a scheme is meant for a dark or a light background.
#[derive(Debug, Clone, Copy, PartialEq, Eq, Structural)]
pub enum Variant {
    Dark,
    Light,
}

impl Variant {
    /// The variant on the other side.
    pub open spec fn spec_opposite(self) -> Variant {
        match self {
            Variant::Dark => Variant::Light,
            Variant::Light => Variant::Dark,
        }
    }

    /// The lower-case name of the variant.
    pub open spec fn spec_name(self) -> Seq<char> {
        match self {
            Variant::Dark => seq!['d', 'a', 'r', 'k'],
            Variant::Light => seq!['l', 'i', 'g', 'h', 't'],
        }
    }

    pub fn opposite(self) -> (res: Variant)
        ensures
            res == self.spec_opposite(),
    {
        match self {
            Variant::Dark => Variant::Light,
            Variant::Light => Variant::Dark,
        }
    }

    pub fn as_str(self) -> (res: &'static str)
        ensures
            res@ == self.spec_name(),
    {
        proof {
            reveal_strlit("dark");
            reveal_strlit("light");
        }
        match self {
            Variant::Dark => "dark",
            Variant::Light => "light",
        }
    }
}

pub open spec fn dark_suffix() -> Seq<char> { seq!['-', 'd', 'a', 'r', 'k'] }
pub open spec fn light_suffix() -> Seq<char> { seq!['-', 'l', 'i', 'g', 'h', 't'] }
pub open spec fn dawn_suffix() -> Seq<char> { seq!['-', 'd', 'a', 'w', 'n'] }
pub open spec fn night_suffix() -> Seq<char> { seq!['-', 'n', 'i', 'g', 'h', 't'] }
pub open spec fn day_suffix() -> Seq<char> { seq!['-', 'd', 'a', 'y'] }
pub open spec fn dark_infix() -> Seq<char> { seq!['-', 'd', 'a', 'r', 'k', '-'] }
pub open spec fn light_infix() -> Seq<char> { seq!['-', 'l', 'i', 'g', 'h', 't', '-'] }
pub open spec fn hyphen() -> Seq<char> { seq!['-'] }

/// A slug is light when it ends with `-light`, `-dawn` or `-day`, or holds `-light-`;
/// every other slug is dark.
pub open spec fn spec_variant(slug: Seq<char>) -> Variant {
    if ends_with(slug, light_suffix()) || ends_with(slug, dawn_suffix()) || ends_with(
        slug,
        day_suffix(),
    ) || contains(slug, light_infix()) {
        Variant::Light
    } else {
        Variant::Dark
    }
}

/// `t` without the first of `-dark`, `-light`, `-dawn`, `-night`, `-day` that it ends with.
pub open spec fn strip_variant_suffix(t: Seq<char>) -> Seq<char> {
    if ends_with(t, dark_suffix()) {
        drop_suffix(t, dark_suffix())
    } else if ends_with(t, light_suffix()) {
        drop_suffix(t, light_suffix())
    } else if ends_with(t, dawn_suffix()) {
        drop_suffix(t, dawn_suffix())
    } else if ends_with(t, night_suffix()) {
        drop_suffix(t, night_suffix())
    } else if ends_with(t, day_suffix()) {
        drop_suffix(t, day_suffix())
    } else {
        t
    }
}

/// The family of a slug: every `-dark-` and then every `-light-` collapsed into a single
/// hyphen, then one trailing variant suffix removed.
pub open spec fn spec_family(slug: Seq<char>) -> Seq<char> {
    strip_variant_suffix(
        collapse(collapse(slug, dark_infix(), hyphen()), light_infix(), hyphen()),
    )
}

/// `cand` is a partner of `slug`: another slug of the same family and the opposite variant.
pub open spec fn is_partner(slug: Seq<char>, cand: Seq<char>) -> bool {
    &&& cand != slug
    &&& spec_family(cand) == spec_family(slug)
    &&& spec_variant(cand) == spec_variant(slug).spec_opposite()
}

/// Infer whether a scheme slug names a light or dark variant.
///
/// Slugs ending with `-light`, `-dawn`, or `-day`, or containing `-light-` as an infix, are
/// light; everything else is dark.
pub fn variant(slug: &str) -> (res: Variant)
    ensures
        res == spec_variant(slug@),
{
    let s = chars_of(slug);
    let light: Vec<char> = vec!['-', 'l', 'i', 'g', 'h', 't'];
    let dawn: Vec<char> = vec!['-', 'd', 'a', 'w', 'n'];
    let day: Vec<char> = vec!['-', 'd', 'a', 'y'];
    let light_in: Vec<char> = vec!['-', 'l', 'i', 'g', 'h', 't', '-'];
    proof {
        lemma_first_index(s@, light_infix());
    }
    if ends_with_chars(&s, &light) || ends_with_chars(&s, &dawn) || ends_with_chars(&s, &day)
        || find_chars(&s, &light_in).is_some() {
        Variant::Light
    } else {
        Variant::Dark
    }
}

/// `t` without `suffix` when it ends with it.
fn drop_suffix_chars(t: &mut Vec<char>, suffix: &Vec<char>) -> (dropped: bool)
    ensures
        dropped == ends_with(old(t)@, suffix@),
        dropped ==> final(t)@ == drop_suffix(old(t)@, suffix@),
        !dropped ==> final(t)@ == old(t)@,
{
    if ends_with_chars(t, suffix) {
        let n = t.len() - suffix.len();
        t.truncate(n);
        true
    } else {
        false
    }
}

/// `t` with the first listed variant suffix that it ends with removed.
fn strip_variant_suffix_chars(t: Vec<char>) -> (res: Vec<char>)
    ensures
        res@ == strip_variant_suffix(t@),
{
    let mut t = t;
    if drop_suffix_chars(&mut t, &vec!['-', 'd', 'a', 'r', 'k']) {
        return t;
    }
    if drop_suffix_chars(&mut t, &vec!['-', 'l', 'i', 'g', 'h', 't']) {
        return t;
    }
    if drop_suffix_chars(&mut t, &vec!['-', 'd', 'a', 'w', 'n']) {
        return t;
    }
    if drop_suffix_chars(&mut t, &vec!['-', 'n', 'i', 'g', 'h', 't']) {
        return t;
    }
    drop_suffix_chars(&mut t, &vec!['-', 'd', 'a', 'y']);
    t
}

/// Derive the family name of a scheme by stripping the light/dark suffix (or infix).
/// Slugs without a recognised suffix are returned as-is.
///
/// Examples: `rose-pine-dawn` -> `rose-pine`, `gruvbox-dark-hard` -> `gruvbox-hard`,
/// `gruvbox-material-dark-medium` -> `gruvbox-material-medium`, `nord` -> `nord`.
pub fn family(slug: &str) -> (res: String)
    ensures
        res@ == spec_family(slug@),
{
    let s = chars_of(slug);
    let hyphen_chars: Vec<char> = vec!['-'];
    let dark_in: Vec<char> = vec!['-', 'd', 'a', 'r', 'k', '-'];
    let light_in: Vec<char> = vec!['-', 'l', 'i', 'g', 'h', 't', '-'];
    assert(hyphen_chars@ == hyphen());
    assert(dark_in@ == dark_infix());
    assert(light_in@ == light_infix());
    let s = collapse_chars(s, &dark_in, &hyphen_chars);
    let s = collapse_chars(s, &light_in, &hyphen_chars);
    let s = strip_variant_suffix_chars(s);
    string_from_chars(&s)
}

/// Find the partner scheme for `slug` from a list of all installed slugs: the first slug
/// that shares the same family and has the opposite variant. `None` if there is none.
pub fn partner(slug: &str, all: &Vec<String>) -> (res: Option<String>)
    ensures
        match res {
            Some(p) => exists|i: int|
                0 <= i < all@.len() && all@[i]@ == p@ && is_partner(slug@, p@) && forall|j: int|
                    0 <= j < i ==> !is_partner(slug@, #[trigger] all@[j]@),
            None => forall|i: int| 0 <= i < all@.len() ==> !is_partner(slug@, #[trigger] all@[i]@),
        },
{
    let target_family = family(slug);
    let target_variant = variant(slug).opposite();
    let own = String::from_str(slug);
    let mut i: usize = 0;
    while i < all.len()
        invariant
            i <= all.len(),
            target_family@ == spec_family(slug@),
            target_variant == spec_variant(slug@).spec_opposite(),
            own@ == slug@,
            forall|j: int| 0 <= j < i ==> !is_partner(slug@, #[trigger] all@[j]@),
        decreases all.len() - i,
    {
        let candidate = &all[i];
        if *candidate != own && family(candidate.as_str()) == target_family && variant(
            candidate.as_str(),
        ) == target_variant {
            return Some(candidate.clone());
        }
        i = i + 1;
    }
    None
}

/// Law: taking the opposite twice gives back the variant, and the opposite always differs.
pub proof fn lemma_opposite_involution(v: Variant)
    ensures
        v.spec_opposite().spec_opposite() == v,
        v.spec_opposite() != v,
{
}

/// Law: the partner relation is symmetric. If `cand` is a partner of `slug`, then `slug` is
/// a partner of `cand`, so each of two installed partners finds a partner of the other's kind.
pub proof fn lemma_partner_symmetric(slug: Seq<char>, cand: Seq<char>)
    requires
        is_partner(slug, cand),
    ensures
        is_partner(cand, slug),
{
    lemma_opposite_involution(spec_variant(slug));
}

/// Law: a slug that ends with `-dark` or `-night` and holds no `-light-` is dark.
pub proof fn lemma_dark_markers(slug: Seq<char>)
    requires
        ends_with(slug, dark_suffix()) || ends_with(slug, night_suffix()),
        !contains(slug, light_infix()),
    ensures
        spec_variant(slug) == Variant::Dark,
{
    let n = slug.len();
    if ends_with(slug, dark_suffix()) {
        assert(slug[n - 1] == dark_suffix()[4]);
    } else {
        assert(slug[n - 1] == night_suffix()[5]);
        assert(slug[n - 5] == night_suffix()[1]);
    }
    if ends_with(slug, light_suffix()) {
        assert(slug[n - 1] == light_suffix()[5]);
        assert(slug[n - 5] == light_suffix()[1]);
    }
    if ends_with(slug, dawn_suffix()) {
        assert(slug[n - 1] == dawn_suffix()[4]);
    }
    if ends_with(slug, day_suffix()) {
        assert(slug[n - 1] == day_suffix()[3]);
    }
}

/// Law: a slug with no variant marker at all (no `-dark-` or `-light-` infix, no variant
/// suffix) is its own family.
pub proof fn lemma_family_of_neutral_slug(slug: Seq<char>)
    requires
        !contains(slug, dark_infix()),
        !contains(slug, light_infix()),
        !ends_with(slug, dark_suffix()),
        !ends_with(slug, light_suffix()),
        !ends_with(slug, dawn_suffix()),
        !ends_with(slug, night_suffix()),
        !ends_with(slug, day_suffix()),
    ensures
        spec_family(slug) == slug,
{
    lemma_first_index(slug, dark_infix());
    lemma_first_index(slug, light_infix());
}

/// `-dark-` and `-light-` are markers, told apart by their second character.
proof fn lemma_markers()
    ensures
        is_marker(dark_infix()),
        is_marker(light_infix()),
        dark_infix()[1] != light_infix()[1],
{
    assert forall|k: int| 0 < k < 5 implies dark_infix()[k] != '-' by {}
    assert forall|k: int| 0 < k < 6 implies light_infix()[k] != '-' by {}
}

/// Collapsing `-light-` into hyphens creates no `-dark-`.
proof fn lemma_collapse_light_keeps_no_dark(t: Seq<char>)
    requires
        !contains(t, dark_infix()),
    ensures
        !contains(collapse(t, light_infix(), hyphen()), dark_infix()),
    decreases t.len(),
{
    lemma_first_index(t, light_infix());
    let i = first_index(t, light_infix());
    if 0 <= i && i + 7 <= t.len() {
        lemma_markers();
        lemma_step_keeps_absence(t, light_infix(), i, dark_infix());
        lemma_collapse_light_keeps_no_dark(replace_at(t, i, 7, hyphen()));
    }
}

/// A prefix holds no pattern that the whole text does not hold.
proof fn lemma_prefix_keeps_absence(t: Seq<char>, n: int, pat: Seq<char>)
    requires
        0 <= n <= t.len(),
        !contains(t, pat),
    ensures
        !contains(t.subrange(0, n), pat),
{
    let p = t.subrange(0, n);
    assert forall|j: int| !occurs_at(p, pat, j) by {
        if occurs_at(p, pat, j) {
            assert(t.subrange(j, j + pat.len()) =~= p.subrange(j, j + pat.len()));
            assert(occurs_at(t, pat, j));
        }
    }
}

/// Law: a family name holds no `-dark-` and no `-light-` infix: every such marker has been
/// collapsed.
pub proof fn lemma_family_has_no_markers(slug: Seq<char>)
    ensures
        !contains(spec_family(slug), dark_infix()),
        !contains(spec_family(slug), light_infix()),
{
    let a = collapse(slug, dark_infix(), hyphen());
    lemma_collapse_removes(slug, dark_infix(), hyphen());
    let b = collapse(a, light_infix(), hyphen());
    lemma_collapse_removes(a, light_infix(), hyphen());
    lemma_collapse_light_keeps_no_dark(a);
    let f = strip_variant_suffix(b);
    if f != b {
        lemma_prefix_keeps_absence(b, f.len() as int, dark_infix());
        lemma_prefix_keeps_absence(b, f.len() as int, light_infix());
    }
}

/// Law: collapsing one `-dark-` or `-light-` marker into a hyphen never changes the family,
/// wherever the marker stands.
pub proof fn lemma_family_ignores_one_marker(a: Seq<char>, b: Seq<char>)
    ensures
        spec_family(a + dark_infix() + b) == spec_family(a + hyphen() + b),
        spec_family(a + light_infix() + b) == spec_family(a + hyphen() + b),
{
    lemma_markers();
    let j = a.len() as int;
    let sd = a + dark_infix() + b;
    assert(sd.subrange(j, j + 6) =~= dark_infix());
    assert(marker_step(sd, j, dark_infix()) =~= a + hyphen() + b);
    lemma_collapse_any_step(sd, dark_infix(), j);
    let sl = a + light_infix() + b;
    assert(sl.subrange(j, j + 7) =~= light_infix());
    assert(marker_step(sl, j, light_infix()) =~= a + hyphen() + b);
    let k = lemma_collapse_passes_step(sl, dark_infix(), light_infix(), j);
    lemma_collapse_any_step(collapse(sl, dark_infix(), hyphen()), light_infix(), k);
}

/// Law: a slug with `-light-` anywhere inside, or ending with `-light`, `-dawn` or `-day`,
/// is light, whatever else it holds.
pub proof fn lemma_light_markers(a: Seq<char>, b: Seq<char>)
    ensures
        spec_variant(a + light_infix() + b) == Variant::Light,
        spec_variant(a + light_suffix()) == Variant::Light,
        spec_variant(a + dawn_suffix()) == Variant::Light,
        spec_variant(a + day_suffix()) == Variant::Light,
{
    let j = a.len() as int;
    let s = a + light_infix() + b;
    assert(s.subrange(j, j + 7) =~= light_infix());
    assert(occurs_at(s, light_infix(), j));
    let l = a + light_suffix();
    assert(l.subrange(l.len() - 6, l.len() as int) =~= light_suffix());
    let w = a + dawn_suffix();
    assert(w.subrange(w.len() - 5, w.len() as int) =~= dawn_suffix());
    let y = a + day_suffix();
    assert(y.subrange(y.len() - 4, y.len() as int) =~= day_suffix());
}

} // verus!
