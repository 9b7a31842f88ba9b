//! Grouping installed schemes into families of light and dark variants.
//!
//! The table of families is a `Vec` kept strictly sorted by family name, with no name
//! twice, in place of a `BTreeMap<String, _>`: vstd's `BTreeMap` specification holds only
//! for keys whose `Ord` obeys vstd's comparison model (`obeys_cmp`), which vstd establishes
//! for integers but not for `String`. The order of names here is the one proved a strict
//! total order in `order`.
use vstd::prelude::*;
use crate::order::{compare_str, is_strict_total, strictly_sorted, Order};
use crate::operations::partner::all_scheme_slugs;
use crate::slugs::{has_stem, lemma_slug_order, slug_order, stem_listing, views, SchemeName};
use crate::variant::{family, spec_family, spec_variant, variant, Variant};

verus! {

/// One family: its name, and the first installed dark and light schemes of it.
#[derive(Debug)]
pub struct FamilyEntry {
    pub family: String,
    pub dark: Option<String>,
    pub light: Option<String>,
}

/// No scheme is installed.
#[derive(Debug)]
pub struct NoSchemesInstalled;

impl NoSchemesInstalled {
    pub fn message(&self) -> (res: String)
        ensures
            res@ == "No schemes installed. Run 'flavours update all' first."@,
    {
        String::from_str("No schemes installed. Run 'flavours update all' first.")
    }
}

/// The first slug of `slugs` of family `fam` and variant `v`, if any.
pub open spec fn first_with(slugs: Seq<Seq<char>>, fam: Seq<char>, v: Variant) -> Option<
    Seq<char>,
>
    decreases slugs.len(),
{
    if slugs.len() == 0 {
        None
    } else {
        let earlier = first_with(slugs.drop_last(), fam, v);
        if earlier is Some {
            earlier
        } else if spec_family(slugs.last()) == fam && spec_variant(slugs.last()) == v {
            Some(slugs.last())
        } else {
            None
        }
    }
}

/// Some slug of `slugs` is of family `fam`.
pub open spec fn has_family(slugs: Seq<Seq<char>>, fam: Seq<char>) -> bool {
    exists|i: int| 0 <= i < slugs.len() && spec_family(#[trigger] slugs[i]) == fam
}

/// The text of an optional string.
pub open spec fn opt_string_view(s: Option<String>) -> Option<Seq<char>> {
    match s {
        Some(x) => Some(x@),
        None => None,
    }
}

/// The family names of a table.
pub open spec fn family_names(t: Seq<FamilyEntry>) -> Seq<Seq<char>> {
    t.map_values(|e: FamilyEntry| e.family@)
}

/// The table describes the families of `slugs`: sorted by family name, one entry per
/// family of some slug, each with the first dark and the first light slug of its family.
pub open spec fn is_family_table(t: Seq<FamilyEntry>, slugs: Seq<Seq<char>>) -> bool {
    &&& strictly_sorted(family_names(t), slug_order())
    &&& forall|f: Seq<char>| family_names(t).contains(f) <==> has_family(slugs, f)
    &&& forall|i: int|
        0 <= i < t.len() ==> {
            &&& opt_string_view((#[trigger] t[i]).dark) == first_with(slugs, t[i].family@, Variant::Dark)
            &&& opt_string_view(t[i].light) == first_with(slugs, t[i].family@, Variant::Light)
        }
}

/// A copy of an optional string.
fn copy_opt(s: &Option<String>) -> (res: Option<String>)
    ensures
        opt_string_view(res) == opt_string_view(*s),
{
    match s {
        Some(x) => Some(x.clone()),
        None => None,
    }
}

proof fn lemma_first_with_push(slugs: Seq<Seq<char>>, x: Seq<char>, fam: Seq<char>, v: Variant)
    ensures
        first_with(slugs.push(x), fam, v) == if first_with(slugs, fam, v) is Some {
            first_with(slugs, fam, v)
        } else if spec_family(x) == fam && spec_variant(x) == v {
            Some(x)
        } else {
            None
        },
{
    assert(slugs.push(x).drop_last() =~= slugs);
}

proof fn lemma_has_family_push(slugs: Seq<Seq<char>>, x: Seq<char>)
    ensures
        forall|f: Seq<char>|
            has_family(slugs.push(x), f) <==> (has_family(slugs, f) || spec_family(x) == f),
{
    let p = slugs.push(x);
    assert forall|f: Seq<char>| has_family(p, f) <==> (has_family(slugs, f) || spec_family(x) == f) by {
        if has_family(p, f) {
            let i = choose|i: int| 0 <= i < p.len() && spec_family(#[trigger] p[i]) == f;
            if i < slugs.len() {
                assert(slugs[i] == p[i]);
            }
        }
        if has_family(slugs, f) {
            let i = choose|i: int| 0 <= i < slugs.len() && spec_family(#[trigger] slugs[i]) == f;
            assert(p[i] == slugs[i]);
        }
        if spec_family(x) == f {
            assert(p[slugs.len() as int] == x);
        }
    }
}

/// Add one slug to a family table.
fn add_to_table(table: &mut Vec<FamilyEntry>, slug: &String, Ghost(done): Ghost<Seq<Seq<char>>>)
    requires
        is_family_table(old(table)@, done),
    ensures
        is_family_table(final(table)@, done.push(slug@)),
{
    proof {
        lemma_slug_order();
        lemma_has_family_push(done, slug@);
    }
    let ghost lt = slug_order();
    let ghost next = done.push(slug@);
    let fam = family(slug.as_str());
    let var = variant(slug.as_str());
    let ghost names = family_names(table@);
    let mut k: usize = 0;
    while k < table.len()
        invariant
            is_strict_total(lt),
            lt == slug_order(),
            names == family_names(table@),
            is_family_table(table@, done),
            k <= table.len(),
            forall|j: int| 0 <= j < k ==> lt(#[trigger] names[j], fam@),
        ensures
            is_family_table(table@, done),
            names == family_names(table@),
            k <= table.len(),
            forall|j: int| 0 <= j < k ==> lt(#[trigger] names[j], fam@),
            k < table.len() ==> !lt(names[k as int], fam@),
        decreases table.len() - k,
    {
        assert(names[k as int] == table@[k as int].family@);
        match compare_str(table[k].family.as_str(), fam.as_str()) {
            Order::Less => {
                k = k + 1;
            },
            _ => {
                break;
            },
        }
    }
    if k < table.len() && table[k].family == fam {
        // the family is known: fill in the variant if it is still missing
        let ghost before = table@;
        let ghost idx = k as int;
        let entry = &table[k];
        let dark = if var == Variant::Dark && entry.dark.is_none() {
            Some(slug.clone())
        } else {
            copy_opt(&entry.dark)
        };
        let light = if var == Variant::Light && entry.light.is_none() {
            Some(slug.clone())
        } else {
            copy_opt(&entry.light)
        };
        let updated = FamilyEntry { family: fam, dark, light };
        table.set(k, updated);
        proof {
            assert(family_names(table@) =~= family_names(before));
            assert forall|i: int| 0 <= i < table@.len() implies {
                &&& opt_string_view((#[trigger] table@[i]).dark) == first_with(
                    next,
                    table@[i].family@,
                    Variant::Dark,
                )
                &&& opt_string_view(table@[i].light) == first_with(
                    next,
                    table@[i].family@,
                    Variant::Light,
                )
            } by {
                lemma_first_with_push(done, slug@, table@[i].family@, Variant::Dark);
                lemma_first_with_push(done, slug@, table@[i].family@, Variant::Light);
                if i != idx {
                    assert(table@[i] == before[i]);
                    assert(names[i] != names[idx]) by {
                        if i < idx {
                            assert(lt(names[i], names[idx]));
                        } else {
                            assert(lt(names[idx], names[i]));
                        }
                    }
                }
            }
            assert(names[idx] == before[idx].family@);
            assert(names[idx] == fam@);
            assert(fam@ == spec_family(slug@));
            assert forall|f: Seq<char>| family_names(table@).contains(f) <==> has_family(next, f) by {
                assert(family_names(before).contains(f) <==> has_family(done, f));
                assert(has_family(next, f) <==> (has_family(done, f) || spec_family(slug@) == f));
                if f == fam@ {
                    assert(names.contains(f));
                }
            }
        }
    } else {
        // a new family: it goes at position k
        let ghost before = table@;
        let entry = FamilyEntry {
            family: fam,
            dark: if var == Variant::Dark {
                Some(slug.clone())
            } else {
                None
            },
            light: if var == Variant::Light {
                Some(slug.clone())
            } else {
                None
            },
        };
        let ghost fam_view = entry.family@;
        proof {
            // the family is not in the table yet, so no earlier slug is of it
            assert(!family_names(before).contains(fam_view)) by {
                if family_names(before).contains(fam_view) {
                    let j = choose|j: int| 0 <= j < names.len() && names[j] == fam_view;
                    if j < k {
                        assert(lt(names[j], fam_view));
                    } else if j > k {
                        assert(lt(names[k as int], names[j]));
                        assert(lt(names[k as int], fam_view));
                        assert(names[k as int] != fam_view);
                    }
                }
            }
            assert(!has_family(done, fam_view));
            lemma_first_without_family(done, fam_view, Variant::Dark);
            lemma_first_without_family(done, fam_view, Variant::Light);
            // every family from position k on comes after the new one
            if k < table.len() {
                assert(names[k as int] == before[k as int].family@);
                assert(names[k as int] != fam_view);
                assert(!lt(names[k as int], fam_view));
                assert(lt(fam_view, names[k as int]) || lt(names[k as int], fam_view));
                assert(lt(fam_view, names[k as int]));
            }
            assert forall|j: int| k <= j < names.len() implies lt(fam_view, #[trigger] names[j]) by {
                if j > k {
                    assert(lt(names[k as int], names[j]));
                }
            }
        }
        table.insert(k, entry);
        proof {
            let nn = family_names(table@);
            assert(nn =~= names.insert(k as int, fam_view));
            assert forall|a: int, b: int| 0 <= a < b < nn.len() implies lt(
                #[trigger] nn[a],
                #[trigger] nn[b],
            ) by {
                if b < k {
                } else if a < k && b == k {
                } else if a < k {
                    assert(lt(names[a], names[b - 1]));
                } else if a == k {
                } else {
                    assert(lt(names[a - 1], names[b - 1]));
                }
            }
            assert(fam_view == spec_family(slug@));
            assert forall|f: Seq<char>| nn.contains(f) <==> has_family(next, f) by {
                assert(names.contains(f) <==> has_family(done, f));
                assert(has_family(next, f) <==> (has_family(done, f) || spec_family(slug@) == f));
                if nn.contains(f) {
                    let j = choose|j: int| 0 <= j < nn.len() && nn[j] == f;
                    if j < k {
                        assert(names[j] == f);
                        assert(names.contains(f));
                    } else if j > k {
                        assert(names[j - 1] == f);
                        assert(names.contains(f));
                    }
                }
                if names.contains(f) {
                    let j = choose|j: int| 0 <= j < names.len() && names[j] == f;
                    if j < k {
                        assert(nn[j] == f);
                    } else {
                        assert(nn[j + 1] == f);
                    }
                }
                if f == fam_view {
                    assert(nn[k as int] == f);
                }
            }
            assert forall|i: int| 0 <= i < table@.len() implies {
                &&& opt_string_view((#[trigger] table@[i]).dark) == first_with(
                    next,
                    table@[i].family@,
                    Variant::Dark,
                )
                &&& opt_string_view(table@[i].light) == first_with(
                    next,
                    table@[i].family@,
                    Variant::Light,
                )
            } by {
                lemma_first_with_push(done, slug@, table@[i].family@, Variant::Dark);
                lemma_first_with_push(done, slug@, table@[i].family@, Variant::Light);
                if i < k {
                    assert(table@[i] == before[i]);
                    assert(lt(names[i], fam_view));
                } else if i > k {
                    assert(table@[i] == before[i - 1]);
                    assert(lt(fam_view, names[i - 1]));
                }
            }
        }
    }
}

/// No slug of a family that does not occur is the first of it.
proof fn lemma_first_without_family(slugs: Seq<Seq<char>>, fam: Seq<char>, v: Variant)
    requires
        !has_family(slugs, fam),
    ensures
        first_with(slugs, fam, v) is None,
    decreases slugs.len(),
{
    if slugs.len() > 0 {
        assert(!has_family(slugs.drop_last(), fam)) by {
            if has_family(slugs.drop_last(), fam) {
                let i = choose|i: int|
                    0 <= i < slugs.drop_last().len() && spec_family(
                        #[trigger] slugs.drop_last()[i],
                    ) == fam;
                assert(slugs[i] == slugs.drop_last()[i]);
            }
        }
        lemma_first_without_family(slugs.drop_last(), fam, v);
        assert(slugs[slugs.len() - 1] == slugs.last());
    }
}

/// The families of the installed schemes (given the names of the scheme files found),
/// sorted by name, each with the first installed dark and light slug of it in slug order.
/// An error when no scheme is installed.
pub fn families(found: &Vec<SchemeName>) -> (res: Result<Vec<FamilyEntry>, NoSchemesInstalled>)
    ensures
        res is Err <==> stem_listing(found@).len() == 0,
        res is Err <==> !exists|x: Seq<char>| has_stem(found@, x),
        res matches Ok(t) ==> is_family_table(t@, stem_listing(found@)),
{
    let slugs = all_scheme_slugs(found);
    if slugs.len() == 0 {
        assert forall|x: Seq<char>| !has_stem(found@, x) by {
            if has_stem(found@, x) {
                assert(views(slugs@).contains(x));
            }
        }
        return Err(NoSchemesInstalled);
    }
    assert(views(slugs@).contains(views(slugs@)[0]));
    assert(has_stem(found@, views(slugs@)[0]));
    let mut table: Vec<FamilyEntry> = Vec::new();
    let mut i: usize = 0;
    proof {
        assert(family_names(table@) =~= Seq::<Seq<char>>::empty());
        assert forall|f: Seq<char>| !has_family(views(slugs@).subrange(0, 0), f) by {}
    }
    while i < slugs.len()
        invariant
            i <= slugs.len(),
            is_family_table(table@, views(slugs@).subrange(0, i as int)),
        decreases slugs.len() - i,
    {
        add_to_table(&mut table, &slugs[i], Ghost(views(slugs@).subrange(0, i as int)));
        assert(views(slugs@).subrange(0, i as int).push(slugs@[i as int]@) =~= views(
            slugs@,
        ).subrange(0, i + 1));
        i = i + 1;
    }
    assert(views(slugs@).subrange(0, slugs.len() as int) =~= views(slugs@));
    Ok(table)
}

/// What `first_with` gives, if anything, is a slug of the list, of that family and variant.
pub open spec fn first_with_fits(slugs: Seq<Seq<char>>, fam: Seq<char>, v: Variant) -> bool {
    match first_with(slugs, fam, v) {
        Some(x) => slugs.contains(x) && spec_family(x) == fam && spec_variant(x) == v,
        None => true,
    }
}

/// What `first_with` gives is a slug of the list, of that family and variant; and a family
/// that occurs has a first slug of one variant or the other.
proof fn lemma_first_with_facts(slugs: Seq<Seq<char>>, fam: Seq<char>)
    ensures
        forall|v: Variant| #[trigger] first_with_fits(slugs, fam, v),
        has_family(slugs, fam) ==> first_with(slugs, fam, Variant::Dark) is Some || first_with(
            slugs,
            fam,
            Variant::Light,
        ) is Some,
    decreases slugs.len(),
{
    if slugs.len() > 0 {
        let rest = slugs.drop_last();
        lemma_first_with_facts(rest, fam);
        assert forall|v: Variant| #[trigger] first_with_fits(slugs, fam, v) by {
            assert(first_with_fits(rest, fam, v));
            if first_with(rest, fam, v) is Some {
                let x = first_with(rest, fam, v)->Some_0;
                let q = choose|q: int| 0 <= q < rest.len() && rest[q] == x;
                assert(slugs[q] == x);
            } else {
                assert(slugs[slugs.len() - 1] == slugs.last());
            }
        }
        if has_family(slugs, fam) {
            let q = choose|q: int| 0 <= q < slugs.len() && spec_family(#[trigger] slugs[q]) == fam;
            if q < rest.len() {
                assert(rest[q] == slugs[q]);
                assert(has_family(rest, fam));
            } else {
                assert(slugs[q] == slugs.last());
            }
        }
    }
}

/// Law: each family in the table has a dark or a light scheme (or both), and the schemes it
/// names are installed ones of that family and of the variant they stand under.
pub proof fn lemma_family_entries(t: Seq<FamilyEntry>, slugs: Seq<Seq<char>>, i: int)
    requires
        is_family_table(t, slugs),
        0 <= i < t.len(),
    ensures
        t[i].dark is Some || t[i].light is Some,
        t[i].dark matches Some(d) ==> slugs.contains(d@) && spec_family(d@) == t[i].family@
            && spec_variant(d@) == Variant::Dark,
        t[i].light matches Some(l) ==> slugs.contains(l@) && spec_family(l@) == t[i].family@
            && spec_variant(l@) == Variant::Light,
{
    let f = t[i].family@;
    assert(family_names(t)[i] == f);
    assert(family_names(t).contains(f));
    lemma_first_with_facts(slugs, f);
    assert(first_with_fits(slugs, f, Variant::Dark));
    assert(first_with_fits(slugs, f, Variant::Light));
}

} // verus!
