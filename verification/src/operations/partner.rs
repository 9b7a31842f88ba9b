//! Finding the light/dark partner of a scheme among the installed ones.
use vstd::prelude::*;
use crate::slugs::{has_stem, sorted_slugs, sorted_stems, stem_listing, views, SchemeName};
use crate::variant::{family, is_partner, partner, spec_family, spec_variant, variant, Variant};

verus! {

/// No installed scheme is a partner of the given one.
#[derive(Debug)]
pub struct NoPartner {
    /// The scheme whose partner was looked for.
    pub slug: String,
    /// Its family.
    pub family: String,
    /// The variant that the partner would have had.
    pub wanted: Variant,
}

impl NoPartner {
    /// The error message: the slug, its family, and the variant looked for.
    pub fn message(&self) -> (res: String)
        ensures
            res@ == "No partner scheme found for '"@ + self.slug@ + "' (family '"@ + self.family@
                + "', looking for "@ + self.wanted.spec_name() + " variant)"@,
    {
        let mut res = String::from_str("No partner scheme found for '");
        res.append(self.slug.as_str());
        res.append("' (family '");
        res.append(self.family.as_str());
        res.append("', looking for ");
        res.append(self.wanted.as_str());
        res.append(" variant)");
        res
    }
}

/// `p` is the first partner of `slug` in `all`.
pub open spec fn is_first_partner(slug: Seq<char>, all: Seq<Seq<char>>, p: Seq<char>) -> bool {
    exists|i: int|
        0 <= i < all.len() && all[i] == p && is_partner(slug, p) && forall|j: int|
            0 <= j < i ==> !is_partner(slug, #[trigger] all[j])
}

/// `all` holds no partner of `slug`.
pub open spec fn has_no_partner(slug: Seq<char>, all: Seq<Seq<char>>) -> bool {
    forall|i: int| 0 <= i < all.len() ==> !is_partner(slug, #[trigger] all[i])
}

/// The slugs of every installed scheme, given the names of the scheme files found: the
/// stems, sorted, without duplicates. Names without a usable stem are left out.
pub fn all_scheme_slugs(found: &Vec<SchemeName>) -> (res: Vec<String>)
    ensures
        views(res@) == stem_listing(found@),
        sorted_slugs(res@),
        forall|x: Seq<char>| views(res@).contains(x) <==> has_stem(found@, x),
{
    sorted_stems(found)
}

/// Resolve the partner scheme for `slug` among the installed schemes (given as the names of
/// the scheme files found): the first partner in slug order, or an error naming the slug,
/// its family and the variant looked for.
pub fn resolve_partner(slug: &str, found: &Vec<SchemeName>) -> (res: Result<String, NoPartner>)
    ensures
        match res {
            Ok(p) => is_first_partner(slug@, stem_listing(found@), p@),
            Err(e) => {
                &&& has_no_partner(slug@, stem_listing(found@))
                &&& e.slug@ == slug@
                &&& e.family@ == spec_family(slug@)
                &&& e.wanted == spec_variant(slug@).spec_opposite()
            },
        },
{
    let all = all_scheme_slugs(found);
    match partner(slug, &all) {
        Some(p) => {
            proof {
                let i = choose|i: int|
                    0 <= i < all@.len() && all@[i]@ == p@ && is_partner(slug@, p@) && forall|j: int|
                        0 <= j < i ==> !is_partner(slug@, #[trigger] all@[j]@);
                assert(views(all@)[i] == p@);
                assert forall|j: int| 0 <= j < i implies !is_partner(slug@, #[trigger] views(all@)[j]) by {
                    assert(views(all@)[j] == all@[j]@);
                }
            }
            Ok(p)
        },
        None => {
            assert(forall|i: int| 0 <= i < all@.len() ==> views(all@)[i] == all@[i]@);
            Err(
                NoPartner {
                    slug: String::from_str(slug),
                    family: family(slug),
                    wanted: variant(slug).opposite(),
                },
            )
        },
    }
}

/// What the partner subcommand reports: the scheme, its partner, and their family.
#[derive(Debug)]
pub struct PartnerReport {
    pub scheme: String,
    pub partner: String,
    pub family: String,
}

/// The report on the partner of `source` among the installed schemes.
pub fn partner_report(source: &str, found: &Vec<SchemeName>) -> (res: Result<
    PartnerReport,
    NoPartner,
>)
    ensures
        match res {
            Ok(r) => {
                &&& r.scheme@ == source@
                &&& is_first_partner(source@, stem_listing(found@), r.partner@)
                &&& r.family@ == spec_family(source@)
            },
            Err(e) => {
                &&& has_no_partner(source@, stem_listing(found@))
                &&& e.slug@ == source@
                &&& e.family@ == spec_family(source@)
                &&& e.wanted == spec_variant(source@).spec_opposite()
            },
        },
{
    let partner = resolve_partner(source, found)?;
    Ok(PartnerReport { scheme: String::from_str(source), partner, family: family(source) })
}

} // verus!
