//! Listing the schemes that patterns match.
use vstd::prelude::*;
use crate::slugs::{
    has_stem, is_stem, lemma_push_contains, lemma_stem_listing, slug_order, sorted_slugs,
    sorted_stems, stem_listing, views, SchemeName,
};
use crate::order::strictly_sorted;
use crate::text::string_from_chars;
use crate::variant::{family, spec_family, spec_variant, variant};

verus! {

/// Why listing fails.
#[derive(Debug, PartialEq, Eq, Structural)]
pub enum ListError {
    /// A found scheme file has no file stem.
    NoName,
    /// A found scheme file's stem is not valid Unicode.
    NotConvertible,
    /// No scheme matched.
    NoMatch,
}

impl ListError {
    pub fn message(&self) -> (res: String)
        ensures
            *self == ListError::NoName ==> res@ == "Couldn't get scheme name"@,
            *self == ListError::NotConvertible ==> res@ == "Couldn't convert name"@,
            *self == ListError::NoMatch ==> res@ == "No matching scheme found"@,
    {
        match self {
            ListError::NoName => String::from_str("Couldn't get scheme name"),
            ListError::NotConvertible => String::from_str("Couldn't convert name"),
            ListError::NoMatch => String::from_str("No matching scheme found"),
        }
    }
}

/// Every found name, pattern after pattern, in order.
pub open spec fn all_found(found: Seq<Vec<SchemeName>>) -> Seq<SchemeName>
    decreases found.len(),
{
    if found.len() == 0 {
        Seq::empty()
    } else {
        all_found(found.drop_last()) + found.last()@
    }
}

/// The first index at or after `from` of a name without a usable stem, or -1.
pub open spec fn first_unnamed_from(names: Seq<SchemeName>, from: int) -> int
    decreases names.len() - from,
{
    if from < 0 || from >= names.len() {
        -1
    } else if names[from] is Stem {
        first_unnamed_from(names, from + 1)
    } else {
        from
    }
}

/// What listing gives: the error of the first found name without a usable stem; else, when
/// nothing was found, `NoMatch`; else the sorted slugs without duplicates.
pub open spec fn list_outcome(found: Seq<Vec<SchemeName>>) -> Result<Seq<Seq<char>>, ListError> {
    let names = all_found(found);
    let b = first_unnamed_from(names, 0);
    if b >= 0 {
        if names[b] is NoStem {
            Err(ListError::NoName)
        } else {
            Err(ListError::NotConvertible)
        }
    } else if names.len() == 0 {
        Err(ListError::NoMatch)
    } else {
        Ok(stem_listing(names))
    }
}

/// The found names are exactly the names that some pattern found.
proof fn lemma_all_found_members(found: Seq<Vec<SchemeName>>)
    ensures
        forall|n: SchemeName|
            all_found(found).contains(n) <==> exists|i: int, j: int|
                0 <= i < found.len() && 0 <= j < found[i]@.len() && #[trigger] found[i]@[j] == n,
    decreases found.len(),
{
    if found.len() > 0 {
        let init = found.drop_last();
        lemma_all_found_members(init);
        let a = all_found(init);
        let l = found.last()@;
        assert(all_found(found) == a + l);
        assert forall|n: SchemeName|
            all_found(found).contains(n) <==> exists|i: int, j: int|
                0 <= i < found.len() && 0 <= j < found[i]@.len() && #[trigger] found[i]@[j]
                    == n by {
            let all = a + l;
            if all.contains(n) {
                let k = choose|k: int| 0 <= k < all.len() && all[k] == n;
                if k < a.len() {
                    assert(a[k] == n);
                    assert(a.contains(n));
                    let (i, j) = choose|i: int, j: int|
                        0 <= i < init.len() && 0 <= j < init[i]@.len() && #[trigger] init[i]@[j]
                            == n;
                    assert(found[i] == init[i]);
                    assert(found[i]@[j] == n);
                } else {
                    let i = found.len() - 1;
                    assert(found[i]@[k - a.len()] == n);
                }
            }
            if exists|i: int, j: int|
                0 <= i < found.len() && 0 <= j < found[i]@.len() && #[trigger] found[i]@[j] == n {
                let (i, j) = choose|i: int, j: int|
                    0 <= i < found.len() && 0 <= j < found[i]@.len() && #[trigger] found[i]@[j]
                        == n;
                if i < found.len() - 1 {
                    assert(init[i] == found[i]);
                    assert(init[i]@[j] == n);
                    assert(a.contains(n));
                    let k = choose|k: int| 0 <= k < a.len() && a[k] == n;
                    assert(all[k] == n);
                } else {
                    assert(all[a.len() + j] == n);
                }
            }
        }
    }
}

/// No name from `from` on lacks a stem exactly when none is found there.
proof fn lemma_no_unnamed(names: Seq<SchemeName>, from: int)
    requires
        0 <= from,
    ensures
        first_unnamed_from(names, from) == -1 || from <= first_unnamed_from(names, from),
        first_unnamed_from(names, from) == -1 <==> forall|k: int|
            from <= k < names.len() ==> (#[trigger] names[k]) is Stem,
    decreases names.len() - from,
{
    if from < names.len() {
        lemma_no_unnamed(names, from + 1);
    }
}

/// Law: listing succeeds exactly when some pattern found a file and every found file has a
/// usable name; it then gives, sorted and without duplicates, exactly the stems that some
/// pattern found.
pub proof fn lemma_list_outcome(found: Seq<Vec<SchemeName>>)
    ensures
        list_outcome(found) is Ok <==> {
            &&& exists|i: int| 0 <= i < found.len() && (#[trigger] found[i])@.len() > 0
            &&& forall|i: int, j: int|
                0 <= i < found.len() && 0 <= j < found[i]@.len() ==> (#[trigger] found[i]@[j]) is Stem
        },
        list_outcome(found) matches Ok(v) ==> {
            &&& strictly_sorted(v, slug_order())
            &&& forall|x: Seq<char>|
                v.contains(x) <==> exists|i: int, j: int|
                    0 <= i < found.len() && 0 <= j < found[i]@.len() && is_stem(
                        #[trigger] found[i]@[j],
                        x,
                    )
        },
{
    let names = all_found(found);
    lemma_all_found_members(found);
    lemma_no_unnamed(names, 0);
    lemma_stem_listing(names);
    let some = exists|i: int| 0 <= i < found.len() && (#[trigger] found[i])@.len() > 0;
    let stems = forall|i: int, j: int|
        0 <= i < found.len() && 0 <= j < found[i]@.len() ==> (#[trigger] found[i]@[j]) is Stem;
    assert(some <==> names.len() > 0) by {
        if names.len() > 0 {
            assert(names.contains(names[0]));
            let (i, j) = choose|i: int, j: int|
                0 <= i < found.len() && 0 <= j < found[i]@.len() && #[trigger] found[i]@[j]
                    == names[0];
            assert(found[i]@.len() > 0);
        }
        if some {
            let i = choose|i: int| 0 <= i < found.len() && (#[trigger] found[i])@.len() > 0;
            assert(found[i]@[0] == found[i]@[0]);
            assert(names.contains(found[i]@[0]));
        }
    }
    assert(stems <==> forall|k: int| 0 <= k < names.len() ==> (#[trigger] names[k]) is Stem) by {
        if stems {
            assert forall|k: int| 0 <= k < names.len() implies (#[trigger] names[k]) is Stem by {
                assert(names.contains(names[k]));
                let (i, j) = choose|i: int, j: int|
                    0 <= i < found.len() && 0 <= j < found[i]@.len() && #[trigger] found[i]@[j]
                        == names[k];
            }
        }
        if forall|k: int| 0 <= k < names.len() ==> (#[trigger] names[k]) is Stem {
            assert forall|i: int, j: int|
                0 <= i < found.len() && 0 <= j < found[i]@.len() implies (
                #[trigger] found[i]@[j]) is Stem by {
                assert(names.contains(found[i]@[j]));
                let k = choose|k: int| 0 <= k < names.len() && names[k] == found[i]@[j];
            }
        }
    }
    assert forall|x: Seq<char>|
        has_stem(names, x) <==> exists|i: int, j: int|
            0 <= i < found.len() && 0 <= j < found[i]@.len() && is_stem(
                #[trigger] found[i]@[j],
                x,
            ) by {
        if has_stem(names, x) {
            let k = choose|k: int| 0 <= k < names.len() && is_stem(#[trigger] names[k], x);
            assert(names.contains(names[k]));
            let (i, j) = choose|i: int, j: int|
                0 <= i < found.len() && 0 <= j < found[i]@.len() && #[trigger] found[i]@[j]
                    == names[k];
            assert(is_stem(found[i]@[j], x));
        }
        if exists|i: int, j: int|
            0 <= i < found.len() && 0 <= j < found[i]@.len() && is_stem(
                #[trigger] found[i]@[j],
                x,
            ) {
            let (i, j) = choose|i: int, j: int|
                0 <= i < found.len() && 0 <= j < found[i]@.len() && is_stem(
                    #[trigger] found[i]@[j],
                    x,
                );
            assert(names.contains(found[i]@[j]));
            let k = choose|k: int| 0 <= k < names.len() && names[k] == found[i]@[j];
            assert(is_stem(names[k], x));
        }
    }
}

/// A copy of a found name.
fn copy_name(name: &SchemeName) -> (res: SchemeName)
    ensures
        res == *name,
{
    match name {
        SchemeName::Stem(s) => SchemeName::Stem(s.clone()),
        SchemeName::NoStem => SchemeName::NoStem,
        SchemeName::NotUnicode => SchemeName::NotUnicode,
    }
}

/// Every found name, pattern after pattern, in order.
pub fn flatten_found(found: &Vec<Vec<SchemeName>>) -> (res: Vec<SchemeName>)
    ensures
        res@ == all_found(found@),
{
    let mut res: Vec<SchemeName> = Vec::new();
    let mut k: usize = 0;
    assert(all_found(found@.subrange(0, 0)) =~= Seq::<SchemeName>::empty());
    while k < found.len()
        invariant
            k <= found.len(),
            res@ == all_found(found@.subrange(0, k as int)),
        decreases found.len() - k,
    {
        let group = &found[k];
        let ghost start = res@;
        let mut m: usize = 0;
        while m < group.len()
            invariant
                m <= group.len(),
                res@ == start + group@.subrange(0, m as int),
            decreases group.len() - m,
        {
            res.push(copy_name(&group[m]));
            m = m + 1;
            assert(res@ =~= start + group@.subrange(0, m as int));
        }
        proof {
            let upto = found@.subrange(0, k + 1);
            assert(upto.drop_last() =~= found@.subrange(0, k as int));
            assert(group@.subrange(0, group.len() as int) =~= group@);
        }
        k = k + 1;
    }
    assert(found@.subrange(0, found.len() as int) =~= found@);
    res
}

proof fn lemma_first_unnamed(names: Seq<SchemeName>, p: int, from: int)
    requires
        0 <= from <= p <= names.len(),
        forall|q: int| 0 <= q < p ==> names[q] is Stem,
        p < names.len() ==> !(names[p] is Stem),
    ensures
        first_unnamed_from(names, from) == if p == names.len() {
            -1
        } else {
            p
        },
    decreases p - from,
{
    if from < p {
        lemma_first_unnamed(names, p, from + 1);
    }
}

/// The slugs that the patterns matched (given the names of the scheme files that each
/// pattern found): sorted, without duplicates; an error for a found file without a usable
/// name, or when nothing matched.
pub fn list(found: &Vec<Vec<SchemeName>>) -> (res: Result<Vec<String>, ListError>)
    ensures
        match res {
            Ok(v) => list_outcome(found@) == Ok::<Seq<Seq<char>>, ListError>(views(v@))
                && sorted_slugs(v@),
            Err(e) => list_outcome(found@) == Err::<Seq<Seq<char>>, ListError>(e),
        },
{
    let names = flatten_found(found);
    let mut i: usize = 0;
    while i < names.len()
        invariant
            i <= names.len(),
            names@ == all_found(found@),
            forall|q: int| 0 <= q < i ==> names@[q] is Stem,
        decreases names.len() - i,
    {
        match &names[i] {
            SchemeName::Stem(_) => {},
            SchemeName::NoStem => {
                proof {
                    lemma_first_unnamed(names@, i as int, 0);
                }
                return Err(ListError::NoName);
            },
            SchemeName::NotUnicode => {
                proof {
                    lemma_first_unnamed(names@, i as int, 0);
                }
                return Err(ListError::NotConvertible);
            },
        }
        i = i + 1;
    }
    proof {
        lemma_first_unnamed(names@, names.len() as int, 0);
    }
    let slugs = sorted_stems(&names);
    if slugs.len() == 0 {
        if names.len() > 0 {
            let ghost s = names@[0]->Stem_0;
            assert(is_stem(names@[0], s@));
            assert(has_stem(names@, s@));
            assert(views(slugs@).contains(s@));
        }
        return Err(ListError::NoMatch);
    }
    if names.len() == 0 {
        assert(views(slugs@).contains(views(slugs@)[0]));
    }
    Ok(slugs)
}

/// One entry of the long JSON listing: the slug, its family, and its mode.
#[derive(Debug)]
pub struct ListEntry {
    pub slug: String,
    pub family: String,
    pub mode: &'static str,
}

/// The entry of the long listing for each slug, in order.
pub fn list_entries(slugs: &Vec<String>) -> (res: Vec<ListEntry>)
    ensures
        res.len() == slugs.len(),
        forall|i: int|
            0 <= i < slugs.len() ==> {
                &&& (#[trigger] res@[i]).slug@ == slugs@[i]@
                &&& res@[i].family@ == spec_family(slugs@[i]@)
                &&& res@[i].mode@ == spec_variant(slugs@[i]@).spec_name()
            },
{
    let mut res: Vec<ListEntry> = Vec::new();
    let mut i: usize = 0;
    while i < slugs.len()
        invariant
            i <= slugs.len(),
            res.len() == i,
            forall|j: int|
                0 <= j < i ==> {
                    &&& (#[trigger] res@[j]).slug@ == slugs@[j]@
                    &&& res@[j].family@ == spec_family(slugs@[j]@)
                    &&& res@[j].mode@ == spec_variant(slugs@[j]@).spec_name()
                },
        decreases slugs.len() - i,
    {
        let slug = slugs[i].as_str();
        res.push(
            ListEntry { slug: slugs[i].clone(), family: family(slug), mode: variant(slug).as_str() },
        );
        i = i + 1;
    }
    res
}

/// Each slug followed by `sep`, in order.
pub open spec fn joined(slugs: Seq<Seq<char>>, sep: char) -> Seq<char>
    decreases slugs.len(),
{
    if slugs.len() == 0 {
        Seq::empty()
    } else {
        joined(slugs.drop_last(), sep) + slugs.last() + seq![sep]
    }
}

/// The plain listing: each slug on its own line, or all on one line separated (and ended)
/// by spaces, then a line break.
pub open spec fn listing(slugs: Seq<Seq<char>>, lines: bool) -> Seq<char> {
    if lines {
        joined(slugs, '\n')
    } else {
        joined(slugs, ' ') + seq!['\n']
    }
}

/// The text of the plain listing of `slugs`.
pub fn listing_text(slugs: &Vec<String>, lines: bool) -> (res: String)
    ensures
        res@ == listing(views(slugs@), lines),
{
    let sep = if lines {
        '\n'
    } else {
        ' '
    };
    let mut out: Vec<char> = Vec::new();
    let mut i: usize = 0;
    while i < slugs.len()
        invariant
            i <= slugs.len(),
            out@ == joined(views(slugs@).subrange(0, i as int), sep),
        decreases slugs.len() - i,
    {
        let ghost before = out@;
        let s = crate::text::chars_of(slugs[i].as_str());
        let mut k: usize = 0;
        while k < s.len()
            invariant
                k <= s.len(),
                out@ == before + s@.subrange(0, k as int),
            decreases s.len() - k,
        {
            out.push(s[k]);
            k = k + 1;
            assert(out@ =~= before + s@.subrange(0, k as int));
        }
        out.push(sep);
        proof {
            let upto = views(slugs@).subrange(0, i + 1);
            assert(upto.drop_last() =~= views(slugs@).subrange(0, i as int));
            assert(upto.last() == slugs@[i as int]@);
            assert(s@.subrange(0, s.len() as int) =~= s@);
            assert(out@ =~= joined(upto, sep));
        }
        i = i + 1;
    }
    assert(views(slugs@).subrange(0, slugs.len() as int) =~= views(slugs@));
    if !lines {
        out.push('\n');
    }
    string_from_chars(&out)
}

} // verus!
