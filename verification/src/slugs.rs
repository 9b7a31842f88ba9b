//! Scheme slugs: the names of found scheme files, and their sorted listings.
use vstd::prelude::*;
use crate::order::{
    char_lt, compare_str, is_strict_total, keys, lemma_char_order, lemma_lex_strict_total,
    lemma_sorted_insert, lemma_sorted_listing_unique, lex_lt, sort_unique, strictly_sorted, Order,
    SortKey,
};

verus! {

/// What the name of a found scheme file gives: its stem (the slug), or the reason that
/// there is none.
#[derive(Debug, PartialEq, Eq)]
pub enum SchemeName {
    /// The file stem, as text.
    Stem(String),
    /// The path has no file stem.
    NoStem,
    /// The file stem is not valid Unicode.
    NotUnicode,
}

/// The order of slugs: by characters, as `str` orders them.
pub open spec fn slug_order() -> spec_fn(Seq<char>, Seq<char>) -> bool {
    |a: Seq<char>, b: Seq<char>| lex_lt(a, b, char_lt())
}

/// The texts of a sequence of strings.
pub open spec fn views(s: Seq<String>) -> Seq<Seq<char>> {
    s.map_values(|x: String| x@)
}

/// The strings are in increasing slug order, without duplicates.
pub open spec fn sorted_slugs(s: Seq<String>) -> bool {
    strictly_sorted(views(s), slug_order())
}

/// The sorted listing, without duplicates, of the slugs that satisfy `keep` (finitely many).
pub open spec fn sorted_listing(keep: spec_fn(Seq<char>) -> bool) -> Seq<Seq<char>> {
    choose|s: Seq<Seq<char>>|
        strictly_sorted(s, slug_order()) && forall|x: Seq<char>| s.contains(x) <==> keep(x)
}

/// The name is the stem `x`.
pub open spec fn is_stem(name: SchemeName, x: Seq<char>) -> bool {
    match name {
        SchemeName::Stem(s) => s@ == x,
        _ => false,
    }
}

/// Some found name has the stem `x`.
pub open spec fn has_stem(names: Seq<SchemeName>, x: Seq<char>) -> bool {
    exists|i: int| 0 <= i < names.len() && is_stem(#[trigger] names[i], x)
}

/// The sorted listing, without duplicates, of the stems among `names`.
pub open spec fn stem_listing(names: Seq<SchemeName>) -> Seq<Seq<char>> {
    sorted_listing(|x: Seq<char>| has_stem(names, x))
}

pub proof fn lemma_slug_order()
    ensures
        is_strict_total(slug_order()),
{
    lemma_char_order();
    lemma_lex_strict_total(char_lt());
}

/// A sorted listing of exactly the slugs that `keep` admits is `sorted_listing(keep)`.
pub proof fn lemma_is_sorted_listing(s: Seq<Seq<char>>, keep: spec_fn(Seq<char>) -> bool)
    requires
        strictly_sorted(s, slug_order()),
        forall|x: Seq<char>| s.contains(x) <==> keep(x),
    ensures
        s == sorted_listing(keep),
{
    lemma_slug_order();
    let t = sorted_listing(keep);
    assert(strictly_sorted(t, slug_order()) && forall|x: Seq<char>| t.contains(x) <==> keep(x));
    lemma_sorted_listing_unique(s, t, slug_order());
}

/// The stems among `names`, as a strictly sorted sequence with no stem twice.
proof fn lemma_stem_witness(names: Seq<SchemeName>) -> (s: Seq<Seq<char>>)
    ensures
        strictly_sorted(s, slug_order()),
        forall|x: Seq<char>| s.contains(x) <==> has_stem(names, x),
    decreases names.len(),
{
    lemma_slug_order();
    if names.len() == 0 {
        Seq::empty()
    } else {
        let init = names.drop_last();
        let s0 = lemma_stem_witness(init);
        assert forall|x: Seq<char>| has_stem(names, x) <==> (has_stem(init, x) || is_stem(
            names.last(),
            x,
        )) by {
            if has_stem(names, x) {
                let i = choose|i: int| 0 <= i < names.len() && is_stem(#[trigger] names[i], x);
                if i < init.len() {
                    assert(init[i] == names[i]);
                }
            }
            if has_stem(init, x) {
                let i = choose|i: int| 0 <= i < init.len() && is_stem(#[trigger] init[i], x);
                assert(names[i] == init[i]);
            }
            if is_stem(names.last(), x) {
                assert(is_stem(names[names.len() - 1], x));
            }
        }
        match names.last() {
            SchemeName::Stem(t) => lemma_sorted_insert(s0, t@, slug_order()),
            _ => s0,
        }
    }
}

/// The sorted listing of the stems among `names` holds exactly those stems.
pub proof fn lemma_stem_listing(names: Seq<SchemeName>)
    ensures
        strictly_sorted(stem_listing(names), slug_order()),
        forall|x: Seq<char>| stem_listing(names).contains(x) <==> has_stem(names, x),
{
    let w = lemma_stem_witness(names);
    lemma_is_sorted_listing(w, |x: Seq<char>| has_stem(names, x));
}

impl SortKey for String {
    type Key = Seq<char>;

    open spec fn key(&self) -> Seq<char> {
        self@
    }

    open spec fn key_order() -> spec_fn(Seq<char>, Seq<char>) -> bool {
        slug_order()
    }

    proof fn lemma_key_order() {
        lemma_slug_order();
    }

    fn compare(&self, other: &Self) -> (res: Order) {
        compare_str(self.as_str(), other.as_str())
    }

    fn duplicate(&self) -> (res: Self) {
        self.clone()
    }
}

/// Pushing a value adds exactly that value to what a sequence contains.
pub proof fn lemma_push_contains<A>(s: Seq<A>, e: A)
    ensures
        forall|x: A| s.push(e).contains(x) <==> (s.contains(x) || x == e),
{
    assert forall|x: A| s.push(e).contains(x) <==> (s.contains(x) || x == e) by {
        if s.push(e).contains(x) {
            let j = choose|j: int| 0 <= j < s.push(e).len() && s.push(e)[j] == x;
            if j < s.len() {
                assert(s[j] == x);
            }
        }
        if s.contains(x) {
            let j = choose|j: int| 0 <= j < s.len() && s[j] == x;
            assert(s.push(e)[j] == x);
        }
        if x == e {
            assert(s.push(e)[s.len() as int] == x);
        }
    }
}

/// A prefix one longer has the stems of the shorter one and those of the added name.
proof fn lemma_has_stem_step(names: Seq<SchemeName>, i: int)
    requires
        0 <= i < names.len(),
    ensures
        forall|x: Seq<char>|
            has_stem(names.subrange(0, i + 1), x) <==> (has_stem(names.subrange(0, i), x)
                || is_stem(names[i], x)),
{
    let done = names.subrange(0, i);
    let next = names.subrange(0, i + 1);
    assert forall|x: Seq<char>| has_stem(next, x) <==> (has_stem(done, x) || is_stem(names[i], x)) by {
        if has_stem(next, x) {
            let m = choose|m: int| 0 <= m < next.len() && is_stem(#[trigger] next[m], x);
            if m < i {
                assert(done[m] == next[m]);
            }
        }
        if has_stem(done, x) {
            let m = choose|m: int| 0 <= m < done.len() && is_stem(#[trigger] done[m], x);
            assert(next[m] == done[m]);
        }
        if is_stem(names[i], x) {
            assert(next[i] == names[i]);
        }
    }
}

/// The stems among `names`, in order.
fn stems_of(names: &Vec<SchemeName>) -> (res: Vec<String>)
    ensures
        forall|x: Seq<char>| views(res@).contains(x) <==> has_stem(names@, x),
{
    let mut res: Vec<String> = Vec::new();
    let mut i: usize = 0;
    while i < names.len()
        invariant
            i <= names.len(),
            forall|x: Seq<char>|
                views(res@).contains(x) <==> has_stem(names@.subrange(0, i as int), x),
        decreases names.len() - i,
    {
        proof {
            lemma_has_stem_step(names@, i as int);
        }
        let ghost before = res@;
        let ghost done = names@.subrange(0, i as int);
        match &names[i] {
            SchemeName::Stem(s) => {
                res.push(s.clone());
                proof {
                    assert(views(res@) =~= views(before).push(s@));
                    lemma_push_contains(views(before), s@);
                    assert(forall|x: Seq<char>| is_stem(names@[i as int], x) <==> x == s@);
                }
            },
            _ => {
                assert(forall|x: Seq<char>| !is_stem(names@[i as int], x));
            },
        }
        let ghost next = names@.subrange(0, i + 1);
        assert forall|x: Seq<char>| views(res@).contains(x) <==> has_stem(next, x) by {
            assert(views(before).contains(x) <==> has_stem(done, x));
            assert(has_stem(next, x) <==> (has_stem(done, x) || is_stem(names@[i as int], x)));
        }
        i = i + 1;
        assert(next == names@.subrange(0, i as int));
    }
    assert(names@.subrange(0, names.len() as int) =~= names@);
    res
}

/// The stems among `names`, sorted, without duplicates.
pub fn sorted_stems(names: &Vec<SchemeName>) -> (res: Vec<String>)
    ensures
        sorted_slugs(res@),
        forall|x: Seq<char>| views(res@).contains(x) <==> has_stem(names@, x),
        views(res@) == stem_listing(names@),
{
    let all = stems_of(names);
    let res = sort_unique(&all);
    proof {
        assert(keys(res@) =~= views(res@));
        assert(keys(all@) =~= views(all@));
        lemma_is_sorted_listing(views(res@), |x: Seq<char>| has_stem(names@, x));
    }
    res
}

} // verus!
