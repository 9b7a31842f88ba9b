//! Cycling through a list of schemes.
use vstd::prelude::*;
use vstd::arithmetic::div_mod::{lemma_add_mod_noop, lemma_mod_add_multiples_vanish, lemma_small_mod};
use crate::order::{is_strict_total, strictly_sorted};
use crate::slugs::{
    has_stem, lemma_is_sorted_listing, lemma_push_contains, lemma_slug_order, slug_order,
    sorted_listing, sorted_stems, views, SchemeName,
};

verus! {

/// The slugs of `group` not yet listed in `prev`.
pub open spec fn keep_new(group: Seq<SchemeName>, prev: Seq<Seq<char>>) -> spec_fn(
    Seq<char>,
) -> bool {
    |x: Seq<char>| has_stem(group, x) && !prev.contains(x)
}

/// The concrete schemes that the patterns expand to: pattern by pattern, in the order of the
/// patterns, the schemes that the pattern found and that no earlier pattern found, sorted.
pub open spec fn resolved(found: Seq<Vec<SchemeName>>) -> Seq<Seq<char>>
    decreases found.len(),
{
    if found.len() == 0 {
        Seq::empty()
    } else {
        let prev = resolved(found.drop_last());
        prev + sorted_listing(keep_new(found.last()@, prev))
    }
}

/// One of the first `upto` patterns found a scheme with slug `x`.
pub open spec fn found_by_some(found: Seq<Vec<SchemeName>>, upto: int, x: Seq<char>) -> bool {
    exists|g: int| 0 <= g < upto && g < found.len() && has_stem(#[trigger] found[g]@, x)
}

/// Does `v` hold the text `s`?
fn contains_string(v: &Vec<String>, s: &String) -> (res: bool)
    ensures
        res == views(v@).contains(s@),
{
    let mut i: usize = 0;
    while i < v.len()
        invariant
            i <= v.len(),
            forall|j: int| 0 <= j < i ==> v@[j]@ != s@,
        decreases v.len() - i,
    {
        if v[i] == *s {
            assert(views(v@)[i as int] == s@);
            return true;
        }
        i = i + 1;
    }
    assert forall|j: int| 0 <= j < views(v@).len() implies views(v@)[j] != s@ by {
        assert(views(v@)[j] == v@[j]@);
    }
    false
}

/// Expand the patterns' findings (the names of the scheme files that each pattern found, in
/// the order of the patterns) into an ordered list of concrete scheme names without
/// duplicates. Schemes found by one pattern are sorted alphabetically, while the order of the
/// patterns themselves is preserved.
pub fn resolve_schemes(found: &Vec<Vec<SchemeName>>) -> (res: Vec<String>)
    ensures
        views(res@) == resolved(found@),
        views(res@).no_duplicates(),
        forall|x: Seq<char>| views(res@).contains(x) <==> found_by_some(found@, found@.len() as int, x),
{
    proof {
        lemma_slug_order();
    }
    let mut res: Vec<String> = Vec::new();
    let mut k: usize = 0;
    assert(views(res@) =~= resolved(found@.subrange(0, 0)));
    while k < found.len()
        invariant
            k <= found.len(),
            is_strict_total(slug_order()),
            views(res@) == resolved(found@.subrange(0, k as int)),
            views(res@).no_duplicates(),
            forall|x: Seq<char>| views(res@).contains(x) <==> found_by_some(found@, k as int, x),
        decreases found.len() - k,
    {
        let names = sorted_stems(&found[k]);
        let ghost prev = views(res@);
        let ghost group = found@[k as int]@;
        let mut j: usize = 0;
        assert(views(res@) =~= prev + Seq::<Seq<char>>::empty());
        while j < names.len()
            invariant
                is_strict_total(slug_order()),
                strictly_sorted(views(names@), slug_order()),
                forall|x: Seq<char>| views(names@).contains(x) <==> has_stem(group, x),
                j <= names.len(),
                prev.len() <= views(res@).len(),
                views(res@).subrange(0, prev.len() as int) == prev,
                strictly_sorted(views(res@).subrange(prev.len() as int, res@.len() as int), slug_order()),
                forall|t: int|
                    prev.len() <= t < res@.len() ==> exists|m: int|
                        0 <= m < j && views(names@)[m] == #[trigger] views(res@)[t],
                forall|x: Seq<char>|
                    #[trigger] views(res@).subrange(prev.len() as int, res@.len() as int).contains(x)
                        <==> (views(names@).subrange(0, j as int).contains(x) && !prev.contains(x)),
            decreases names.len() - j,
        {
            let ghost before = views(res@);
            let ghost block = views(res@).subrange(prev.len() as int, res@.len() as int);
            let ghost done = views(names@).subrange(0, j as int);
            let ghost next = views(names@).subrange(0, j + 1);
            assert(forall|x: Seq<char>| block.contains(x) <==> (done.contains(x) && !prev.contains(x)));
            let ghost name = views(names@)[j as int];
            // every name listed from this pattern so far comes before the current one
            assert forall|t: int| prev.len() <= t < before.len() implies slug_order()(
                before[t],
                name,
            ) by {
                let m = choose|m: int| 0 <= m < j && views(names@)[m] == #[trigger] before[t];
                assert(slug_order()(views(names@)[m], views(names@)[j as int]));
            }
            proof {
                let done = views(names@).subrange(0, j as int);
                let next = views(names@).subrange(0, j + 1);
                assert(next =~= done.push(name));
                lemma_push_contains(done, name);
            }
            if !contains_string(&res, &names[j]) {
                res.push(names[j].clone());
                proof {
                    let after = views(res@);
                    assert(after =~= before.push(name));
                    assert(after.subrange(0, prev.len() as int) =~= prev);
                    let nb = after.subrange(prev.len() as int, after.len() as int);
                    assert(nb =~= block.push(name));
                    lemma_push_contains(block, name);
                    assert(!prev.contains(name)) by {
                        if prev.contains(name) {
                            let q = choose|q: int| 0 <= q < prev.len() && prev[q] == name;
                            assert(before[q] == name);
                        }
                    }
                    assert forall|a: int, b: int| 0 <= a < b < nb.len() implies slug_order()(
                        #[trigger] nb[a],
                        #[trigger] nb[b],
                    ) by {
                        if b < block.len() {
                            assert(nb[a] == block[a] && nb[b] == block[b]);
                        } else {
                            assert(nb[a] == before[prev.len() + a]);
                        }
                    }
                    assert forall|x: Seq<char>| nb.contains(x) <==> (next.contains(x) && !prev.contains(x)) by {
                        assert(nb.contains(x) <==> (block.contains(x) || x == name));
                        assert(block.contains(x) <==> (done.contains(x) && !prev.contains(x)));
                        assert(next.contains(x) <==> (done.contains(x) || x == name));
                    }
                    assert forall|t: int| prev.len() <= t < after.len() implies exists|m: int|
                        0 <= m < j + 1 && views(names@)[m] == #[trigger] after[t] by {
                        if t < before.len() {
                            assert(after[t] == before[t]);
                            let m = choose|m: int|
                                0 <= m < j && views(names@)[m] == #[trigger] before[t];
                        } else {
                            assert(views(names@)[j as int] == after[t]);
                        }
                    }
                }
            } else {
                proof {
                    // the name is already listed, and not by this pattern: it is in `prev`
                    let q = choose|q: int| 0 <= q < before.len() && before[q] == name;
                    if q >= prev.len() {
                        assert(slug_order()(before[q], name));
                        assert(!slug_order()(name, name));
                    }
                    assert(prev[q] == name);
                    assert(prev.contains(name));
                    assert(views(res@) == before);
                    assert forall|x: Seq<char>| block.contains(x) <==> (next.contains(x) && !prev.contains(x)) by {
                        assert(block.contains(x) <==> (done.contains(x) && !prev.contains(x)));
                        assert(next.contains(x) <==> (done.contains(x) || x == name));
                    }
                }
            }
            assert(forall|x: Seq<char>|
                views(res@).subrange(prev.len() as int, res@.len() as int).contains(x) <==> (
                next.contains(x) && !prev.contains(x)));
            j = j + 1;
            assert(next == views(names@).subrange(0, j as int));
        }
        proof {
            let all = views(res@);
            let block = all.subrange(prev.len() as int, all.len() as int);
            assert(views(names@).subrange(0, names.len() as int) =~= views(names@));
            lemma_is_sorted_listing(block, keep_new(group, prev));
            assert(all =~= prev + block);
            assert forall|a: int, b: int| 0 <= a < all.len() && 0 <= b < all.len() && a != b implies all[a] != all[b] by {
                if a < prev.len() && b < prev.len() {
                    assert(prev[a] != prev[b]);
                } else if a >= prev.len() && b >= prev.len() {
                    let (x, y) = if a < b { (a, b) } else { (b, a) };
                    assert(slug_order()(block[x - prev.len()], block[y - prev.len()]));
                    assert(!slug_order()(all[a], all[a]));
                } else if a < prev.len() {
                    assert(block.contains(all[b]));
                    assert(prev.contains(all[a]));
                } else {
                    assert(block.contains(all[a]));
                    assert(prev.contains(all[b]));
                }
            }
            assert forall|x: Seq<char>| all.contains(x) <==> found_by_some(found@, k + 1, x) by {
                assert(all.contains(x) <==> (prev.contains(x) || block.contains(x))) by {
                    if all.contains(x) {
                        let q = choose|q: int| 0 <= q < all.len() && all[q] == x;
                        if q >= prev.len() {
                            assert(block[q - prev.len()] == x);
                        }
                    }
                    if prev.contains(x) {
                        let q = choose|q: int| 0 <= q < prev.len() && prev[q] == x;
                        assert(all[q] == x);
                    }
                    if block.contains(x) {
                        let q = choose|q: int| 0 <= q < block.len() && block[q] == x;
                        assert(all[prev.len() + q] == x);
                    }
                }
                assert(block.contains(x) <==> (has_stem(group, x) && !prev.contains(x)));
                if found_by_some(found@, k + 1, x) {
                    let g = choose|g: int| 0 <= g < k + 1 && g < found@.len() && has_stem(#[trigger] found@[g]@, x);
                    if g < k {
                        assert(found_by_some(found@, k as int, x));
                    }
                }
                if has_stem(group, x) {
                    assert(has_stem(found@[k as int]@, x));
                }
                if found_by_some(found@, k as int, x) {
                    let g = choose|g: int| 0 <= g < k && g < found@.len() && has_stem(#[trigger] found@[g]@, x);
                    assert(has_stem(found@[g]@, x));
                }
            }
            let upto = found@.subrange(0, k + 1);
            assert(upto.drop_last() =~= found@.subrange(0, k as int));
            assert(upto.last() == found@[k as int]);
        }
        k = k + 1;
    }
    assert(found@.subrange(0, found.len() as int) =~= found@);
    res
}

/// The first index at or after `from` where `list` holds `c`, or -1 if there is none.
pub open spec fn position_from(list: Seq<Seq<char>>, c: Seq<char>, from: int) -> int
    decreases list.len() - from,
{
    if from < 0 || from >= list.len() {
        -1
    } else if list[from] == c {
        from
    } else {
        position_from(list, c, from + 1)
    }
}

/// The scheme that follows `current` in `list`, wrapping around; the first scheme when there
/// is no current scheme or when the list does not hold it.
pub open spec fn spec_next(list: Seq<Seq<char>>, current: Option<Seq<char>>) -> Seq<char> {
    match current {
        Some(c) => {
            let p = position_from(list, c, 0);
            if p >= 0 {
                list[(p + 1) % (list.len() as int)]
            } else {
                list[0]
            }
        },
        None => list[0],
    }
}

/// The text of an optional string.
pub open spec fn opt_view(s: Option<&str>) -> Option<Seq<char>> {
    match s {
        Some(x) => Some(x@),
        None => None,
    }
}

/// None of the given patterns matched an installed scheme.
#[derive(Debug)]
pub struct NothingToToggle;

impl NothingToToggle {
    pub fn message(&self) -> (res: String)
        ensures
            res@ == "None of the given patterns matched an installed scheme. Check the names, or run 'flavours update all' first."@,
    {
        String::from_str(
            "None of the given patterns matched an installed scheme. Check the names, or run 'flavours update all' first.",
        )
    }
}

/// The scheme to apply next: the one that follows the currently applied scheme in
/// `schemes` (wrapping around), or the first one if no scheme is applied or the current one
/// is not in the list. An error when the list is empty.
pub fn next_scheme(schemes: &Vec<String>, current: Option<&str>) -> (res: Result<
    String,
    NothingToToggle,
>)
    ensures
        res is Err <==> schemes.len() == 0,
        res matches Ok(n) ==> n@ == spec_next(views(schemes@), opt_view(current)),
{
    if schemes.len() == 0 {
        return Err(NothingToToggle);
    }
    let ghost list = views(schemes@);
    match current {
        None => {
            assert(views(schemes@)[0] == schemes@[0]@);
            Ok(schemes[0].clone())
        },
        Some(c) => {
            let wanted = String::from_str(c);
            let mut i: usize = 0;
            while i < schemes.len()
                invariant
                    i <= schemes.len(),
                    schemes.len() > 0,
                    list == views(schemes@),
                    wanted@ == c@,
                    position_from(list, c@, 0) == position_from(list, c@, i as int),
                    opt_view(current) == Some(c@),
                decreases schemes.len() - i,
            {
                if schemes[i] == wanted {
                    assert(list[i as int] == c@);
                    let next = if i + 1 == schemes.len() {
                        proof {
                            vstd::arithmetic::div_mod::lemma_mod_self_0(list.len() as int);
                        }
                        0
                    } else {
                        proof {
                            lemma_small_mod((i + 1) as nat, list.len());
                        }
                        i + 1
                    };
                    assert(position_from(list, c@, i as int) == i);
                    assert((i + 1) % (list.len() as int) == next as int);
                    assert(views(schemes@)[next as int] == schemes@[next as int]@);
                    let res = schemes[next].clone();
                    assert(res@ == list[(i + 1) % (list.len() as int)]);
                    assert(opt_view(current) == Some(c@));
                    assert(spec_next(list, Some(c@)) == list[(i + 1) % (list.len() as int)]);
                    return Ok(res);
                }
                assert(list[i as int] != c@);
                i = i + 1;
            }
            assert(views(schemes@)[0] == schemes@[0]@);
            Ok(schemes[0].clone())
        },
    }
}

/// What toggling reports when verbose: the step from the current scheme, or the scheme
/// applied when there is none.
pub fn toggle_message(current: Option<&str>, next: &str) -> (res: String)
    ensures
        match current {
            Some(c) => res@ == "Toggling from "@ + c@ + " to "@ + next@,
            None => res@ == "No current scheme found, applying "@ + next@,
        },
{
    match current {
        Some(c) => {
            let mut res = String::from_str("Toggling from ");
            res.append(c);
            res.append(" to ");
            res.append(next);
            res
        },
        None => {
            let mut res = String::from_str("No current scheme found, applying ");
            res.append(next);
            res
        },
    }
}

/// The scheme reached from `start` after `k` toggles through `list`.
pub open spec fn toggled(list: Seq<Seq<char>>, start: Seq<char>, k: nat) -> Seq<char>
    decreases k,
{
    if k == 0 {
        start
    } else {
        spec_next(list, Some(toggled(list, start, (k - 1) as nat)))
    }
}

proof fn lemma_position_of_distinct(list: Seq<Seq<char>>, j: int, from: int)
    requires
        list.no_duplicates(),
        0 <= from <= j < list.len(),
    ensures
        position_from(list, list[j], from) == j,
    decreases j - from,
{
    if from < j {
        assert(list[from] != list[j]);
        lemma_position_of_distinct(list, j, from + 1);
    }
}

/// Law: toggling through a list without duplicates visits its schemes in order, wrapping
/// around: after `k` toggles from the scheme at index `i` comes the scheme at index
/// `(i + k) % n`, so after as many toggles as there are schemes the start comes back.
pub proof fn lemma_toggle_cycle(list: Seq<Seq<char>>, i: int, k: nat)
    requires
        list.no_duplicates(),
        0 <= i < list.len(),
    ensures
        toggled(list, list[i], k) == list[(i + k) % (list.len() as int)],
        toggled(list, list[i], list.len()) == list[i],
{
    lemma_toggle_cycle_steps(list, i, k);
    lemma_toggle_cycle_full(list, i);
}

proof fn lemma_toggle_cycle_full(list: Seq<Seq<char>>, i: int)
    requires
        list.no_duplicates(),
        0 <= i < list.len(),
    ensures
        toggled(list, list[i], list.len()) == list[i],
{
    let n = list.len() as int;
    lemma_toggle_cycle_steps(list, i, list.len());
    lemma_mod_add_multiples_vanish(i, n);
    lemma_small_mod(i as nat, n as nat);
    assert(i + n == n + i);
}

proof fn lemma_toggle_cycle_steps(list: Seq<Seq<char>>, i: int, k: nat)
    requires
        list.no_duplicates(),
        0 <= i < list.len(),
    ensures
        toggled(list, list[i], k) == list[(i + k) % (list.len() as int)],
    decreases k,
{
    let n = list.len() as int;
    if k == 0 {
        lemma_small_mod(i as nat, n as nat);
    } else {
        lemma_toggle_cycle_steps(list, i, (k - 1) as nat);
        let a = i + k - 1;
        let p = a % n;
        assert(0 <= p < n) by {
            vstd::arithmetic::div_mod::lemma_mod_bound(a, n);
        }
        assert(toggled(list, list[i], (k - 1) as nat) == list[p]);
        lemma_position_of_distinct(list, p, 0);
        assert(toggled(list, list[i], k) == list[(p + 1) % n]);
        lemma_add_mod_noop(a, 1, n);
        if n > 1 {
            lemma_small_mod(1, n as nat);
            assert(1int % n == 1);
        } else {
            vstd::arithmetic::div_mod::lemma_mod_self_0(1);
            assert(1int % n == 0);
            assert(p == 0);
            assert((p + 1) % n == 0);
            vstd::arithmetic::div_mod::lemma_mod_bound(a + 1, n);
        }
        assert((p + 1) % n == (a + 1) % n);
        assert(a + 1 == i + k);
    }
}

} // verus!
