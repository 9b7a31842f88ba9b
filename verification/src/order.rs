//! Lexicographic orders, and sorted listings without duplicates.
use vstd::prelude::*;

verus! {

/// The outcome of comparing two values.
#[derive(Debug, Clone, Copy, PartialEq, Eq, Structural)]
pub enum Order {
    Less,
    Equal,
    Greater,
}

/// `a` and `b` agree before index `k`, and at `k` either `a` ends while `b` goes on, or
/// both go on and `a[k]` comes before `b[k]`.
pub open spec fn lex_lt_at<A>(a: Seq<A>, b: Seq<A>, lt: spec_fn(A, A) -> bool, k: int) -> bool {
    &&& 0 <= k <= a.len()
    &&& k <= b.len()
    &&& forall|m: int| 0 <= m < k ==> a[m] == b[m]
    &&& ((k == a.len() && k < b.len()) || (k < a.len() && k < b.len() && lt(a[k], b[k])))
}

/// The lexicographic order built from the order `lt` on elements.
pub open spec fn lex_lt<A>(a: Seq<A>, b: Seq<A>, lt: spec_fn(A, A) -> bool) -> bool {
    exists|k: int| lex_lt_at(a, b, lt, k)
}

/// `lt` is a strict total order: irreflexive, transitive, and any two distinct values are
/// ordered one way or the other.
pub open spec fn is_strict_total<A>(lt: spec_fn(A, A) -> bool) -> bool {
    &&& forall|x: A| !(#[trigger] lt(x, x))
    &&& forall|x: A, y: A, z: A| #[trigger] lt(x, y) && #[trigger] lt(y, z) ==> lt(x, z)
    &&& forall|x: A, y: A| x != y ==> #[trigger] lt(x, y) || #[trigger] lt(y, x)
}

/// The order of characters by code point, which is the order of their UTF-8 encodings.
pub open spec fn char_lt() -> spec_fn(char, char) -> bool {
    |x: char, y: char| (x as int) < (y as int)
}

/// The order of bytes.
pub open spec fn byte_lt() -> spec_fn(u8, u8) -> bool {
    |x: u8, y: u8| x < y
}

/// The order of strings, by their characters (the order of `str`).
pub open spec fn str_lt(a: Seq<char>, b: Seq<char>) -> bool {
    lex_lt(a, b, char_lt())
}

/// The sequence is strictly increasing for `lt`: sorted, and without duplicates.
pub open spec fn strictly_sorted<A>(s: Seq<A>, lt: spec_fn(A, A) -> bool) -> bool {
    forall|i: int, j: int| 0 <= i < j < s.len() ==> lt(#[trigger] s[i], #[trigger] s[j])
}

pub proof fn lemma_lex_irreflexive<A>(a: Seq<A>, lt: spec_fn(A, A) -> bool)
    requires
        is_strict_total(lt),
    ensures
        !lex_lt(a, a, lt),
{
    if lex_lt(a, a, lt) {
        let k = choose|k: int| lex_lt_at(a, a, lt, k);
        assert(!lt(a[k], a[k]));
    }
}

pub proof fn lemma_lex_transitive<A>(a: Seq<A>, b: Seq<A>, c: Seq<A>, lt: spec_fn(A, A) -> bool)
    requires
        is_strict_total(lt),
        lex_lt(a, b, lt),
        lex_lt(b, c, lt),
    ensures
        lex_lt(a, c, lt),
{
    let k1 = choose|k: int| lex_lt_at(a, b, lt, k);
    let k2 = choose|k: int| lex_lt_at(b, c, lt, k);
    if k1 < k2 {
        assert(b[k1] == c[k1]);
        assert(lex_lt_at(a, c, lt, k1));
    } else if k2 < k1 {
        assert(a[k2] == b[k2]);
        assert(lex_lt_at(a, c, lt, k2));
    } else {
        if k1 < a.len() {
            assert(lt(a[k1], b[k1]) && lt(b[k1], c[k1]));
        }
        assert(lex_lt_at(a, c, lt, k1));
    }
}

pub proof fn lemma_lex_asymmetric<A>(a: Seq<A>, b: Seq<A>, lt: spec_fn(A, A) -> bool)
    requires
        is_strict_total(lt),
        lex_lt(a, b, lt),
    ensures
        !lex_lt(b, a, lt),
{
    if lex_lt(b, a, lt) {
        lemma_lex_transitive(a, b, a, lt);
        lemma_lex_irreflexive(a, lt);
    }
}

proof fn lemma_lex_total_from<A>(a: Seq<A>, b: Seq<A>, lt: spec_fn(A, A) -> bool, k: int)
    requires
        is_strict_total(lt),
        0 <= k <= a.len(),
        k <= b.len(),
        forall|m: int| 0 <= m < k ==> a[m] == b[m],
        a != b,
    ensures
        lex_lt(a, b, lt) || lex_lt(b, a, lt),
    decreases a.len() - k,
{
    if k == a.len() && k == b.len() {
        assert(a =~= b);
    } else if k == a.len() {
        assert(lex_lt_at(a, b, lt, k));
    } else if k == b.len() {
        assert(lex_lt_at(b, a, lt, k));
    } else if a[k] != b[k] {
        if lt(a[k], b[k]) {
            assert(lex_lt_at(a, b, lt, k));
        } else {
            assert(lt(b[k], a[k]));
            assert(lex_lt_at(b, a, lt, k));
        }
    } else {
        lemma_lex_total_from(a, b, lt, k + 1);
    }
}

pub proof fn lemma_lex_total<A>(a: Seq<A>, b: Seq<A>, lt: spec_fn(A, A) -> bool)
    requires
        is_strict_total(lt),
        a != b,
    ensures
        lex_lt(a, b, lt) || lex_lt(b, a, lt),
{
    lemma_lex_total_from(a, b, lt, 0);
}

/// The lexicographic order built from a strict total order is a strict total order.
pub proof fn lemma_lex_strict_total<A>(lt: spec_fn(A, A) -> bool)
    requires
        is_strict_total(lt),
    ensures
        is_strict_total(|a: Seq<A>, b: Seq<A>| lex_lt(a, b, lt)),
{
    let llt = |a: Seq<A>, b: Seq<A>| lex_lt(a, b, lt);
    assert forall|x: Seq<A>| !(#[trigger] llt(x, x)) by {
        lemma_lex_irreflexive(x, lt);
    }
    assert forall|x: Seq<A>, y: Seq<A>, z: Seq<A>| #[trigger] llt(x, y) && #[trigger] llt(
        y,
        z,
    ) implies llt(x, z) by {
        lemma_lex_transitive(x, y, z, lt);
    }
    assert forall|x: Seq<A>, y: Seq<A>| x != y implies #[trigger] llt(x, y) || #[trigger] llt(
        y,
        x,
    ) by {
        lemma_lex_total(x, y, lt);
    }
}

pub proof fn lemma_char_order()
    ensures
        is_strict_total(char_lt()),
{
}

pub proof fn lemma_byte_order()
    ensures
        is_strict_total(byte_lt()),
{
}

/// At most one of `a < b`, `a == b`, `b < a` holds.
pub proof fn lemma_lex_exclusive<A>(a: Seq<A>, b: Seq<A>, lt: spec_fn(A, A) -> bool)
    requires
        is_strict_total(lt),
    ensures
        lex_lt(a, b, lt) ==> !lex_lt(b, a, lt) && a != b,
        a == b ==> !lex_lt(a, b, lt),
{
    lemma_lex_irreflexive(a, lt);
    if lex_lt(a, b, lt) {
        lemma_lex_asymmetric(a, b, lt);
    }
}

/// Compare two strings by their characters.
pub fn compare_str(a: &str, b: &str) -> (res: Order)
    ensures
        res == Order::Less <==> str_lt(a@, b@),
        res == Order::Equal <==> a@ == b@,
        res == Order::Greater <==> str_lt(b@, a@),
{
    proof {
        lemma_char_order();
        lemma_lex_exclusive(a@, b@, char_lt());
        lemma_lex_exclusive(b@, a@, char_lt());
    }
    let la = a.unicode_len();
    let lb = b.unicode_len();
    let mut i: usize = 0;
    loop
        invariant
            la == a@.len(),
            lb == b@.len(),
            i <= la,
            i <= lb,
            forall|m: int| 0 <= m < i ==> a@[m] == b@[m],
            str_lt(a@, b@) ==> !str_lt(b@, a@) && a@ != b@,
            str_lt(b@, a@) ==> !str_lt(a@, b@) && a@ != b@,
        decreases la - i,
    {
        if i == la {
            if i == lb {
                assert(a@ =~= b@);
                return Order::Equal;
            } else {
                assert(lex_lt_at(a@, b@, char_lt(), i as int));
                return Order::Less;
            }
        } else if i == lb {
            assert(lex_lt_at(b@, a@, char_lt(), i as int));
            return Order::Greater;
        } else {
            let ca = a.get_char(i);
            let cb = b.get_char(i);
            assert(ca as u32 as int == ca as int && cb as u32 as int == cb as int);
            if (ca as u32) < (cb as u32) {
                assert(lex_lt_at(a@, b@, char_lt(), i as int));
                return Order::Less;
            } else if (cb as u32) < (ca as u32) {
                assert(lex_lt_at(b@, a@, char_lt(), i as int));
                return Order::Greater;
            } else {
                assert(ca == cb);
                i = i + 1;
            }
        }
    }
}

/// Inserting a value into a strictly sorted sequence: the result is strictly sorted and holds
/// exactly the old values and the new one.
pub proof fn lemma_sorted_insert<A>(s: Seq<A>, t: A, lt: spec_fn(A, A) -> bool) -> (r: Seq<A>)
    requires
        is_strict_total(lt),
        strictly_sorted(s, lt),
    ensures
        strictly_sorted(r, lt),
        forall|x: A| r.contains(x) <==> (s.contains(x) || x == t),
    decreases s.len(),
{
    if s.len() == 0 {
        let r = seq![t];
        assert forall|x: A| r.contains(x) <==> (s.contains(x) || x == t) by {
            if x == t {
                assert(r[0] == t);
            }
        }
        r
    } else if s[0] == t {
        assert(s.contains(t));
        s
    } else if lt(t, s[0]) {
        let r = seq![t] + s;
        assert forall|i: int, j: int| 0 <= i < j < r.len() implies lt(
            #[trigger] r[i],
            #[trigger] r[j],
        ) by {
            if i == 0 {
                if j > 1 {
                    assert(lt(s[0], s[j - 1]));
                    assert(lt(t, s[0]) && lt(s[0], s[j - 1]));
                }
            } else {
                assert(r[i] == s[i - 1] && r[j] == s[j - 1]);
            }
        }
        assert forall|x: A| r.contains(x) <==> (s.contains(x) || x == t) by {
            if r.contains(x) {
                let k = choose|k: int| 0 <= k < r.len() && r[k] == x;
                if k > 0 {
                    assert(s[k - 1] == x);
                }
            }
            if s.contains(x) {
                let k = choose|k: int| 0 <= k < s.len() && s[k] == x;
                assert(r[k + 1] == x);
            }
            if x == t {
                assert(r[0] == t);
            }
        }
        r
    } else {
        assert(lt(s[0], t));
        let tail = s.drop_first();
        assert forall|i: int, j: int| 0 <= i < j < tail.len() implies lt(
            #[trigger] tail[i],
            #[trigger] tail[j],
        ) by {
            assert(tail[i] == s[i + 1] && tail[j] == s[j + 1]);
        }
        let r0 = lemma_sorted_insert(tail, t, lt);
        assert forall|k: int| 0 <= k < r0.len() implies lt(s[0], #[trigger] r0[k]) by {
            assert(r0.contains(r0[k]));
            if r0[k] != t {
                assert(tail.contains(r0[k]));
                let m = choose|m: int| 0 <= m < tail.len() && tail[m] == r0[k];
                assert(s[m + 1] == r0[k]);
            }
        }
        let r = seq![s[0]] + r0;
        assert forall|i: int, j: int| 0 <= i < j < r.len() implies lt(
            #[trigger] r[i],
            #[trigger] r[j],
        ) by {
            assert(r[j] == r0[j - 1]);
            if i > 0 {
                assert(r[i] == r0[i - 1]);
            }
        }
        assert forall|x: A| r.contains(x) <==> (s.contains(x) || x == t) by {
            if r.contains(x) {
                let k = choose|k: int| 0 <= k < r.len() && r[k] == x;
                if k > 0 {
                    assert(r0[k - 1] == x);
                    assert(r0.contains(x));
                    if tail.contains(x) {
                        let m = choose|m: int| 0 <= m < tail.len() && tail[m] == x;
                        assert(s[m + 1] == x);
                    }
                } else {
                    assert(s[0] == x);
                }
            }
            if s.contains(x) {
                let k = choose|k: int| 0 <= k < s.len() && s[k] == x;
                if k == 0 {
                    assert(r[0] == x);
                } else {
                    assert(tail[k - 1] == x);
                    assert(r0.contains(x));
                    let m = choose|m: int| 0 <= m < r0.len() && r0[m] == x;
                    assert(r[m + 1] == x);
                }
            }
            if x == t {
                assert(r0.contains(t));
                let m = choose|m: int| 0 <= m < r0.len() && r0[m] == t;
                assert(r[m + 1] == t);
            }
        }
        r
    }
}

/// Law: a strictly sorted sequence is determined by the values it holds. Two strictly sorted
/// sequences that hold the same values are equal, so "the sorted listing, without duplicates,
/// of these values" names exactly one sequence.
pub proof fn lemma_sorted_listing_unique<A>(s1: Seq<A>, s2: Seq<A>, lt: spec_fn(A, A) -> bool)
    requires
        is_strict_total(lt),
        strictly_sorted(s1, lt),
        strictly_sorted(s2, lt),
        forall|x: A| s1.contains(x) <==> s2.contains(x),
    ensures
        s1 == s2,
    decreases s1.len(),
{
    if s1.len() == 0 {
        if s2.len() > 0 {
            assert(s2.contains(s2[0]));
        }
        assert(s1 =~= s2);
    } else {
        assert(s1.contains(s1[0]));
        assert(s2.len() > 0);
        assert(s2.contains(s2[0]));
        let j = choose|j: int| 0 <= j < s2.len() && s2[j] == s1[0];
        let i = choose|i: int| 0 <= i < s1.len() && s1[i] == s2[0];
        if j > 0 && i > 0 {
            assert(lt(s2[0], s2[j]));
            assert(lt(s1[0], s1[i]));
            assert(lt(s1[0], s1[0]));
        } else if j > 0 {
            assert(lt(s2[0], s2[j]));
        } else if i > 0 {
            assert(lt(s1[0], s1[i]));
        }
        assert(s1[0] == s2[0]);
        let t1 = s1.drop_first();
        let t2 = s2.drop_first();
        assert forall|x: A| t1.contains(x) <==> t2.contains(x) by {
            if t1.contains(x) {
                let k = choose|k: int| 0 <= k < t1.len() && t1[k] == x;
                assert(lt(s1[0], s1[k + 1]));
                assert(s1.contains(x));
                let m = choose|m: int| 0 <= m < s2.len() && s2[m] == x;
                assert(m != 0);
                assert(t2[m - 1] == x);
            }
            if t2.contains(x) {
                let k = choose|k: int| 0 <= k < t2.len() && t2[k] == x;
                assert(lt(s2[0], s2[k + 1]));
                assert(s2.contains(x));
                let m = choose|m: int| 0 <= m < s1.len() && s1[m] == x;
                assert(m != 0);
                assert(t1[m - 1] == x);
            }
        }
        assert(strictly_sorted(t1, lt)) by {
            assert forall|a: int, b: int| 0 <= a < b < t1.len() implies lt(#[trigger] t1[a], #[trigger] t1[b]) by {
                assert(lt(s1[a + 1], s1[b + 1]));
            }
        }
        assert(strictly_sorted(t2, lt)) by {
            assert forall|a: int, b: int| 0 <= a < b < t2.len() implies lt(#[trigger] t2[a], #[trigger] t2[b]) by {
                assert(lt(s2[a + 1], s2[b + 1]));
            }
        }
        lemma_sorted_listing_unique(t1, t2, lt);
        assert(s1.len() == s2.len());
        assert forall|n: int| 0 <= n < s1.len() implies s1[n] == s2[n] by {
            if n > 0 {
                assert(s1[n] == t1[n - 1]);
                assert(s2[n] == t2[n - 1]);
            }
        }
        assert(s1 =~= s2);
    }
}

/// A value that can stand in a sorted listing: it has a key, keys have a strict total order,
/// and an executable comparison agrees with that order.
pub trait SortKey: Sized {
    type Key;

    spec fn key(&self) -> Self::Key;

    spec fn key_order() -> spec_fn(Self::Key, Self::Key) -> bool;

    proof fn lemma_key_order()
        ensures
            is_strict_total(Self::key_order()),
    ;

    fn compare(&self, other: &Self) -> (res: Order)
        ensures
            res == Order::Less <==> (Self::key_order())(self.key(), other.key()),
            res == Order::Equal <==> self.key() == other.key(),
            res == Order::Greater <==> (Self::key_order())(other.key(), self.key()),
    ;

    fn duplicate(&self) -> (res: Self)
        ensures
            res.key() == self.key(),
    ;
}

/// The keys of a sequence of values.
pub open spec fn keys<T: SortKey>(s: Seq<T>) -> Seq<T::Key> {
    s.map_values(|x: T| x.key())
}

/// Insert `item` at its place in a strictly sorted vector, unless its key is already there.
fn insert_sorted<T: SortKey>(v: &mut Vec<T>, item: &T)
    requires
        strictly_sorted(keys(old(v)@), T::key_order()),
    ensures
        strictly_sorted(keys(final(v)@), T::key_order()),
        forall|k: T::Key|
            keys(final(v)@).contains(k) <==> (keys(old(v)@).contains(k) || k == item.key()),
{
    proof {
        T::lemma_key_order();
    }
    let ghost lt = T::key_order();
    let ghost old_keys = keys(v@);
    let mut k: usize = 0;
    while k < v.len()
        invariant
            lt == T::key_order(),
            is_strict_total(lt),
            old_keys == keys(v@),
            strictly_sorted(old_keys, lt),
            k <= v.len(),
            forall|j: int| 0 <= j < k ==> lt(#[trigger] old_keys[j], item.key()),
        ensures
            lt == T::key_order(),
            is_strict_total(lt),
            old_keys == keys(v@),
            strictly_sorted(old_keys, lt),
            k <= v.len(),
            forall|j: int| 0 <= j < k ==> lt(#[trigger] old_keys[j], item.key()),
            k < v.len() ==> lt(item.key(), old_keys[k as int]),
        decreases v.len() - k,
    {
        match v[k].compare(item) {
            Order::Less => {
                k = k + 1;
            },
            Order::Equal => {
                assert(old_keys[k as int] == item.key());
                assert(forall|key: T::Key|
                    keys(v@).contains(key) <==> (old_keys.contains(key) || key == item.key()));
                return ;
            },
            Order::Greater => {
                break;
            },
        }
    }
    // every key from position k on comes after the item
    assert forall|j: int| k <= j < old_keys.len() implies lt(item.key(), #[trigger] old_keys[j]) by {
        if j > k {
            assert(lt(old_keys[k as int], old_keys[j]));
        }
    }
    let copy = item.duplicate();
    v.insert(k, copy);
    let ghost new_keys = keys(v@);
    assert(new_keys =~= old_keys.insert(k as int, item.key()));
    assert forall|a: int, b: int| 0 <= a < b < new_keys.len() implies lt(
        #[trigger] new_keys[a],
        #[trigger] new_keys[b],
    ) by {
        if b < k {
        } else if a < k && b == k {
        } else if a < k {
            assert(lt(old_keys[a], old_keys[b - 1]));
        } else if a == k {
        } else {
            assert(lt(old_keys[a - 1], old_keys[b - 1]));
        }
    }
    assert forall|key: T::Key| new_keys.contains(key) <==> (old_keys.contains(key) || key
        == item.key()) by {
        if new_keys.contains(key) {
            let j = choose|j: int| 0 <= j < new_keys.len() && new_keys[j] == key;
            if j < k {
                assert(old_keys[j] == key);
            } else if j > k {
                assert(old_keys[j - 1] == key);
            }
        }
        if old_keys.contains(key) {
            let j = choose|j: int| 0 <= j < old_keys.len() && old_keys[j] == key;
            if j < k {
                assert(new_keys[j] == key);
            } else {
                assert(new_keys[j + 1] == key);
            }
        }
        if key == item.key() {
            assert(new_keys[k as int] == key);
        }
    }
}

/// The values of `items` in the order of their keys, one per key.
pub fn sort_unique<T: SortKey>(items: &Vec<T>) -> (res: Vec<T>)
    ensures
        strictly_sorted(keys(res@), T::key_order()),
        forall|k: T::Key| keys(res@).contains(k) <==> keys(items@).contains(k),
{
    let mut res: Vec<T> = Vec::new();
    let mut i: usize = 0;
    assert(keys(res@) =~= Seq::<T::Key>::empty());
    while i < items.len()
        invariant
            i <= items.len(),
            strictly_sorted(keys(res@), T::key_order()),
            forall|k: T::Key|
                keys(res@).contains(k) <==> keys(items@).subrange(0, i as int).contains(k),
        decreases items.len() - i,
    {
        insert_sorted(&mut res, &items[i]);
        proof {
            let before = keys(items@).subrange(0, i as int);
            let after = keys(items@).subrange(0, i + 1);
            assert(after =~= before.push(items@[i as int].key()));
            assert forall|k: T::Key| after.contains(k) <==> (before.contains(k) || k
                == items@[i as int].key()) by {
                if after.contains(k) {
                    let j = choose|j: int| 0 <= j < after.len() && after[j] == k;
                    if j < i {
                        assert(before[j] == k);
                    }
                }
                if before.contains(k) {
                    let j = choose|j: int| 0 <= j < before.len() && before[j] == k;
                    assert(after[j] == k);
                }
                if k == items@[i as int].key() {
                    assert(after[i as int] == k);
                }
            }
        }
        i = i + 1;
    }
    assert(keys(items@).subrange(0, items.len() as int) =~= keys(items@));
    res
}

/// Some value in one of the groups has the key `k`.
pub open spec fn groups_contain<T: SortKey>(groups: Seq<Vec<T>>, k: T::Key) -> bool {
    exists|g: int, i: int|
        0 <= g < groups.len() && 0 <= i < groups[g]@.len() && #[trigger] groups[g]@[i].key() == k
}

/// Some value seen so far has the key `k`: all of the groups before `g`, and the first `i`
/// values of group `g`.
pub open spec fn seen_before<T: SortKey>(groups: Seq<Vec<T>>, g: int, i: int, k: T::Key) -> bool {
    exists|h: int, j: int|
        0 <= h <= g && h < groups.len() && 0 <= j < groups[h]@.len() && (h < g || j < i)
            && #[trigger] groups[h]@[j].key() == k
}

/// The values of all groups in the order of their keys, one per key.
pub fn sort_unique_groups<T: SortKey>(groups: &Vec<Vec<T>>) -> (res: Vec<T>)
    ensures
        strictly_sorted(keys(res@), T::key_order()),
        forall|k: T::Key| keys(res@).contains(k) <==> groups_contain(groups@, k),
{
    let mut res: Vec<T> = Vec::new();
    assert(keys(res@) =~= Seq::<T::Key>::empty());
    let mut g: usize = 0;
    while g < groups.len()
        invariant
            g <= groups.len(),
            strictly_sorted(keys(res@), T::key_order()),
            forall|k: T::Key| keys(res@).contains(k) <==> seen_before(groups@, g as int, 0, k),
        decreases groups.len() - g,
    {
        let group = &groups[g];
        let mut i: usize = 0;
        while i < group.len()
            invariant
                g < groups.len(),
                *group == groups@[g as int],
                i <= group.len(),
                strictly_sorted(keys(res@), T::key_order()),
                forall|k: T::Key|
                    keys(res@).contains(k) <==> seen_before(groups@, g as int, i as int, k),
            decreases group.len() - i,
        {
            let ghost before = keys(res@);
            insert_sorted(&mut res, &group[i]);
            proof {
                assert forall|k: T::Key| keys(res@).contains(k) <==> seen_before(
                    groups@,
                    g as int,
                    i + 1,
                    k,
                ) by {
                    assert(keys(res@).contains(k) <==> (before.contains(k) || k == group@[i as int].key()));
                    assert(before.contains(k) <==> seen_before(groups@, g as int, i as int, k));
                    if seen_before(groups@, g as int, i + 1, k) {
                        let (h, j) = choose|h: int, j: int|
                            0 <= h <= g && h < groups.len() && 0 <= j < groups@[h]@.len() && (h < g
                                || j < i + 1) && #[trigger] groups@[h]@[j].key() == k;
                        if !(h < g || j < i) {
                            assert(k == group@[i as int].key());
                        }
                    }
                    if k == group@[i as int].key() {
                        assert(groups@[g as int]@[i as int].key() == k);
                    }
                }
            }
            i = i + 1;
        }
        proof {
            assert forall|k: T::Key| seen_before(groups@, g as int, group.len() as int, k) <==> seen_before(
                groups@,
                g + 1,
                0,
                k,
            ) by {
                if seen_before(groups@, g + 1, 0, k) {
                    let (h, j) = choose|h: int, j: int|
                        0 <= h <= g + 1 && h < groups.len() && 0 <= j < groups@[h]@.len() && (h < g
                            + 1 || j < 0) && #[trigger] groups@[h]@[j].key() == k;
                    assert(h <= g);
                    assert(groups@[h]@[j].key() == k);
                }
            }
        }
        g = g + 1;
    }
    assert forall|k: T::Key| seen_before(groups@, groups.len() as int, 0, k) <==> groups_contain(groups@, k) by {
        if groups_contain(groups@, k) {
            let (h, j) = choose|h: int, j: int|
                0 <= h < groups@.len() && 0 <= j < groups@[h]@.len() && #[trigger] groups@[h]@[j].key() == k;
            assert(groups@[h]@[j].key() == k);
        }
        if seen_before(groups@, groups.len() as int, 0, k) {
            let (h, j) = choose|h: int, j: int|
                0 <= h <= groups.len() && h < groups.len() && 0 <= j < groups@[h]@.len() && (h < groups.len()
                    || j < 0) && #[trigger] groups@[h]@[j].key() == k;
            assert(groups@[h]@[j].key() == k);
        }
    }
    res
}

} // verus!
