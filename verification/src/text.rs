//! Character-level text operations on scheme slugs, stated over `Seq<char>`.
use vstd::prelude::*;

verus! {

/// `pat` occurs in `s` starting at index `i`.
pub open spec fn occurs_at(s: Seq<char>, pat: Seq<char>, i: int) -> bool {
    &&& 0 <= i
    &&& i + pat.len() <= s.len()
    &&& s.subrange(i, i + pat.len()) == pat
}

/// `pat` occurs somewhere in `s`.
pub open spec fn contains(s: Seq<char>, pat: Seq<char>) -> bool {
    exists|i: int| occurs_at(s, pat, i)
}

/// `s` ends with `suffix`.
pub open spec fn ends_with(s: Seq<char>, suffix: Seq<char>) -> bool {
    &&& suffix.len() <= s.len()
    &&& s.subrange(s.len() - suffix.len(), s.len() as int) == suffix
}

/// `s` without its last `suffix.len()` characters.
pub open spec fn drop_suffix(s: Seq<char>, suffix: Seq<char>) -> Seq<char> {
    s.subrange(0, s.len() - suffix.len())
}

/// The first index at or after `from` where `pat` occurs in `s`, or -1 if there is none.
pub open spec fn first_index_from(s: Seq<char>, pat: Seq<char>, from: int) -> int
    decreases s.len() + 1 - from,
{
    if from < 0 || from + pat.len() > s.len() {
        -1
    } else if occurs_at(s, pat, from) {
        from
    } else {
        first_index_from(s, pat, from + 1)
    }
}

/// The index of the leftmost occurrence of `pat` in `s`, or -1 if there is none.
pub open spec fn first_index(s: Seq<char>, pat: Seq<char>) -> int {
    first_index_from(s, pat, 0)
}

/// `s` with the `len` characters at index `i` replaced by `rep`.
pub open spec fn replace_at(s: Seq<char>, i: int, len: int, rep: Seq<char>) -> Seq<char> {
    s.subrange(0, i) + rep + s.subrange(i + len, s.len() as int)
}

/// Replace the leftmost occurrence of `pat` by the shorter `rep`, again and again,
/// until `pat` no longer occurs.
pub open spec fn collapse(s: Seq<char>, pat: Seq<char>, rep: Seq<char>) -> Seq<char>
    decreases s.len(),
{
    let i = first_index(s, pat);
    if rep.len() < pat.len() && 0 <= i && i + pat.len() <= s.len() {
        collapse(replace_at(s, i, pat.len() as int, rep), pat, rep)
    } else {
        s
    }
}

/// What `first_index_from` returns: the leftmost occurrence from `from` on, or -1 when
/// there is none.
pub proof fn lemma_first_index_from(s: Seq<char>, pat: Seq<char>, from: int)
    requires
        0 <= from,
    ensures
        ({
            let r = first_index_from(s, pat, from);
            ||| r == -1 && forall|j: int| from <= j ==> !occurs_at(s, pat, j)
            ||| from <= r && occurs_at(s, pat, r) && forall|j: int|
                from <= j < r ==> !occurs_at(s, pat, j)
        }),
    decreases s.len() + 1 - from,
{
    if from + pat.len() > s.len() {
    } else if occurs_at(s, pat, from) {
    } else {
        lemma_first_index_from(s, pat, from + 1);
        assert forall|j: int| from <= j && !(from + 1 <= j) implies !occurs_at(s, pat, j) by {
            assert(j == from);
        }
    }
}

/// The leftmost occurrence, as a plain statement.
pub proof fn lemma_first_index(s: Seq<char>, pat: Seq<char>)
    ensures
        first_index(s, pat) == -1 <==> !contains(s, pat),
        first_index(s, pat) != -1 ==> {
            &&& occurs_at(s, pat, first_index(s, pat))
            &&& forall|j: int| 0 <= j < first_index(s, pat) ==> !occurs_at(s, pat, j)
        },
{
    lemma_first_index_from(s, pat, 0);
    if first_index(s, pat) == -1 {
        assert forall|j: int| !occurs_at(s, pat, j) by {
            if 0 <= j {
            }
        }
    }
}

/// A collapsed text no longer contains the pattern.
pub proof fn lemma_collapse_removes(s: Seq<char>, pat: Seq<char>, rep: Seq<char>)
    requires
        rep.len() < pat.len(),
    ensures
        !contains(collapse(s, pat, rep), pat),
    decreases s.len(),
{
    lemma_first_index(s, pat);
    let i = first_index(s, pat);
    if 0 <= i && i + pat.len() <= s.len() {
        lemma_collapse_removes(replace_at(s, i, pat.len() as int, rep), pat, rep);
    }
}

/// `p` is a marker: a hyphen, one or more characters that are no hyphen, and a hyphen.
pub open spec fn is_marker(p: Seq<char>) -> bool {
    &&& p.len() >= 3
    &&& p[0] == '-'
    &&& p[p.len() - 1] == '-'
    &&& forall|k: int| 0 < k < p.len() - 1 ==> p[k] != '-'
}

/// One collapsing step: the occurrence of `p` at `i` replaced by a single hyphen.
pub open spec fn marker_step(s: Seq<char>, i: int, p: Seq<char>) -> Seq<char> {
    replace_at(s, i, p.len() as int, seq!['-'])
}

/// Two marker occurrences overlap at most in one hyphen.
proof fn lemma_markers_apart(s: Seq<char>, p: Seq<char>, q: Seq<char>, i: int, j: int)
    requires
        is_marker(p),
        is_marker(q),
        occurs_at(s, p, i),
        occurs_at(s, q, j),
        i < j,
    ensures
        j >= i + p.len() - 1,
{
    if j < i + p.len() - 1 {
        assert(s.subrange(i, i + p.len())[j - i] == s[j]);
        assert(s.subrange(j, j + q.len())[0] == s[j]);
    }
}

/// Two collapsing steps, of markers at `i < j`, can be taken in either order: each
/// leaves the other marker in place, and both orders give the same text.
pub proof fn lemma_marker_steps_commute(s: Seq<char>, p: Seq<char>, q: Seq<char>, i: int, j: int)
    requires
        is_marker(p),
        is_marker(q),
        occurs_at(s, p, i),
        occurs_at(s, q, j),
        i < j,
    ensures
        occurs_at(marker_step(s, i, p), q, j - p.len() + 1),
        occurs_at(marker_step(s, j, q), p, i),
        marker_step(marker_step(s, i, p), j - p.len() + 1, q) == marker_step(
            marker_step(s, j, q),
            i,
            p,
        ),
{
    lemma_markers_apart(s, p, q, i, j);
    let np = p.len() as int;
    let nq = q.len() as int;
    let u = marker_step(s, i, p);
    let v = marker_step(s, j, q);
    let j2 = j - np + 1;
    assert forall|m: int| 0 <= m < np implies s[i + m] == p[m] by {
        assert(s.subrange(i, i + np)[m] == s[i + m]);
    }
    assert forall|m: int| 0 <= m < nq implies s[j + m] == q[m] by {
        assert(s.subrange(j, j + nq)[m] == s[j + m]);
    }
    assert(u.len() == s.len() - np + 1);
    assert(v.len() == s.len() - nq + 1);
    assert forall|k: int| 0 <= k < i implies u[k] == s[k] by {}
    assert(u[i] == '-');
    assert forall|k: int| i < k < u.len() implies u[k] == s[k + np - 1] by {}
    assert forall|k: int| 0 <= k < j implies v[k] == s[k] by {}
    assert(v[j] == '-');
    assert forall|k: int| j < k < v.len() implies v[k] == s[k + nq - 1] by {}
    assert(u.subrange(j2, j2 + nq) =~= q) by {
        assert forall|m: int| 0 <= m < nq implies u.subrange(j2, j2 + nq)[m] == q[m] by {
            if j2 + m == i {
                assert(m == 0);
            } else {
                assert(u[j2 + m] == s[j + m]);
            }
        }
    }
    assert(v.subrange(i, i + np) =~= p) by {
        assert forall|m: int| 0 <= m < np implies v.subrange(i, i + np)[m] == p[m] by {
            if i + m == j {
                assert(m == np - 1);
            } else {
                assert(v[i + m] == s[i + m]);
            }
        }
    }
    let a = marker_step(u, j2, q);
    let b = marker_step(v, i, p);
    assert(a.len() == b.len());
    assert forall|k: int| 0 <= k < a.len() implies a[k] == b[k] by {
        if k < i {
            assert(a[k] == u[k]);
            assert(b[k] == v[k]);
        } else if k == i {
            assert(b[k] == '-');
            if k < j2 {
                assert(a[k] == u[k]);
            }
        } else if k < j2 {
            assert(a[k] == u[k]);
            assert(b[k] == v[k + np - 1]);
        } else if k == j2 {
            assert(b[k] == v[k + np - 1]);
        } else {
            assert(a[k] == u[k + nq - 1]);
            assert(b[k] == v[k + np - 1]);
        }
    }
    assert(a =~= b);
}

/// A collapsing step of the marker `q` creates no occurrence of the marker `p`.
pub proof fn lemma_step_keeps_absence(s: Seq<char>, q: Seq<char>, j: int, p: Seq<char>)
    requires
        is_marker(p),
        is_marker(q),
        occurs_at(s, q, j),
        !contains(s, p),
    ensures
        !contains(marker_step(s, j, q), p),
{
    let np = p.len() as int;
    let nq = q.len() as int;
    let r = marker_step(s, j, q);
    assert forall|m: int| 0 <= m < nq implies s[j + m] == q[m] by {
        assert(s.subrange(j, j + nq)[m] == s[j + m]);
    }
    assert(r.len() == s.len() - nq + 1);
    assert forall|m: int| 0 <= m < j implies r[m] == s[m] by {}
    assert(r[j] == '-');
    assert forall|m: int| j < m < r.len() implies r[m] == s[m + nq - 1] by {}
    assert forall|k: int| !occurs_at(r, p, k) by {
        if occurs_at(r, p, k) {
            assert forall|m: int| 0 <= m < np implies r[k + m] == p[m] by {
                assert(r.subrange(k, k + np)[m] == r[k + m]);
            }
            if k + np - 1 <= j {
                assert(s.subrange(k, k + np) =~= p) by {
                    assert forall|m: int| 0 <= m < np implies s.subrange(k, k + np)[m] == p[m] by {
                        if k + m < j {
                            assert(r[k + m] == s[k + m]);
                        }
                    }
                }
                assert(occurs_at(s, p, k));
            } else if k >= j {
                let t = k + nq - 1;
                assert(s.subrange(t, t + np) =~= p) by {
                    assert forall|m: int| 0 <= m < np implies s.subrange(t, t + np)[m] == p[m] by {
                        if k + m > j {
                            assert(r[k + m] == s[t + m]);
                        }
                    }
                }
                assert(occurs_at(s, p, t));
            } else {
                assert(r[k + (j - k)] == p[j - k]);
            }
        }
    }
}

/// Collapsing a marker gives the same text whichever of its occurrences is replaced first.
pub proof fn lemma_collapse_any_step(s: Seq<char>, p: Seq<char>, j: int)
    requires
        is_marker(p),
        occurs_at(s, p, j),
    ensures
        collapse(s, p, seq!['-']) == collapse(marker_step(s, j, p), p, seq!['-']),
    decreases s.len(),
{
    lemma_first_index(s, p);
    let i = first_index(s, p);
    assert(contains(s, p));
    if i != j {
        lemma_marker_steps_commute(s, p, p, i, j);
        let j2 = j - p.len() + 1;
        lemma_collapse_any_step(marker_step(s, i, p), p, j2);
        lemma_collapse_any_step(marker_step(s, j, p), p, i);
    }
}

/// Collapsing the marker `p` commutes with one collapsing step of another marker `q`:
/// the step taken first leaves, after collapsing, the text that collapsing and then taking
/// the step at the returned place gives.
pub proof fn lemma_collapse_passes_step(s: Seq<char>, p: Seq<char>, q: Seq<char>, j: int) -> (k: int)
    requires
        is_marker(p),
        is_marker(q),
        p[1] != q[1],
        occurs_at(s, q, j),
    ensures
        occurs_at(collapse(s, p, seq!['-']), q, k),
        collapse(marker_step(s, j, q), p, seq!['-']) == marker_step(
            collapse(s, p, seq!['-']),
            k,
            q,
        ),
    decreases s.len(),
{
    lemma_first_index(s, p);
    let i = first_index(s, p);
    if i == -1 {
        lemma_step_keeps_absence(s, q, j, p);
        lemma_first_index(marker_step(s, j, q), p);
        j
    } else {
        if i == j {
            assert(s.subrange(i, i + p.len())[1] == s[i + 1]);
            assert(s.subrange(j, j + q.len())[1] == s[j + 1]);
        }
        if i < j {
            lemma_marker_steps_commute(s, p, q, i, j);
            let k = lemma_collapse_passes_step(marker_step(s, i, p), p, q, j - p.len() + 1);
            lemma_collapse_any_step(marker_step(s, j, q), p, i);
            k
        } else {
            lemma_marker_steps_commute(s, q, p, j, i);
            let k = lemma_collapse_passes_step(marker_step(s, i, p), p, q, j);
            lemma_collapse_any_step(marker_step(s, j, q), p, i - q.len() + 1);
            k
        }
    }
}

/// The characters of `s`, in order.
pub fn chars_of(s: &str) -> (res: Vec<char>)
    ensures
        res@ == s@,
{
    let n = s.unicode_len();
    let mut res: Vec<char> = Vec::new();
    let mut i: usize = 0;
    while i < n
        invariant
            n == s@.len(),
            i <= n,
            res@ == s@.subrange(0, i as int),
        decreases n - i,
    {
        let c = s.get_char(i);
        res.push(c);
        i = i + 1;
    }
    assert(res@ == s@);
    res
}

/// Build a `String` from its characters (std's `FromIterator<char>` for `String`).
///
/// Trusted: std documents that collecting characters into a `String` yields the string made
/// of exactly those characters, in order.
#[verifier::external_body]
pub(crate) fn string_from_chars(chars: &Vec<char>) -> (res: String)
    ensures
        res@ == chars@,
{
    String::from_iter(chars.iter())
}

/// Does `pat` occur in `s` at index `i`?
pub fn matches_at(s: &Vec<char>, pat: &Vec<char>, i: usize) -> (res: bool)
    ensures
        res == occurs_at(s@, pat@, i as int),
{
    if pat.len() > s.len() || i > s.len() - pat.len() {
        return false;
    }
    let mut k: usize = 0;
    while k < pat.len()
        invariant
            i + pat.len() <= s.len(),
            k <= pat.len(),
            forall|j: int| 0 <= j < k ==> s@[i + j] == pat@[j],
        decreases pat.len() - k,
    {
        if s[i + k] != pat[k] {
            assert(s@.subrange(i as int, i + pat.len())[k as int] != pat@[k as int]);
            return false;
        }
        k = k + 1;
    }
    assert(s@.subrange(i as int, i + pat.len()) =~= pat@);
    true
}

/// The index of the leftmost occurrence of `pat` in `s`.
pub fn find_chars(s: &Vec<char>, pat: &Vec<char>) -> (res: Option<usize>)
    ensures
        match res {
            Some(i) => i as int == first_index(s@, pat@),
            None => first_index(s@, pat@) == -1,
        },
{
    if pat.len() > s.len() {
        return None;
    }
    let last = s.len() - pat.len();
    let mut i: usize = 0;
    loop
        invariant
            last + pat.len() == s.len(),
            i <= last,
            first_index_from(s@, pat@, 0) == first_index_from(s@, pat@, i as int),
        decreases last - i,
    {
        if matches_at(s, pat, i) {
            return Some(i);
        }
        if i == last {
            assert(first_index_from(s@, pat@, i + 1) == -1);
            return None;
        }
        i = i + 1;
    }
}

/// Does `s` end with `suffix`?
pub fn ends_with_chars(s: &Vec<char>, suffix: &Vec<char>) -> (res: bool)
    ensures
        res == ends_with(s@, suffix@),
{
    if suffix.len() > s.len() {
        return false;
    }
    matches_at(s, suffix, s.len() - suffix.len())
}

/// `s` with the `len` characters at `i` replaced by `rep`.
pub fn replace_chars(s: &Vec<char>, i: usize, len: usize, rep: &Vec<char>) -> (res: Vec<char>)
    requires
        i + len <= s.len(),
    ensures
        res@ == replace_at(s@, i as int, len as int, rep@),
{
    let mut res: Vec<char> = Vec::new();
    let mut k: usize = 0;
    while k < i
        invariant
            i + len <= s.len(),
            k <= i,
            res@ == s@.subrange(0, k as int),
        decreases i - k,
    {
        res.push(s[k]);
        k = k + 1;
    }
    let mut k: usize = 0;
    while k < rep.len()
        invariant
            res@ == s@.subrange(0, i as int) + rep@.subrange(0, k as int),
            k <= rep.len(),
        decreases rep.len() - k,
    {
        res.push(rep[k]);
        k = k + 1;
    }
    assert(rep@.subrange(0, rep.len() as int) == rep@);
    let mut k: usize = i + len;
    while k < s.len()
        invariant
            i + len <= k <= s.len(),
            res@ == s@.subrange(0, i as int) + rep@ + s@.subrange(i + len, k as int),
        decreases s.len() - k,
    {
        res.push(s[k]);
        k = k + 1;
    }
    res
}

/// Collapse every occurrence of `pat` (leftmost first, repeatedly) into `rep`.
pub fn collapse_chars(s: Vec<char>, pat: &Vec<char>, rep: &Vec<char>) -> (res: Vec<char>)
    requires
        rep.len() < pat.len(),
    ensures
        res@ == collapse(s@, pat@, rep@),
{
    let mut cur = s;
    loop
        invariant
            rep.len() < pat.len(),
            collapse(cur@, pat@, rep@) == collapse(s@, pat@, rep@),
        decreases cur.len(),
    {
        proof {
            lemma_first_index(cur@, pat@);
        }
        match find_chars(&cur, pat) {
            None => {
                return cur;
            },
            Some(i) => {
                cur = replace_chars(&cur, i, pat.len(), rep);
            },
        }
    }
}

} // verus!
