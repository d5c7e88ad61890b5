use vstd::prelude::*;
use vstd::string::StrSliceExecFns;

verus! {

/// `a` comes strictly before `b` in lexicographic order of characters.
pub open spec fn text_lt(a: Seq<char>, b: Seq<char>) -> bool
    decreases a.len(),
{
    if b.len() == 0 {
        false
    } else if a.len() == 0 {
        true
    } else if a[0] != b[0] {
        (a[0] as int) < (b[0] as int)
    } else {
        text_lt(a.drop_first(), b.drop_first())
    }
}

/// Each element of `s` comes strictly before the later ones.
pub open spec fn strictly_sorted(s: Seq<Seq<char>>) -> bool {
    forall|i: int, j: int| 0 <= i < j < s.len() ==> text_lt(#[trigger] s[i], #[trigger] s[j])
}

pub proof fn lemma_text_lt_irreflexive(a: Seq<char>)
    ensures
        !text_lt(a, a),
    decreases a.len(),
{
    if a.len() > 0 {
        lemma_text_lt_irreflexive(a.drop_first());
    }
}

pub proof fn lemma_text_lt_total(a: Seq<char>, b: Seq<char>)
    requires
        a != b,
    ensures
        text_lt(a, b) || text_lt(b, a),
    decreases a.len(),
{
    if a.len() > 0 && b.len() > 0 {
        if a[0] == b[0] {
            assert(a.drop_first() != b.drop_first()) by {
                if a.drop_first() == b.drop_first() {
                    assert(a =~= seq![a[0]] + a.drop_first());
                    assert(b =~= seq![b[0]] + b.drop_first());
                }
            }
            lemma_text_lt_total(a.drop_first(), b.drop_first());
        } else {
            assert((a[0] as int) != (b[0] as int));
        }
    } else if a.len() == 0 && b.len() == 0 {
        assert(a =~= b);
    }
}

pub proof fn lemma_text_lt_transitive(a: Seq<char>, b: Seq<char>, c: Seq<char>)
    requires
        text_lt(a, b),
        text_lt(b, c),
    ensures
        text_lt(a, c),
    decreases a.len(),
{
    if a.len() > 0 && b.len() > 0 && c.len() > 0 && a[0] == b[0] && b[0] == c[0] {
        lemma_text_lt_transitive(a.drop_first(), b.drop_first(), c.drop_first());
    }
}

/// A strictly sorted sequence repeats nothing.
pub proof fn lemma_sorted_no_duplicates(s: Seq<Seq<char>>)
    requires
        strictly_sorted(s),
    ensures
        s.no_duplicates(),
{
    assert forall|i: int, j: int| 0 <= i < s.len() && 0 <= j < s.len() && i != j implies s[i] != s[j] by {
        lemma_text_lt_irreflexive(s[i]);
        if i < j {
            assert(text_lt(s[i], s[j]));
        } else {
            assert(text_lt(s[j], s[i]));
        }
    }
}

/// Two strictly sorted sequences that hold the same elements are equal.
pub proof fn lemma_sorted_unique(a: Seq<Seq<char>>, b: Seq<Seq<char>>)
    requires
        strictly_sorted(a),
        strictly_sorted(b),
        a.to_set() == b.to_set(),
    ensures
        a == b,
    decreases a.len(),
{
    if a.len() == 0 {
        if b.len() > 0 {
            assert(b.to_set().contains(b[0]));
        }
        assert(a =~= b);
    } else if b.len() == 0 {
        assert(a.to_set().contains(a[0]));
    } else {
        // The least elements agree.
        assert(b.to_set().contains(a[0]));
        assert(a.to_set().contains(b[0]));
        let i = choose|i: int| 0 <= i < b.len() && b[i] == a[0];
        let j = choose|j: int| 0 <= j < a.len() && a[j] == b[0];
        if i > 0 {
            assert(text_lt(b[0], b[i]));
            if j > 0 {
                assert(text_lt(a[0], a[j]));
                lemma_text_lt_transitive(a[0], b[0], a[0]);
                lemma_text_lt_irreflexive(a[0]);
            } else {
                lemma_text_lt_irreflexive(a[0]);
            }
        }
        assert(a[0] == b[0]);
        let ra = a.drop_first();
        let rb = b.drop_first();
        assert forall|x: Seq<char>| ra.to_set().contains(x) == rb.to_set().contains(x) by {
            if ra.contains(x) {
                let k = choose|k: int| 0 <= k < ra.len() && ra[k] == x;
                assert(a[k + 1] == x);
                assert(text_lt(a[0], x));
                lemma_text_lt_irreflexive(x);
                assert(x != b[0]);
                assert(b.contains(x)) by { assert(b.to_set().contains(x)); }
                let m = choose|m: int| 0 <= m < b.len() && b[m] == x;
                assert(rb[m - 1] == x);
            }
            if rb.contains(x) {
                let k = choose|k: int| 0 <= k < rb.len() && rb[k] == x;
                assert(b[k + 1] == x);
                assert(text_lt(b[0], x));
                lemma_text_lt_irreflexive(x);
                assert(x != a[0]);
                assert(a.contains(x)) by { assert(a.to_set().contains(x)); }
                let m = choose|m: int| 0 <= m < a.len() && a[m] == x;
                assert(ra[m - 1] == x);
            }
        }
        assert(ra.to_set() =~= rb.to_set());
        lemma_sorted_unique(ra, rb);
        assert(a =~= seq![a[0]] + ra);
        assert(b =~= seq![b[0]] + rb);
    }
}

/// Whether `a` comes strictly before `b`.
pub fn text_less(a: &String, b: &String) -> (r: bool)
    ensures
        r == text_lt(a@, b@),
{
    let sa = a.as_str();
    let sb = b.as_str();
    let n = sa.unicode_len();
    let m = sb.unicode_len();
    assert(sa@ == a@ && sb@ == b@);
    assert(a@.skip(0) =~= a@);
    assert(b@.skip(0) =~= b@);
    let mut i: usize = 0;
    while i < n && i < m
        invariant
            n == a@.len(),
            m == b@.len(),
            sa@ == a@,
            sb@ == b@,
            i <= n,
            i <= m,
            text_lt(a@, b@) == text_lt(a@.skip(i as int), b@.skip(i as int)),
        decreases n - i,
    {
        let x = sa.get_char(i);
        let y = sb.get_char(i);
        assert(a@.skip(i as int)[0] == x);
        assert(b@.skip(i as int)[0] == y);
        if x != y {
            return (x as u32) < (y as u32);
        }
        assert(a@.skip(i as int).drop_first() =~= a@.skip(i + 1));
        assert(b@.skip(i as int).drop_first() =~= b@.skip(i + 1));
        i = i + 1;
    }
    i < m
}

/// The strings of `v` in strictly increasing order; `v` must not repeat itself.
pub fn sorted_strings(v: &Vec<String>) -> (r: Vec<String>)
    requires
        v@.map_values(|s: String| s@).no_duplicates(),
    ensures
        strictly_sorted(r@.map_values(|s: String| s@)),
        r@.map_values(|s: String| s@).to_set() == v@.map_values(|s: String| s@).to_set(),
        r@.len() == v@.len(),
{
    let ghost vv = v@.map_values(|s: String| s@);
    let mut r: Vec<String> = Vec::new();
    let mut i: usize = 0;
    while i < v.len()
        invariant
            i <= v@.len(),
            vv == v@.map_values(|s: String| s@),
            vv.no_duplicates(),
            r@.len() == i,
            strictly_sorted(r@.map_values(|s: String| s@)),
            r@.map_values(|s: String| s@).to_set() == vv.take(i as int).to_set(),
        decreases v@.len() - i,
    {
        let x = &v[i];
        let ghost rv = r@.map_values(|s: String| s@);
        assert(!rv.contains(x@)) by {
            if rv.contains(x@) {
                assert(rv.to_set().contains(x@));
                let k = choose|k: int| 0 <= k < vv.take(i as int).len() && vv.take(i as int)[k] == x@;
                assert(vv[k] == vv[i as int]);
            }
        }
        let mut p: usize = 0;
        while p < r.len() && !text_less(x, &r[p])
            invariant
                p <= r@.len(),
                rv == r@.map_values(|s: String| s@),
                forall|k: int| 0 <= k < p ==> !text_lt(x@, #[trigger] rv[k]),
            decreases r@.len() - p,
        {
            p = p + 1;
        }
        let ghost xv = x@;
        r.insert(p, x.clone());
        proof {
            let nv = r@.map_values(|s: String| s@);
            assert(nv =~= rv.insert(p as int, xv));
            assert forall|a: int, b: int| 0 <= a < b < nv.len() implies text_lt(
                #[trigger] nv[a],
                #[trigger] nv[b],
            ) by {
                if a < p && b == p {
                    assert(!text_lt(xv, rv[a]));
                    assert(rv[a] != xv);
                    lemma_text_lt_total(xv, rv[a]);
                } else if a < p && b > p {
                    assert(text_lt(rv[a], rv[b - 1]));
                } else if a == p {
                    assert(p < rv.len());
                    assert(text_lt(xv, rv[p as int]));
                    if b - 1 > p {
                        assert(text_lt(rv[p as int], rv[b - 1]));
                        lemma_text_lt_transitive(xv, rv[p as int], rv[b - 1]);
                    }
                } else if a > p {
                    assert(text_lt(rv[a - 1], rv[b - 1]));
                } else {
                    assert(text_lt(rv[a], rv[b]));
                }
            }
            let next = vv.take(i + 1);
            let prevs = vv.take(i as int);
            assert(next =~= prevs.push(xv));
            assert forall|y: Seq<char>| nv.to_set().contains(y) == next.to_set().contains(y) by {
                if nv.contains(y) {
                    let k = choose|k: int| 0 <= k < nv.len() && nv[k] == y;
                    if k < p {
                        assert(rv[k] == y);
                        assert(rv.to_set().contains(y));
                    } else if k > p {
                        assert(rv[k - 1] == y);
                        assert(rv.to_set().contains(y));
                    }
                    if y != xv {
                        assert(prevs.to_set().contains(y));
                        let m = choose|m: int| 0 <= m < prevs.len() && prevs[m] == y;
                        assert(next[m] == y);
                    } else {
                        assert(next[i as int] == y);
                    }
                }
                if next.contains(y) {
                    let m = choose|m: int| 0 <= m < next.len() && next[m] == y;
                    if m == i {
                        assert(nv[p as int] == y);
                    } else {
                        assert(prevs[m] == y);
                        assert(prevs.to_set().contains(y));
                        assert(rv.to_set().contains(y));
                        let k = choose|k: int| 0 <= k < rv.len() && rv[k] == y;
                        if k < p {
                            assert(nv[k] == y);
                        } else {
                            assert(nv[k + 1] == y);
                        }
                    }
                }
            }
            assert(nv.to_set() =~= next.to_set());
        }
        i = i + 1;
    }
    assert(vv.take(v@.len() as int) =~= vv);
    r
}

} // verus!
