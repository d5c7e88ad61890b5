use vstd::prelude::*;
use vstd::string::StrSliceExecFns;

verus! {

/// `s` begins with `p`.
pub open spec fn starts_with(s: Seq<char>, p: Seq<char>) -> bool {
    p.len() <= s.len() && s.subrange(0, p.len() as int) == p
}

/// A string names a target coordinate when it begins with a known scheme.
pub open spec fn is_coordinate(s: Seq<char>) -> bool {
    ||| starts_with(s, seq!['b', 'a', 'z', 'e', 'l', ':'])
    ||| starts_with(s, seq!['d', 'i', 'r', 'e', 'c', 't', 'o', 'r', 'y', ':'])
    ||| starts_with(s, seq!['p', 'a', 'n', 't', 's', ':'])
}

fn has_prefix(s: &str, p: &str) -> (r: bool)
    ensures
        r == starts_with(s@, p@),
{
    let n = s.unicode_len();
    let m = p.unicode_len();
    if m > n {
        return false;
    }
    let mut i: usize = 0;
    while i < m
        invariant
            m == p@.len(),
            n == s@.len(),
            m <= n,
            i <= m,
            forall|k: int| 0 <= k < i ==> s@[k] == p@[k],
        decreases m - i,
    {
        if s.get_char(i) != p.get_char(i) {
            assert(s@.subrange(0, m as int)[i as int] != p@[i as int]);
            return false;
        }
        i = i + 1;
    }
    assert(s@.subrange(0, m as int) =~= p@);
    true
}

/// Whether `s` is a target coordinate.
pub fn is_target_coordinate(s: &String) -> (r: bool)
    ensures
        r == is_coordinate(s@),
{
    let t = s.as_str();
    proof {
        reveal_strlit("bazel:");
        reveal_strlit("directory:");
        reveal_strlit("pants:");
        assert("bazel:"@ =~= seq!['b', 'a', 'z', 'e', 'l', ':']);
        assert("directory:"@ =~= seq!['d', 'i', 'r', 'e', 'c', 't', 'o', 'r', 'y', ':']);
        assert("pants:"@ =~= seq!['p', 'a', 'n', 't', 's', ':']);
    }
    has_prefix(t, "bazel:") || has_prefix(t, "directory:") || has_prefix(t, "pants:")
}

/// A selectable coordinate, identified by its canonical string form, which
/// always begins with a known scheme.
#[derive(Debug)]
pub struct Target {
    coordinate: String,
}

impl View for Target {
    type V = Seq<char>;

    closed spec fn view(&self) -> Seq<char> {
        self.coordinate@
    }
}

impl Target {
    #[verifier::type_invariant]
    closed spec fn inv(self) -> bool {
        is_coordinate(self.coordinate@)
    }

    /// The target for `coordinate`, which must be a coordinate.
    pub fn new(coordinate: String) -> (r: Target)
        requires
            is_coordinate(coordinate@),
        ensures
            r@ == coordinate@,
    {
        Target { coordinate }
    }

    /// The target for `coordinate`, if it is a coordinate.
    pub fn parse(coordinate: String) -> (r: Option<Target>)
        ensures
            r is Some <==> is_coordinate(coordinate@),
            r is Some ==> r->0@ == coordinate@,
    {
        if is_target_coordinate(&coordinate) {
            Some(Target { coordinate })
        } else {
            None
        }
    }

    /// The coordinate as a string.
    pub fn coordinate(&self) -> (r: &String)
        ensures
            r@ == self@,
            is_coordinate(self@),
    {
        proof {
            use_type_invariant(self);
        }
        &self.coordinate
    }

    /// Whether two targets name the same coordinate.
    pub fn same(&self, other: &Target) -> (r: bool)
        ensures
            r == (self@ == other@),
    {
        self.coordinate == other.coordinate
    }

    /// A copy of this target.
    pub fn duplicate(&self) -> (r: Target)
        ensures
            r@ == self@,
            is_coordinate(r@),
    {
        proof {
            use_type_invariant(self);
        }
        Target { coordinate: self.coordinate.clone() }
    }
}

impl Clone for Target {
    fn clone(&self) -> (r: Target)
        ensures
            r@ == self@,
    {
        self.duplicate()
    }
}

/// No coordinate occurs twice in `ts`.
pub open spec fn targets_unique(ts: Seq<Target>) -> bool {
    forall|i: int, j: int|
        0 <= i < ts.len() && 0 <= j < ts.len() && ts[i]@ == ts[j]@ ==> i == j
}

/// The views of the elements of `s`.
pub open spec fn view_set<A: View>(s: Seq<A>) -> Set<A::V> {
    Set::new(|v: A::V| exists|i: int| 0 <= i < s.len() && s[i]@ == v)
}

/// Appending an element adds its view.
pub proof fn lemma_view_set_push<A: View>(s: Seq<A>, x: A)
    ensures
        view_set(s.push(x)) == view_set(s).insert(x@),
{
    let t = s.push(x);
    assert forall|v: A::V| view_set(t).contains(v) == view_set(s).insert(x@).contains(v) by {
        if view_set(s).contains(v) {
            let i = choose|i: int| 0 <= i < s.len() && s[i]@ == v;
            assert(t[i]@ == v);
        }
        if v == x@ {
            assert(t[s.len() as int]@ == v);
        }
        if view_set(t).contains(v) {
            let i = choose|i: int| 0 <= i < t.len() && t[i]@ == v;
            if i < s.len() {
                assert(s[i]@ == v);
            }
        }
    }
    assert(view_set(t) =~= view_set(s).insert(x@));
}

/// The coordinates held by `ts`.
pub open spec fn target_set(ts: Seq<Target>) -> Set<Seq<char>> {
    view_set(ts)
}

/// Position of the target with coordinate `t`, if any.
pub fn find_target(ts: &Vec<Target>, t: &Target) -> (r: Option<usize>)
    ensures
        r is None <==> !target_set(ts@).contains(t@),
        r is Some ==> r->0 < ts@.len() && ts@[r->0 as int]@ == t@,
{
    let mut i: usize = 0;
    while i < ts.len()
        invariant
            i <= ts@.len(),
            forall|k: int| 0 <= k < i ==> ts@[k]@ != t@,
        decreases ts@.len() - i,
    {
        if ts[i].same(t) {
            return Some(i);
        }
        i = i + 1;
    }
    None
}

pub proof fn lemma_target_set_push(ts: Seq<Target>, t: Target)
    requires
        targets_unique(ts),
        !target_set(ts).contains(t@),
    ensures
        targets_unique(ts.push(t)),
        target_set(ts.push(t)) == target_set(ts).insert(t@),
{
    let s = ts.push(t);
    lemma_view_set_push(ts, t);
    assert forall|i: int, j: int|
        0 <= i < s.len() && 0 <= j < s.len() && s[i]@ == s[j]@ implies i == j by {
        if i < ts.len() && j == ts.len() {
            assert(ts[i]@ == t@);
        }
        if j < ts.len() && i == ts.len() {
            assert(ts[j]@ == t@);
        }
    }
}

pub proof fn lemma_target_set_remove(ts: Seq<Target>, i: int)
    requires
        targets_unique(ts),
        0 <= i < ts.len(),
    ensures
        targets_unique(ts.remove(i)),
        target_set(ts.remove(i)) == target_set(ts).remove(ts[i]@),
{
    let s = ts.remove(i);
    assert forall|c: Seq<char>| target_set(s).contains(c) == target_set(ts).remove(ts[i]@).contains(c) by {
        if target_set(s).contains(c) {
            let k = choose|k: int| 0 <= k < s.len() && s[k]@ == c;
            if k < i {
                assert(ts[k]@ == c);
            } else {
                assert(ts[k + 1]@ == c);
            }
        }
        if target_set(ts).remove(ts[i]@).contains(c) {
            let k = choose|k: int| 0 <= k < ts.len() && ts[k]@ == c;
            assert(k != i);
            if k < i {
                assert(s[k]@ == c);
            } else {
                assert(s[k - 1]@ == c);
            }
        }
    }
    assert(target_set(s) =~= target_set(ts).remove(ts[i]@));
    assert forall|a: int, b: int|
        0 <= a < s.len() && 0 <= b < s.len() && s[a]@ == s[b]@ implies a == b by {
        let a2 = if a < i { a } else { a + 1 };
        let b2 = if b < i { b } else { b + 1 };
        assert(ts[a2]@ == ts[b2]@);
    }
}

} // verus!
