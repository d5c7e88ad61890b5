use vstd::prelude::*;

use crate::target::Target;

verus! {

/// What a project is, as a mathematical value.
pub struct ProjectView {
    pub name: Seq<char>,
    pub description: Seq<char>,
    pub mandatory: bool,
    pub targets: Seq<Seq<char>>,
}

/// A named bundle of targets, identified by its name.
#[derive(Clone, Debug)]
pub struct Project {
    pub name: String,
    pub description: String,
    pub mandatory: bool,
    pub targets: Vec<Target>,
}

impl View for Project {
    type V = ProjectView;

    open spec fn view(&self) -> ProjectView {
        ProjectView {
            name: self.name@,
            description: self.description@,
            mandatory: self.mandatory,
            targets: self.targets@.map_values(|t: Target| t@),
        }
    }
}

impl Project {
    pub fn new(name: String, description: String, mandatory: bool, targets: Vec<Target>) -> (r:
        Project)
        ensures
            r.name == name,
            r.description == description,
            r.mandatory == mandatory,
            r.targets == targets,
    {
        Project { name, description, mandatory, targets }
    }

    /// A copy of this project.
    pub fn duplicate(&self) -> (r: Project)
        ensures
            r@ == self@,
    {
        let mut targets: Vec<Target> = Vec::new();
        let mut i: usize = 0;
        while i < self.targets.len()
            invariant
                i <= self.targets@.len(),
                targets@.len() == i,
                forall|k: int| 0 <= k < i ==> targets@[k]@ == self.targets@[k]@,
            decreases self.targets@.len() - i,
        {
            targets.push(self.targets[i].duplicate());
            i = i + 1;
        }
        assert(targets@.map_values(|t: Target| t@) =~= self.targets@.map_values(|t: Target| t@));
        Project {
            name: self.name.clone(),
            description: self.description.clone(),
            mandatory: self.mandatory,
            targets,
        }
    }
}

/// No name occurs twice in `ps`.
pub open spec fn names_unique(ps: Seq<Project>) -> bool {
    forall|i: int, j: int|
        0 <= i < ps.len() && 0 <= j < ps.len() && ps[i].name@ == ps[j].name@ ==> i == j
}

/// Some project of `ps` is named `k`.
pub open spec fn has_name(ps: Seq<Project>, k: Seq<char>) -> bool {
    exists|i: int| 0 <= i < ps.len() && ps[i].name@ == k
}

/// The projects of `ps`, keyed by name.
pub open spec fn project_map(ps: Seq<Project>) -> Map<Seq<char>, ProjectView> {
    Map::new(
        |k: Seq<char>| has_name(ps, k),
        |k: Seq<char>| ps[choose|i: int| 0 <= i < ps.len() && ps[i].name@ == k]@,
    )
}

pub proof fn lemma_project_map_at(ps: Seq<Project>, i: int)
    requires
        names_unique(ps),
        0 <= i < ps.len(),
    ensures
        project_map(ps).contains_key(ps[i].name@),
        project_map(ps)[ps[i].name@] == ps[i]@,
{
    let k = ps[i].name@;
    assert(has_name(ps, k));
    let j = choose|j: int| 0 <= j < ps.len() && ps[j].name@ == k;
    assert(ps[j].name@ == k);
}

pub proof fn lemma_project_map_push(ps: Seq<Project>, p: Project)
    requires
        names_unique(ps),
        !has_name(ps, p.name@),
    ensures
        names_unique(ps.push(p)),
        project_map(ps.push(p)) == project_map(ps).insert(p.name@, p@),
{
    let s = ps.push(p);
    assert forall|i: int, j: int|
        0 <= i < s.len() && 0 <= j < s.len() && s[i].name@ == s[j].name@ implies i == j by {
        if i < ps.len() && j == ps.len() {
            assert(ps[i].name@ == p.name@);
        }
        if j < ps.len() && i == ps.len() {
            assert(ps[j].name@ == p.name@);
        }
    }
    let m = project_map(ps).insert(p.name@, p@);
    assert forall|k: Seq<char>| project_map(s).contains_key(k) == m.contains_key(k) by {
        if has_name(ps, k) {
            let i = choose|i: int| 0 <= i < ps.len() && ps[i].name@ == k;
            assert(s[i].name@ == k);
        }
        if k == p.name@ {
            assert(s[ps.len() as int].name@ == k);
        }
        if has_name(s, k) {
            let i = choose|i: int| 0 <= i < s.len() && s[i].name@ == k;
            if i < ps.len() {
                assert(ps[i].name@ == k);
            }
        }
    }
    assert forall|k: Seq<char>| #[trigger] m.contains_key(k) implies project_map(s)[k] == m[k] by {
        if k == p.name@ {
            lemma_project_map_at(s, ps.len() as int);
        } else {
            let i = choose|i: int| 0 <= i < ps.len() && ps[i].name@ == k;
            lemma_project_map_at(ps, i);
            lemma_project_map_at(s, i);
        }
    }
    assert(project_map(s) =~= m);
}

pub proof fn lemma_project_map_remove(ps: Seq<Project>, i: int)
    requires
        names_unique(ps),
        0 <= i < ps.len(),
    ensures
        names_unique(ps.remove(i)),
        project_map(ps.remove(i)) == project_map(ps).remove(ps[i].name@),
{
    let s = ps.remove(i);
    assert forall|a: int, b: int|
        0 <= a < s.len() && 0 <= b < s.len() && s[a].name@ == s[b].name@ implies a == b by {
        let a2 = if a < i { a } else { a + 1 };
        let b2 = if b < i { b } else { b + 1 };
        assert(ps[a2].name@ == ps[b2].name@);
    }
    let m = project_map(ps).remove(ps[i].name@);
    assert forall|k: Seq<char>| project_map(s).contains_key(k) == m.contains_key(k) by {
        if has_name(s, k) {
            let a = choose|a: int| 0 <= a < s.len() && s[a].name@ == k;
            if a < i {
                assert(ps[a].name@ == k);
            } else {
                assert(ps[a + 1].name@ == k);
            }
        }
        if m.contains_key(k) {
            let a = choose|a: int| 0 <= a < ps.len() && ps[a].name@ == k;
            assert(a != i);
            if a < i {
                assert(s[a].name@ == k);
            } else {
                assert(s[a - 1].name@ == k);
            }
        }
    }
    assert forall|k: Seq<char>| #[trigger] m.contains_key(k) implies project_map(s)[k] == m[k] by {
        let a = choose|a: int| 0 <= a < ps.len() && ps[a].name@ == k;
        lemma_project_map_at(ps, a);
        if a < i {
            lemma_project_map_at(s, a);
        } else {
            lemma_project_map_at(s, a - 1);
        }
    }
    assert(project_map(s) =~= m);
}

/// Position of the project named `name` in `ps`, if any.
pub fn find_project(ps: &Vec<Project>, name: &String) -> (r: Option<usize>)
    ensures
        r is None <==> !has_name(ps@, name@),
        r is Some ==> r->0 < ps@.len() && ps@[r->0 as int].name@ == name@,
{
    let mut i: usize = 0;
    while i < ps.len()
        invariant
            i <= ps@.len(),
            forall|k: int| 0 <= k < i ==> ps@[k].name@ != name@,
        decreases ps@.len() - i,
    {
        if ps[i].name == *name {
            return Some(i);
        }
        i = i + 1;
    }
    None
}

/// A catalog of projects: a mapping from name to project.
#[derive(Clone, Debug)]
pub struct Projects {
    pub underlying: Vec<Project>,
}

impl View for Projects {
    type V = Map<Seq<char>, ProjectView>;

    open spec fn view(&self) -> Map<Seq<char>, ProjectView> {
        project_map(self.underlying@)
    }
}

impl Projects {
    /// Names are keys: each occurs once.
    pub open spec fn wf(&self) -> bool {
        names_unique(self.underlying@)
    }

    /// An empty catalog.
    pub fn new() -> (r: Projects)
        ensures
            r.wf(),
            r@ == Map::<Seq<char>, ProjectView>::empty(),
    {
        let r = Projects { underlying: Vec::new() };
        assert(r@ =~= Map::<Seq<char>, ProjectView>::empty());
        r
    }

    /// Adds `project` unless a project of that name is already in the catalog;
    /// returns whether it was added.
    pub fn insert(&mut self, project: Project) -> (r: bool)
        requires
            old(self).wf(),
        ensures
            final(self).wf(),
            r == !old(self)@.contains_key(project.name@),
            r ==> final(self)@ == old(self)@.insert(project.name@, project@),
            !r ==> final(self)@ == old(self)@,
    {
        match find_project(&self.underlying, &project.name) {
            Some(_) => false,
            None => {
                proof {
                    lemma_project_map_push(self.underlying@, project);
                }
                self.underlying.push(project);
                true
            },
        }
    }

    /// The project named `name`, if the catalog has one.
    pub fn get(&self, name: &String) -> (r: Option<&Project>)
        requires
            self.wf(),
        ensures
            r is Some <==> self@.contains_key(name@),
            r is Some ==> r->0@ == self@[name@] && r->0.name@ == name@,
    {
        match find_project(&self.underlying, name) {
            Some(i) => {
                proof {
                    lemma_project_map_at(self.underlying@, i as int);
                }
                Some(&self.underlying[i])
            },
            None => None,
        }
    }

    /// The number of projects in the catalog.
    pub fn len(&self) -> (r: usize)
        requires
            self.wf(),
        ensures
            r == self@.len(),
    {
        proof {
            lemma_project_map_len(self.underlying@);
        }
        self.underlying.len()
    }
}

pub proof fn lemma_project_map_len(ps: Seq<Project>)
    requires
        names_unique(ps),
    ensures
        project_map(ps).dom().finite(),
        project_map(ps).len() == ps.len(),
    decreases ps.len(),
{
    if ps.len() == 0 {
        assert(project_map(ps) =~= Map::<Seq<char>, ProjectView>::empty());
    } else {
        let q = ps.drop_last();
        let p = ps.last();
        assert(names_unique(q));
        lemma_project_map_len(q);
        assert(!has_name(q, p.name@)) by {
            if has_name(q, p.name@) {
                let i = choose|i: int| 0 <= i < q.len() && q[i].name@ == p.name@;
                assert(ps[i].name@ == ps[ps.len() - 1].name@);
            }
        }
        lemma_project_map_push(q, p);
        assert(q.push(p) =~= ps);
    }
}

} // verus!
