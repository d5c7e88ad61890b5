use vstd::prelude::*;

use crate::operation::{
    ops_view, persisted_ops, Operation, OperationAction, OperationResult, OperationResultView,
    OperationView, Outcome, PersistedSelection, PersistedSelectionView, SelectionError,
    Underlying, UnderlyingView, targets_valid,
};
use crate::project::{
    find_project, lemma_project_map_at, lemma_project_map_push, lemma_project_map_remove,
    names_unique, project_map, Project, ProjectView, Projects,
};
use crate::order::{lemma_sorted_no_duplicates, lemma_sorted_unique, sorted_strings, strictly_sorted};
use crate::target::{
    is_coordinate,
    find_target, lemma_target_set_push, lemma_target_set_remove, target_set, targets_unique, Target,
};

verus! {

/// A selection as a mathematical value: projects keyed by name, and target coordinates.
pub struct SelectionView {
    pub projects: Map<Seq<char>, ProjectView>,
    pub targets: Set<Seq<char>>,
}

impl SelectionView {
    pub open spec fn empty() -> SelectionView {
        SelectionView { projects: Map::empty(), targets: Set::empty() }
    }
}

/// The selected projects and targets. Each project name and each coordinate occurs once.
#[derive(Clone, Debug)]
pub struct Selection {
    pub projects: Vec<Project>,
    pub targets: Vec<Target>,
}

impl View for Selection {
    type V = SelectionView;

    open spec fn view(&self) -> SelectionView {
        SelectionView { projects: project_map(self.projects@), targets: target_set(self.targets@) }
    }
}

/// The effect of one operation on a selection and on the result so far, with
/// project names resolved in `catalog`.
pub open spec fn step(
    sel: SelectionView,
    res: OperationResultView,
    op: OperationView,
    catalog: Map<Seq<char>, ProjectView>,
) -> (SelectionView, OperationResultView) {
    let u = op.underlying;
    match u {
        UnderlyingView::Target(t) => {
            if op.action == OperationAction::Add {
                if sel.targets.contains(t) {
                    (sel, res.record(Outcome::Ignored, u))
                } else {
                    (SelectionView { targets: sel.targets.insert(t), ..sel }, res.record(Outcome::Added, u))
                }
            } else {
                if sel.targets.contains(t) {
                    (SelectionView { targets: sel.targets.remove(t), ..sel }, res.record(Outcome::Removed, u))
                } else {
                    (sel, res.record(Outcome::Ignored, u))
                }
            }
        },
        UnderlyingView::Project(n) => {
            if !catalog.contains_key(n) {
                (sel, res.record(Outcome::Absent, u))
            } else if op.action == OperationAction::Add {
                if sel.projects.contains_key(n) {
                    (sel, res.record(Outcome::Ignored, u))
                } else {
                    (
                        SelectionView { projects: sel.projects.insert(n, catalog[n]), ..sel },
                        res.record(Outcome::Added, u),
                    )
                }
            } else {
                if sel.projects.contains_key(n) {
                    (
                        SelectionView { projects: sel.projects.remove(n), ..sel },
                        res.record(Outcome::Removed, u),
                    )
                } else {
                    (sel, res.record(Outcome::Ignored, u))
                }
            }
        },
    }
}

/// The operations `ops` applied in order to `sel`, starting from an empty result.
pub open spec fn apply(
    ops: Seq<OperationView>,
    sel: SelectionView,
    catalog: Map<Seq<char>, ProjectView>,
) -> (SelectionView, OperationResultView)
    decreases ops.len(),
{
    if ops.len() == 0 {
        (sel, OperationResultView::empty())
    } else {
        let prev = apply(ops.drop_last(), sel, catalog);
        step(prev.0, prev.1, ops.last(), catalog)
    }
}

/// Every selected target of `s` is a coordinate.
pub open spec fn coordinates_only(s: SelectionView) -> bool {
    forall|t: Seq<char>| #[trigger] s.targets.contains(t) ==> is_coordinate(t)
}

impl Selection {
    /// No project name and no coordinate occurs twice, and every target is a coordinate.
    pub open spec fn wf(&self) -> bool {
        names_unique(self.projects@) && targets_unique(self.targets@) && coordinates_only(self@)
    }

    /// The empty selection.
    pub fn new() -> (r: Selection)
        ensures
            r.wf(),
            r@ == SelectionView::empty(),
    {
        let r = Selection { projects: Vec::new(), targets: Vec::new() };
        assert(r@.projects =~= Map::<Seq<char>, ProjectView>::empty());
        assert(r@.targets =~= Set::<Seq<char>>::empty());
        r
    }

    /// A copy of this selection.
    pub fn duplicate(&self) -> (r: Selection)
        requires
            self.wf(),
        ensures
            r.wf(),
            r@ == self@,
    {
        let mut projects: Vec<Project> = Vec::new();
        let mut i: usize = 0;
        while i < self.projects.len()
            invariant
                i <= self.projects@.len(),
                projects@.len() == i,
                forall|k: int| 0 <= k < i ==> #[trigger] projects@[k]@ == self.projects@[k]@,
            decreases self.projects@.len() - i,
        {
            projects.push(self.projects[i].duplicate());
            i = i + 1;
        }
        let mut targets: Vec<Target> = Vec::new();
        let mut j: usize = 0;
        while j < self.targets.len()
            invariant
                j <= self.targets@.len(),
                targets@.len() == j,
                forall|k: int| 0 <= k < j ==> #[trigger] targets@[k]@ == self.targets@[k]@,
            decreases self.targets@.len() - j,
        {
            targets.push(self.targets[j].duplicate());
            j = j + 1;
        }
        let r = Selection { projects, targets };
        assert(names_unique(r.projects@)) by {
            assert forall|a: int, b: int|
                0 <= a < r.projects@.len() && 0 <= b < r.projects@.len()
                    && r.projects@[a].name@ == r.projects@[b].name@ implies a == b by {
                assert(r.projects@[a]@ == self.projects@[a]@);
                assert(r.projects@[b]@ == self.projects@[b]@);
                assert(self.projects@[a].name@ == self.projects@[b].name@);
            }
        }
        assert(targets_unique(r.targets@)) by {
            assert forall|a: int, b: int|
                0 <= a < r.targets@.len() && 0 <= b < r.targets@.len()
                    && r.targets@[a]@ == r.targets@[b]@ implies a == b by {
                assert(self.targets@[a]@ == self.targets@[b]@);
            }
        }
        assert forall|k: Seq<char>| #[trigger] r@.projects.contains_key(k) == self@.projects.contains_key(k) by {
            if r@.projects.contains_key(k) {
                let a = choose|a: int| 0 <= a < r.projects@.len() && r.projects@[a].name@ == k;
                assert(r.projects@[a]@ == self.projects@[a]@);
                assert(self.projects@[a].name@ == k);
            }
            if self@.projects.contains_key(k) {
                let a = choose|a: int| 0 <= a < self.projects@.len() && self.projects@[a].name@ == k;
                assert(r.projects@[a]@ == self.projects@[a]@);
                assert(r.projects@[a].name@ == k);
            }
        }
        assert forall|k: Seq<char>| #[trigger] r@.projects.contains_key(k) implies r@.projects[k] == self@.projects[k] by {
            let a = choose|a: int| 0 <= a < r.projects@.len() && r.projects@[a].name@ == k;
            lemma_project_map_at(r.projects@, a);
            lemma_project_map_at(self.projects@, a);
        }
        assert(r@.projects =~= self@.projects);
        assert forall|c: Seq<char>| r@.targets.contains(c) == self@.targets.contains(c) by {
            if r@.targets.contains(c) {
                let a = choose|a: int| 0 <= a < r.targets@.len() && r.targets@[a]@ == c;
                assert(self.targets@[a]@ == c);
            }
            if self@.targets.contains(c) {
                let a = choose|a: int| 0 <= a < self.targets@.len() && self.targets@[a]@ == c;
                assert(r.targets@[a]@ == c);
            }
        }
        assert(r@.targets =~= self@.targets);
        r
    }

    /// Rebuilds a selection from its stored form by adding every listed project
    /// and target to an empty selection; names missing from `projects` are left out.
    /// Fails when a stored target is not a coordinate.
    pub fn from_persisted_selection(persisted_selection: PersistedSelection, projects: &Projects) -> (r:
        Result<Selection, SelectionError>)
        requires
            projects.wf(),
        ensures
            r is Ok <==> targets_valid(persisted_selection@),
            r is Ok ==> r->Ok_0.wf() && r->Ok_0@ == apply(
                persisted_ops(persisted_selection@),
                SelectionView::empty(),
                projects@,
            ).0,
            r is Err ==> r->Err_0 == SelectionError::InvalidTarget,
    {
        let mut selection = Selection::new();
        let operations = persisted_selection.to_operations()?;
        selection.apply_operations(&operations, projects);
        Ok(selection)
    }

    /// Applies `operations` in order, resolving project names in `projects`.
    pub fn apply_operations(&mut self, operations: &Vec<Operation>, projects: &Projects) -> (r:
        OperationResult)
        requires
            old(self).wf(),
            projects.wf(),
        ensures
            final(self).wf(),
            (final(self)@, r@) == apply(ops_view(operations@), old(self)@, projects@),
    {
        let processor = SelectionOperationProcessor { projects };
        processor.process(self, operations)
    }
}

impl Default for Selection {
    fn default() -> (r: Selection)
        ensures
            r.wf(),
            r@ == SelectionView::empty(),
    {
        Selection::new()
    }
}

/// Applies operations to a selection, resolving project names in a catalog.
pub struct SelectionOperationProcessor<'processor> {
    pub projects: &'processor Projects,
}

impl<'processor> SelectionOperationProcessor<'processor> {
    /// Applies `operations` to `selection` in order, and reports what happened to each
    /// reference. Unknown project names are reported as absent, never as a failure.
    pub fn process(&self, selection: &mut Selection, operations: &Vec<Operation>) -> (r:
        OperationResult)
        requires
            old(selection).wf(),
            self.projects.wf(),
        ensures
            final(selection).wf(),
            (final(selection)@, r@) == apply(ops_view(operations@), old(selection)@, self.projects@),
    {
        let ghost ops = ops_view(operations@);
        let ghost start = selection@;
        let mut result = OperationResult::new();
        let mut i: usize = 0;
        while i < operations.len()
            invariant
                i <= operations@.len(),
                ops == ops_view(operations@),
                self.projects.wf(),
                selection.wf(),
                (selection@, result@) == apply(ops.take(i as int), start, self.projects@),
            decreases operations@.len() - i,
        {
            let operation = &operations[i];
            proof {
                assert(ops.take(i + 1).drop_last() =~= ops.take(i as int));
                assert(ops.take(i + 1).last() == operation@);
            }
            self.apply_one(selection, &mut result, operation);
            i = i + 1;
        }
        assert(ops.take(operations@.len() as int) =~= ops);
        result
    }

    fn apply_one(&self, selection: &mut Selection, result: &mut OperationResult, operation: &Operation)
        requires
            old(selection).wf(),
            self.projects.wf(),
        ensures
            final(selection).wf(),
            (final(selection)@, final(result)@) == step(
                old(selection)@,
                old(result)@,
                operation@,
                self.projects@,
            ),
    {
        let u = &operation.underlying;
        let ghost before = selection@;
        match u {
            Underlying::Target(target) => {
                let found = find_target(&selection.targets, target);
                match operation.action {
                    OperationAction::Add => match found {
                        Some(_) => result.record(Outcome::Ignored, u),
                        None => {
                            let t = target.duplicate();
                            proof {
                                lemma_target_set_push(selection.targets@, t);
                            }
                            selection.targets.push(t);
                            assert(coordinates_only(selection@)) by {
                                assert forall|c: Seq<char>| #[trigger] selection@.targets.contains(c) implies is_coordinate(c) by {
                                    if c != t@ {
                                        assert(before.targets.contains(c));
                                    }
                                }
                            }
                            result.record(Outcome::Added, u);
                        },
                    },
                    OperationAction::Remove => match found {
                        Some(k) => {
                            proof {
                                lemma_target_set_remove(selection.targets@, k as int);
                            }
                            selection.targets.remove(k);
                            assert(coordinates_only(selection@)) by {
                                assert forall|c: Seq<char>| #[trigger] selection@.targets.contains(c) implies is_coordinate(c) by {
                                    assert(before.targets.contains(c));
                                }
                            }
                            result.record(Outcome::Removed, u);
                        },
                        None => result.record(Outcome::Ignored, u),
                    },
                }
            },
            Underlying::Project(name) => {
                match self.projects.get(name) {
                    None => result.record(Outcome::Absent, u),
                    Some(project) => {
                        let found = find_project(&selection.projects, name);
                        match operation.action {
                            OperationAction::Add => match found {
                                Some(_) => result.record(Outcome::Ignored, u),
                                None => {
                                    let p = project.duplicate();
                                    proof {
                                        lemma_project_map_push(selection.projects@, p);
                                    }
                                    selection.projects.push(p);
                                    assert(selection@.targets == before.targets);
                                    assert(selection.wf());
                                    result.record(Outcome::Added, u);
                                },
                            },
                            OperationAction::Remove => match found {
                                Some(k) => {
                                    proof {
                                        lemma_project_map_remove(selection.projects@, k as int);
                                    }
                                    selection.projects.remove(k);
                                    assert(selection@.targets == before.targets);
                                    assert(selection.wf());
                                    result.record(Outcome::Removed, u);
                                },
                                None => result.record(Outcome::Ignored, u),
                            },
                        }
                    },
                }
            },
        }
    }
}

/// Every coordinate that `s` selects: its own targets and those of its projects.
pub open spec fn covered_targets(s: SelectionView) -> Set<Seq<char>> {
    s.targets.union(
        Set::new(
            |t: Seq<char>|
                exists|k: Seq<char>| #[trigger]
                    s.projects.contains_key(k) && s.projects[k].targets.contains(t),
        ),
    )
}

/// Adds to `r` each target of `ts` that it lacks.
fn add_missing(r: &mut Vec<Target>, ts: &Vec<Target>)
    requires
        targets_unique(old(r)@),
    ensures
        targets_unique(final(r)@),
        target_set(final(r)@) == target_set(old(r)@).union(ts@.map_values(|t: Target| t@).to_set()),
{
    let ghost start = target_set(r@);
    let ghost tv = ts@.map_values(|t: Target| t@);
    let mut j: usize = 0;
    while j < ts.len()
        invariant
            j <= ts@.len(),
            tv == ts@.map_values(|t: Target| t@),
            targets_unique(r@),
            target_set(r@) == start.union(tv.take(j as int).to_set()),
        decreases ts@.len() - j,
    {
        let t = &ts[j];
        proof {
            assert(tv.take(j + 1) =~= tv.take(j as int).push(t@));
            lemma_push_to_set(tv.take(j as int), t@);
        }
        match find_target(r, t) {
            Some(_) => {
                assert(start.union(tv.take(j + 1).to_set()) =~= start.union(tv.take(j as int).to_set()));
            },
            None => {
                let d = t.duplicate();
                proof {
                    lemma_target_set_push(r@, d);
                }
                r.push(d);
                assert(start.union(tv.take(j + 1).to_set()) =~= start.union(tv.take(j as int).to_set()).insert(t@));
            },
        }
        j = j + 1;
    }
    assert(tv.take(ts@.len() as int) =~= tv);
}

impl Selection {
    /// Every coordinate this selection covers, each once: its own targets, then
    /// those of its projects.
    pub fn all_targets(&self) -> (r: Vec<Target>)
        requires
            self.wf(),
        ensures
            targets_unique(r@),
            target_set(r@) == covered_targets(self@),
    {
        let copy = self.duplicate();
        let mut r = copy.targets;
        let ghost own = self@.targets;
        let mut i: usize = 0;
        while i < self.projects.len()
            invariant
                i <= self.projects@.len(),
                self.wf(),
                own == self@.targets,
                targets_unique(r@),
                target_set(r@) == own.union(
                    Set::new(
                        |t: Seq<char>|
                            exists|a: int| 0 <= a < i && #[trigger] self.projects@[a]@.targets.contains(t),
                    ),
                ),
            decreases self.projects@.len() - i,
        {
            let ghost prev = target_set(r@);
            add_missing(&mut r, &self.projects[i].targets);
            proof {
                let tv = self.projects@[i as int]@.targets;
                assert(self.projects@[i as int].targets@.map_values(|t: Target| t@) == tv);
                let lhs = own.union(
                    Set::new(
                        |t: Seq<char>|
                            exists|a: int| 0 <= a < i + 1 && #[trigger] self.projects@[a]@.targets.contains(t),
                    ),
                );
                assert forall|t: Seq<char>| target_set(r@).contains(t) == lhs.contains(t) by {
                    if tv.to_set().contains(t) {
                        assert(self.projects@[i as int]@.targets.contains(t));
                    }
                    if lhs.contains(t) && !own.contains(t) {
                        let a = choose|a: int| 0 <= a < i + 1 && #[trigger] self.projects@[a]@.targets.contains(t);
                        if a == i {
                            assert(tv.contains(t));
                        } else {
                            assert(prev.contains(t));
                        }
                    }
                }
                assert(target_set(r@) =~= lhs);
            }
            i = i + 1;
        }
        proof {
            let c = covered_targets(self@);
            assert forall|t: Seq<char>| target_set(r@).contains(t) == c.contains(t) by {
                if !own.contains(t) {
                    if target_set(r@).contains(t) {
                        let a = choose|a: int|
                            0 <= a < self.projects@.len() && #[trigger] self.projects@[a]@.targets.contains(t);
                        lemma_project_map_at(self.projects@, a);
                        assert(self@.projects.contains_key(self.projects@[a].name@));
                    }
                    if c.contains(t) {
                        let k = choose|k: Seq<char>| #[trigger]
                            self@.projects.contains_key(k) && self@.projects[k].targets.contains(t);
                        let a = choose|a: int| 0 <= a < self.projects@.len() && self.projects@[a].name@ == k;
                        lemma_project_map_at(self.projects@, a);
                        assert(self.projects@[a]@.targets.contains(t));
                    }
                }
            }
            assert(target_set(r@) =~= c);
        }
        r
    }
}

/// `p` lists exactly the projects and targets of `s`, each once, in increasing order.
pub open spec fn persisted_form_of(p: PersistedSelectionView, s: SelectionView) -> bool {
    &&& p.projects.no_duplicates()
    &&& p.targets.no_duplicates()
    &&& strictly_sorted(p.projects)
    &&& strictly_sorted(p.targets)
    &&& p.projects.to_set() == s.projects.dom()
    &&& p.targets.to_set() == s.targets
}

impl PersistedSelection {
    /// The stored form of `selection`: its project names and its target coordinates,
    /// each list in increasing order.
    pub fn from_selection(selection: &Selection) -> (r: PersistedSelection)
        requires
            selection.wf(),
        ensures
            persisted_form_of(r@, selection@),
    {
        let mut projects: Vec<String> = Vec::new();
        let mut i: usize = 0;
        while i < selection.projects.len()
            invariant
                i <= selection.projects@.len(),
                projects@.len() == i,
                forall|k: int| 0 <= k < i ==> #[trigger] projects@[k]@ == selection.projects@[k].name@,
            decreases selection.projects@.len() - i,
        {
            projects.push(selection.projects[i].name.clone());
            i = i + 1;
        }
        let mut targets: Vec<String> = Vec::new();
        let mut j: usize = 0;
        while j < selection.targets.len()
            invariant
                j <= selection.targets@.len(),
                targets@.len() == j,
                forall|k: int| 0 <= k < j ==> #[trigger] targets@[k]@ == selection.targets@[k]@,
            decreases selection.targets@.len() - j,
        {
            targets.push(selection.targets[j].coordinate().clone());
            j = j + 1;
        }
        let unsorted = PersistedSelection { projects, targets };
        let ghost pv = unsorted@;
        assert(pv.projects =~= selection.projects@.map_values(|p: Project| p.name@));
        assert(pv.targets =~= selection.targets@.map_values(|t: Target| t@));
        let ghost sv = selection@;
        assert(pv.projects.to_set() =~= sv.projects.dom()) by {
            assert forall|k: Seq<char>| pv.projects.contains(k) implies sv.projects.contains_key(k) by {
                let a = choose|a: int| 0 <= a < pv.projects.len() && pv.projects[a] == k;
                assert(selection.projects@[a].name@ == k);
            }
            assert forall|k: Seq<char>| sv.projects.contains_key(k) implies pv.projects.contains(k) by {
                let a = choose|a: int| 0 <= a < selection.projects@.len() && selection.projects@[a].name@ == k;
                assert(pv.projects[a] == k);
            }
        }
        assert(pv.targets.to_set() =~= sv.targets) by {
            assert forall|c: Seq<char>| pv.targets.contains(c) implies sv.targets.contains(c) by {
                let a = choose|a: int| 0 <= a < pv.targets.len() && pv.targets[a] == c;
                assert(selection.targets@[a]@ == c);
            }
            assert forall|c: Seq<char>| sv.targets.contains(c) implies pv.targets.contains(c) by {
                let a = choose|a: int| 0 <= a < selection.targets@.len() && selection.targets@[a]@ == c;
                assert(pv.targets[a] == c);
            }
        }
        assert(pv.projects.no_duplicates()) by {
            assert forall|a: int, b: int|
                0 <= a < pv.projects.len() && 0 <= b < pv.projects.len() && a != b implies pv.projects[a]
                    != pv.projects[b] by {
                assert(pv.projects[a] == selection.projects@[a].name@);
                assert(pv.projects[b] == selection.projects@[b].name@);
            }
        }
        assert(pv.targets.no_duplicates()) by {
            assert forall|a: int, b: int|
                0 <= a < pv.targets.len() && 0 <= b < pv.targets.len() && a != b implies pv.targets[a]
                    != pv.targets[b] by {
                assert(pv.targets[a] == selection.targets@[a]@);
                assert(pv.targets[b] == selection.targets@[b]@);
            }
        }
        let projects = sorted_strings(&unsorted.projects);
        let targets = sorted_strings(&unsorted.targets);
        let r = PersistedSelection { projects, targets };
        proof {
            lemma_sorted_no_duplicates(r@.projects);
            lemma_sorted_no_duplicates(r@.targets);
        }
        r
    }
}

/// A selection has exactly one stored form.
pub proof fn lemma_stored_form_unique(p: PersistedSelectionView, q: PersistedSelectionView, s: SelectionView)
    requires
        persisted_form_of(p, s),
        persisted_form_of(q, s),
    ensures
        p == q,
{
    lemma_sorted_unique(p.projects, q.projects);
    lemma_sorted_unique(p.targets, q.targets);
}

/// Every project of `s` is the project of that name in `catalog`.
pub open spec fn resolved_in(s: SelectionView, catalog: Map<Seq<char>, ProjectView>) -> bool {
    forall|k: Seq<char>| #[trigger]
        s.projects.contains_key(k) ==> catalog.contains_key(k) && s.projects[k] == catalog[k]
}

/// `op` adds something that `sel` already holds: a cataloged project or a target.
pub open spec fn adds_selected(
    op: OperationView,
    sel: SelectionView,
    catalog: Map<Seq<char>, ProjectView>,
) -> bool {
    &&& op.action == OperationAction::Add
    &&& match op.underlying {
        UnderlyingView::Project(n) => catalog.contains_key(n) && sel.projects.contains_key(n),
        UnderlyingView::Target(t) => sel.targets.contains(t),
    }
}

proof fn lemma_push_to_set<A>(s: Seq<A>, x: A)
    ensures
        s.push(x).to_set() == s.to_set().insert(x),
{
    let t = s.push(x);
    assert forall|y: A| t.contains(y) implies s.to_set().insert(x).contains(y) by {
        let a = choose|a: int| 0 <= a < t.len() && t[a] == y;
        if a < s.len() {
            assert(s[a] == y);
        }
    }
    assert forall|y: A| s.to_set().insert(x).contains(y) implies t.contains(y) by {
        if y == x {
            assert(t[s.len() as int] == y);
        } else {
            let a = choose|a: int| 0 <= a < s.len() && s[a] == y;
            assert(t[a] == y);
        }
    }
    assert(t.to_set() =~= s.to_set().insert(x));
}

/// Adding what is already selected changes nothing: every such reference is
/// ignored, nothing is added, removed or absent, and the batch reports no change.
pub proof fn lemma_adding_selected_is_ignored(
    ops: Seq<OperationView>,
    sel: SelectionView,
    catalog: Map<Seq<char>, ProjectView>,
)
    requires
        forall|i: int| 0 <= i < ops.len() ==> adds_selected(#[trigger] ops[i], sel, catalog),
    ensures
        apply(ops, sel, catalog).0 == sel,
        apply(ops, sel, catalog).1.added.is_empty(),
        apply(ops, sel, catalog).1.removed.is_empty(),
        apply(ops, sel, catalog).1.absent.is_empty(),
        apply(ops, sel, catalog).1.ignored == ops.map_values(|o: OperationView| o.underlying).to_set(),
        !apply(ops, sel, catalog).1.changed(),
    decreases ops.len(),
{
    let us = ops.map_values(|o: OperationView| o.underlying);
    if ops.len() == 0 {
        assert(us.to_set() =~= Set::<UnderlyingView>::empty());
    } else {
        let q = ops.drop_last();
        assert forall|i: int| 0 <= i < q.len() implies adds_selected(#[trigger] q[i], sel, catalog) by {
            assert(q[i] == ops[i]);
        }
        lemma_adding_selected_is_ignored(q, sel, catalog);
        assert(adds_selected(ops[ops.len() - 1], sel, catalog));
        let uq = q.map_values(|o: OperationView| o.underlying);
        assert(us =~= uq.push(ops.last().underlying));
        lemma_push_to_set(uq, ops.last().underlying);
    }
}

/// An operation on a project name that the catalog lacks leaves the selection
/// as it was and reports the name as absent, whatever the action.
pub proof fn lemma_unknown_project_is_absent(
    action: OperationAction,
    name: Seq<char>,
    sel: SelectionView,
    catalog: Map<Seq<char>, ProjectView>,
)
    requires
        !catalog.contains_key(name),
    ensures
        ({
            let op = OperationView { action, underlying: UnderlyingView::Project(name) };
            let r = apply(seq![op], sel, catalog);
            &&& r.0 == sel
            &&& r.1 == OperationResultView::empty().record(
                Outcome::Absent,
                UnderlyingView::Project(name),
            )
            &&& r.1.absent.contains(UnderlyingView::Project(name))
            &&& !r.1.is_success()
        }),
{
    let op = OperationView { action, underlying: UnderlyingView::Project(name) };
    assert(seq![op].drop_last() =~= Seq::<OperationView>::empty());
    assert(apply(Seq::<OperationView>::empty(), sel, catalog) == (sel, OperationResultView::empty()));
    assert(apply(seq![op], sel, catalog).1.absent.contains(UnderlyingView::Project(name)));
}

/// A batch that names a project missing from the catalog is not a success,
/// wherever in the batch that name stands.
pub proof fn lemma_batch_with_unknown_project_fails(
    ops: Seq<OperationView>,
    sel: SelectionView,
    catalog: Map<Seq<char>, ProjectView>,
    i: int,
)
    requires
        0 <= i < ops.len(),
        ops[i].underlying is Project,
        !catalog.contains_key(ops[i].underlying->Project_0),
    ensures
        apply(ops, sel, catalog).1.absent.contains(ops[i].underlying),
        !apply(ops, sel, catalog).1.is_success(),
    decreases ops.len(),
{
    let q = ops.drop_last();
    if i < ops.len() - 1 {
        assert(q[i] == ops[i]);
        lemma_batch_with_unknown_project_fails(q, sel, catalog, i);
    }
    assert(apply(ops, sel, catalog).1.absent.contains(ops[i].underlying));
}

/// Selection reached after replaying the first `i` operations of a stored form.
spec fn replayed(p: PersistedSelectionView, catalog: Map<Seq<char>, ProjectView>, i: int) -> SelectionView {
    let n = p.projects.len() as int;
    if i <= n {
        SelectionView {
            projects: catalog.restrict(p.projects.take(i).to_set()),
            targets: Set::empty(),
        }
    } else {
        SelectionView {
            projects: catalog.restrict(p.projects.to_set()),
            targets: p.targets.take(i - n).to_set(),
        }
    }
}

proof fn lemma_replay_prefix(p: PersistedSelectionView, catalog: Map<Seq<char>, ProjectView>, i: int)
    requires
        0 <= i <= p.projects.len() + p.targets.len(),
        forall|k: int| 0 <= k < p.projects.len() ==> catalog.contains_key(#[trigger] p.projects[k]),
    ensures
        apply(persisted_ops(p).take(i), SelectionView::empty(), catalog).0 == replayed(p, catalog, i),
    decreases i,
{
    let ops = persisted_ops(p);
    let n = p.projects.len() as int;
    if i == 0 {
        assert(ops.take(0) =~= Seq::<OperationView>::empty());
        assert(catalog.restrict(p.projects.take(0).to_set()) =~= Map::<Seq<char>, ProjectView>::empty());
        assert(Seq::<Seq<char>>::empty().to_set() =~= Set::<Seq<char>>::empty());
        assert(p.projects.take(0) =~= Seq::<Seq<char>>::empty());
    } else {
        lemma_replay_prefix(p, catalog, i - 1);
        assert(ops.take(i).drop_last() =~= ops.take(i - 1));
        assert(ops.take(i).last() == ops[i - 1]);
        let prev = replayed(p, catalog, i - 1);
        let cur = replayed(p, catalog, i);
        let after = step(prev, apply(ops.take(i - 1), SelectionView::empty(), catalog).1, ops[i - 1], catalog).0;
        if i <= n {
            let name = p.projects[i - 1];
            assert(p.projects.take(i) =~= p.projects.take(i - 1).push(name));
            lemma_push_to_set(p.projects.take(i - 1), name);
            assert(catalog.contains_key(name));
            assert(after.projects =~= cur.projects);
            assert(after.targets =~= cur.targets);
        } else {
            let t = p.targets[i - 1 - n];
            assert(p.targets.take(i - n) =~= p.targets.take(i - 1 - n).push(t));
            lemma_push_to_set(p.targets.take(i - 1 - n), t);
            if i - 1 == n {
                assert(p.projects.take(n) =~= p.projects);
                assert(p.targets.take(0) =~= Seq::<Seq<char>>::empty());
                assert(Seq::<Seq<char>>::empty().to_set() =~= Set::<Seq<char>>::empty());
            }
            assert(after.projects =~= cur.projects);
            assert(after.targets =~= cur.targets);
        }
    }
}

/// Storing a selection and rebuilding it against the same catalog gives the
/// same selection back, provided its projects are those of the catalog and its
/// targets are coordinates (a stored target that is not one is refused on rebuild).
pub proof fn lemma_round_trip(
    p: PersistedSelectionView,
    s: SelectionView,
    catalog: Map<Seq<char>, ProjectView>,
)
    requires
        persisted_form_of(p, s),
        resolved_in(s, catalog),
        coordinates_only(s),
    ensures
        targets_valid(p),
        apply(persisted_ops(p), SelectionView::empty(), catalog).0 == s,
{
    assert forall|i: int| 0 <= i < p.targets.len() implies is_coordinate(#[trigger] p.targets[i]) by {
        assert(p.targets.to_set().contains(p.targets[i]));
    }
    let len = (p.projects.len() + p.targets.len()) as int;
    assert forall|k: int| 0 <= k < p.projects.len() implies catalog.contains_key(#[trigger] p.projects[k]) by {
        assert(p.projects.to_set().contains(p.projects[k]));
    }
    lemma_replay_prefix(p, catalog, len);
    assert(persisted_ops(p).take(len) =~= persisted_ops(p));
    assert(p.targets.take(p.targets.len() as int) =~= p.targets);
    let r = replayed(p, catalog, len);
    if p.targets.len() == 0 {
        assert(p.projects.take(p.projects.len() as int) =~= p.projects);
        assert(p.targets.to_set() =~= Set::<Seq<char>>::empty());
    }
    assert(r.projects =~= s.projects);
    assert(r.targets =~= s.targets);
}

} // verus!
