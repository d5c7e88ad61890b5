use vstd::prelude::*;

use crate::operation::{
    classify, ops_view, persisted_ops, Operation, OperationAction, OperationResult,
    OperationResultView, OperationView, PersistedSelection, SelectionError,
    targets_valid,
};
use crate::project::{
    find_project, lemma_project_map_at, lemma_project_map_push, names_unique, project_map,
    ProjectView, Projects,
};
use crate::selection::{apply, lemma_round_trip, persisted_form_of, resolved_in, Selection, SelectionView};

verus! {

/// The state a `Selections` manages, as a mathematical value.
pub struct SelectionsView {
    pub selection_path: Seq<char>,
    pub optional: Map<Seq<char>, ProjectView>,
    pub mandatory: Map<Seq<char>, ProjectView>,
    pub selection: SelectionView,
}

impl SelectionsView {
    /// The selected projects are those of the optional catalog.
    pub open spec fn consistent(self) -> bool {
        resolved_in(self.selection, self.optional)
    }
}

/// The user's selection together with the catalogs it is resolved in: the
/// optional catalog, which the user chooses from, and the mandatory catalog,
/// which is always part of the computed selection.
pub struct Selections {
    selection_path: String,
    optional_projects: Projects,
    mandatory_projects: Projects,
    selection: Selection,
}

impl View for Selections {
    type V = SelectionsView;

    closed spec fn view(&self) -> SelectionsView {
        SelectionsView {
            selection_path: self.selection_path@,
            optional: self.optional_projects@,
            mandatory: self.mandatory_projects@,
            selection: self.selection@,
        }
    }
}

/// The selection handed to the materialization step: the user's selection
/// with every mandatory project added. A selected project keeps its own value
/// where both catalogs have the name.
pub open spec fn computed(sel: SelectionView, mandatory: Map<Seq<char>, ProjectView>) -> SelectionView {
    SelectionView { projects: mandatory.union_prefer_right(sel.projects), targets: sel.targets }
}

/// One operation with `action` per string of `values`, classified in order.
pub open spec fn mutation_ops(action: OperationAction, values: Seq<String>) -> Seq<OperationView> {
    Seq::new(values.len(), |i: int| OperationView { action, underlying: classify(values[i]@) })
}

impl Selections {
    pub closed spec fn parts_wf(&self) -> bool {
        &&& self.optional_projects.wf()
        &&& self.mandatory_projects.wf()
        &&& self.selection.wf()
    }

    /// Catalogs are keyed by name, and the selection is resolved in the optional catalog.
    pub open spec fn wf(&self) -> bool {
        self.parts_wf() && self@.consistent()
    }

    /// A `Selections` over the two catalogs, seeded with the stored selection
    /// `persisted` resolved in the optional catalog.
    pub fn new(
        selection_path: String,
        optional_projects: Projects,
        mandatory_projects: Projects,
        persisted: PersistedSelection,
    ) -> (r: Result<Selections, SelectionError>)
        requires
            optional_projects.wf(),
            mandatory_projects.wf(),
        ensures
            r is Ok <==> targets_valid(persisted@),
            r is Err ==> r->Err_0 == SelectionError::InvalidTarget,
            r is Ok ==> ({
                let s = r->Ok_0;
                &&& s.wf()
                &&& s@.selection_path == selection_path@
                &&& s@.optional == optional_projects@
                &&& s@.mandatory == mandatory_projects@
                &&& s@.selection == apply(
                    persisted_ops(persisted@),
                    SelectionView::empty(),
                    optional_projects@,
                ).0
            }),
    {
        let selection = Selection::new();
        let mut instance = Selections {
            selection_path,
            optional_projects,
            mandatory_projects,
            selection,
        };
        proof {
            assert(instance@.selection.projects =~= Map::<Seq<char>, ProjectView>::empty());
        }
        instance.reload(persisted)?;
        Ok(instance)
    }

    /// Replaces the selection with the stored selection `persisted`, resolved in
    /// the optional catalog; names the catalog no longer has are left out. Fails,
    /// changing nothing, when a stored target is not a coordinate.
    pub fn reload(&mut self, persisted: PersistedSelection) -> (r: Result<(), SelectionError>)
        requires
            old(self).wf(),
        ensures
            final(self).wf(),
            r is Ok <==> targets_valid(persisted@),
            r is Err ==> r->Err_0 == SelectionError::InvalidTarget && *final(self) == *old(self),
            r is Ok ==> final(self)@ == (SelectionsView {
                selection: apply(
                    persisted_ops(persisted@),
                    SelectionView::empty(),
                    old(self)@.optional,
                ).0,
                ..old(self)@
            }),
    {
        let selection = Selection::from_persisted_selection(persisted, &self.optional_projects)?;
        proof {
            lemma_apply_resolved(
                persisted_ops(persisted@),
                SelectionView::empty(),
                self.optional_projects@,
            );
        }
        self.selection = selection;
        Ok(())
    }

    /// The stored form of the current selection, for writing to the selection path:
    /// its project names and target coordinates, each list in increasing order.
    /// Reloading it against the same catalog gives the same selection back.
    pub fn save(&self) -> (r: PersistedSelection)
        requires
            self.wf(),
        ensures
            persisted_form_of(r@, self@.selection),
            targets_valid(r@),
            apply(persisted_ops(r@), SelectionView::empty(), self@.optional).0 == self@.selection,
    {
        let r = PersistedSelection::from_selection(&self.selection);
        proof {
            lemma_round_trip(r@, self@.selection, self@.optional);
        }
        r
    }

    /// The user's selection with every mandatory project added.
    pub fn computed_selection(&self) -> (r: Selection)
        requires
            self.wf(),
        ensures
            r.wf(),
            r@ == computed(self@.selection, self@.mandatory),
    {
        let mut selection = self.selection.duplicate();
        let mandatory = &self.mandatory_projects.underlying;
        let ghost sel = self.selection@;
        let mut i: usize = 0;
        while i < mandatory.len()
            invariant
                i <= mandatory@.len(),
                names_unique(mandatory@),
                selection.wf(),
                selection@.targets == sel.targets,
                selection@.projects == project_map(mandatory@.take(i as int)).union_prefer_right(
                    sel.projects,
                ),
            decreases mandatory@.len() - i,
        {
            let project = &mandatory[i];
            let ghost before = mandatory@.take(i as int);
            let ghost after = mandatory@.take(i + 1);
            proof {
                assert(after =~= before.push(*project));
                assert(names_unique(before));
                assert(!crate::project::has_name(before, project.name@)) by {
                    if crate::project::has_name(before, project.name@) {
                        let a = choose|a: int| 0 <= a < before.len() && before[a].name@ == project.name@;
                        assert(mandatory@[a].name@ == mandatory@[i as int].name@);
                    }
                }
                lemma_project_map_push(before, *project);
            }
            match find_project(&selection.projects, &project.name) {
                Some(k) => {
                    proof {
                        lemma_project_map_at(selection.projects@, k as int);
                        assert(project_map(after).union_prefer_right(sel.projects) =~= project_map(
                            before,
                        ).union_prefer_right(sel.projects));
                    }
                },
                None => {
                    let p = project.duplicate();
                    proof {
                        lemma_project_map_push(selection.projects@, p);
                        assert(p.name@ == project.name@);
                        assert(!selection@.projects.contains_key(p.name@));
                        assert(!sel.projects.contains_key(p.name@));
                        assert(project_map(after).union_prefer_right(sel.projects) =~= project_map(
                            before,
                        ).union_prefer_right(sel.projects).insert(p.name@, p@));
                    }
                    selection.projects.push(p);
                },
            }
            i = i + 1;
        }
        proof {
            assert(mandatory@.take(mandatory@.len() as int) =~= mandatory@);
        }
        selection
    }

    /// Applies `operations` to a copy of the selection, resolving names in the
    /// optional catalog, and keeps the copy only if every name was resolved. On
    /// failure nothing changes.
    pub fn process(&mut self, operations: &Vec<Operation>) -> (r: OperationResult)
        requires
            old(self).wf(),
        ensures
            final(self).wf(),
            r@ == apply(ops_view(operations@), old(self)@.selection, old(self)@.optional).1,
            r@.is_success() ==> final(self)@ == (SelectionsView {
                selection: apply(ops_view(operations@), old(self)@.selection, old(self)@.optional).0,
                ..old(self)@
            }),
            !r@.is_success() ==> *final(self) == *old(self),
    {
        let mut selection = self.selection.duplicate();
        let result = selection.apply_operations(operations, &self.optional_projects);
        if result.is_success() {
            proof {
                lemma_apply_resolved(ops_view(operations@), self.selection@, self.optional_projects@);
            }
            self.selection = selection;
        }
        result
    }

    /// Applies `action` to every project name or target coordinate of
    /// `projects_and_targets` as one batch, and returns whether anything changed.
    /// Fails, changing nothing, when some project name is not in the optional catalog.
    pub fn mutate(&mut self, action: OperationAction, projects_and_targets: &Vec<String>) -> (r:
        Result<bool, SelectionError>)
        requires
            old(self).wf(),
        ensures
            final(self).wf(),
            ({
                let res = apply(
                    mutation_ops(action, projects_and_targets@),
                    old(self)@.selection,
                    old(self)@.optional,
                );
                &&& res.1.is_success() ==> r == Ok::<bool, SelectionError>(res.1.changed())
                    && final(self)@ == (SelectionsView { selection: res.0, ..old(self)@ })
                &&& !res.1.is_success() ==> r == Err::<bool, SelectionError>(
                    SelectionError::UnresolvedReference,
                ) && *final(self) == *old(self)
            }),
    {
        let mut operations: Vec<Operation> = Vec::new();
        let mut i: usize = 0;
        while i < projects_and_targets.len()
            invariant
                i <= projects_and_targets@.len(),
                operations@.len() == i,
                forall|k: int|
                    0 <= k < i ==> #[trigger] operations@[k]@ == mutation_ops(
                        action,
                        projects_and_targets@,
                    )[k],
            decreases projects_and_targets@.len() - i,
        {
            operations.push(Operation::new(action, projects_and_targets[i].clone()));
            i = i + 1;
        }
        proof {
            assert(ops_view(operations@) =~= mutation_ops(action, projects_and_targets@));
        }
        let result = self.process(&operations);
        if !result.is_success() {
            return Err(SelectionError::UnresolvedReference);
        }
        Ok(result.changed())
    }

    /// Where the selection is stored.
    pub fn selection_path(&self) -> (r: &String)
        ensures
            r@ == self@.selection_path,
    {
        &self.selection_path
    }

    /// The catalog the user chooses projects from.
    pub fn optional_projects(&self) -> (r: &Projects)
        requires
            self.wf(),
        ensures
            r.wf(),
            r@ == self@.optional,
    {
        &self.optional_projects
    }

    /// The catalog of projects that are always part of the computed selection.
    pub fn mandatory_projects(&self) -> (r: &Projects)
        requires
            self.wf(),
        ensures
            r.wf(),
            r@ == self@.mandatory,
    {
        &self.mandatory_projects
    }

    /// The user's selection, without the mandatory projects.
    pub fn selection(&self) -> (r: &Selection)
        requires
            self.wf(),
        ensures
            r.wf(),
            r@ == self@.selection,
    {
        &self.selection
    }
}

/// Applying operations against a catalog keeps a selection resolved in it.
pub proof fn lemma_apply_resolved(
    ops: Seq<OperationView>,
    sel: SelectionView,
    catalog: Map<Seq<char>, ProjectView>,
)
    requires
        resolved_in(sel, catalog),
    ensures
        resolved_in(apply(ops, sel, catalog).0, catalog),
    decreases ops.len(),
{
    if ops.len() > 0 {
        lemma_apply_resolved(ops.drop_last(), sel, catalog);
    }
}

/// Every mandatory project is in the computed selection, whatever the user selected.
pub proof fn lemma_computed_has_mandatory(sel: SelectionView, mandatory: Map<Seq<char>, ProjectView>)
    ensures
        forall|k: Seq<char>| #[trigger]
            mandatory.contains_key(k) ==> computed(sel, mandatory).projects.contains_key(k),
        mandatory.dom().subset_of(computed(sel, mandatory).projects.dom()),
        sel.projects.dom().subset_of(computed(sel, mandatory).projects.dom()),
        computed(sel, mandatory).targets == sel.targets,
{
}

} // verus!
