use vstd::prelude::*;

use crate::target::{is_coordinate, is_target_coordinate, lemma_view_set_push, view_set, Target};

verus! {

/// Why a selection could not be changed or rebuilt.
#[derive(Clone, Copy, Debug, PartialEq, Eq, Structural)]
pub enum SelectionError {
    /// Some project name of the batch is not in the optional catalog; nothing was changed.
    UnresolvedReference,
    /// A stored target is not a coordinate.
    InvalidTarget,
}

/// What an operation does to the selection.
#[derive(Clone, Copy, Debug, PartialEq, Eq, Structural)]
pub enum OperationAction {
    Add,
    Remove,
}

/// A reference to a selectable entity, as a mathematical value.
pub enum UnderlyingView {
    Project(Seq<char>),
    Target(Seq<char>),
}

/// A reference to a selectable entity: a project by name, or a target.
#[derive(Clone, Debug)]
pub enum Underlying {
    Project(String),
    Target(Target),
}

impl View for Underlying {
    type V = UnderlyingView;

    open spec fn view(&self) -> UnderlyingView {
        match self {
            Underlying::Project(n) => UnderlyingView::Project(n@),
            Underlying::Target(t) => UnderlyingView::Target(t@),
        }
    }
}

/// The reference that a string stands for: a target if it is a coordinate,
/// a project name otherwise.
pub open spec fn classify(s: Seq<char>) -> UnderlyingView {
    if is_coordinate(s) {
        UnderlyingView::Target(s)
    } else {
        UnderlyingView::Project(s)
    }
}

impl Underlying {
    /// The reference that `value` stands for.
    pub fn classify(value: String) -> (r: Underlying)
        ensures
            r@ == classify(value@),
    {
        if is_target_coordinate(&value) {
            Underlying::Target(Target::new(value))
        } else {
            Underlying::Project(value)
        }
    }

    /// Whether two references name the same entity.
    pub fn same(&self, other: &Underlying) -> (r: bool)
        ensures
            r == (self@ == other@),
    {
        match (self, other) {
            (Underlying::Project(a), Underlying::Project(b)) => *a == *b,
            (Underlying::Target(a), Underlying::Target(b)) => a.same(b),
            _ => false,
        }
    }

    /// A copy of this reference.
    pub fn duplicate(&self) -> (r: Underlying)
        ensures
            r@ == self@,
    {
        match self {
            Underlying::Project(n) => Underlying::Project(n.clone()),
            Underlying::Target(t) => Underlying::Target(t.duplicate()),
        }
    }
}

/// A requested change, as a mathematical value.
pub struct OperationView {
    pub action: OperationAction,
    pub underlying: UnderlyingView,
}

/// One requested change: an action applied to a reference.
#[derive(Clone, Debug)]
pub struct Operation {
    pub action: OperationAction,
    pub underlying: Underlying,
}

impl View for Operation {
    type V = OperationView;

    open spec fn view(&self) -> OperationView {
        OperationView { action: self.action, underlying: self.underlying@ }
    }
}

/// The views of a sequence of operations.
pub open spec fn ops_view(ops: Seq<Operation>) -> Seq<OperationView> {
    ops.map_values(|o: Operation| o@)
}

impl Operation {
    /// The operation that applies `action` to the entity that `value` names.
    pub fn new(action: OperationAction, value: String) -> (r: Operation)
        ensures
            r@ == (OperationView { action, underlying: classify(value@) }),
    {
        Operation { action, underlying: Underlying::classify(value) }
    }
}

/// The outcome of one operation.
pub enum Outcome {
    Added,
    Removed,
    Ignored,
    Absent,
}

/// The outcome of a batch, as four sets of references.
pub struct OperationResultView {
    pub added: Set<UnderlyingView>,
    pub removed: Set<UnderlyingView>,
    pub ignored: Set<UnderlyingView>,
    pub absent: Set<UnderlyingView>,
}

impl OperationResultView {
    pub open spec fn empty() -> OperationResultView {
        OperationResultView {
            added: Set::empty(),
            removed: Set::empty(),
            ignored: Set::empty(),
            absent: Set::empty(),
        }
    }

    /// `self` with `u` noted under `o`.
    pub open spec fn record(self, o: Outcome, u: UnderlyingView) -> OperationResultView {
        match o {
            Outcome::Added => OperationResultView { added: self.added.insert(u), ..self },
            Outcome::Removed => OperationResultView { removed: self.removed.insert(u), ..self },
            Outcome::Ignored => OperationResultView { ignored: self.ignored.insert(u), ..self },
            Outcome::Absent => OperationResultView { absent: self.absent.insert(u), ..self },
        }
    }

    /// Every reference was resolved.
    pub open spec fn is_success(self) -> bool {
        self.absent.is_empty()
    }

    /// Something was added or removed.
    pub open spec fn changed(self) -> bool {
        !self.added.is_empty() || !self.removed.is_empty()
    }
}

/// The references held by `v`.
pub open spec fn underlying_set(v: Seq<Underlying>) -> Set<UnderlyingView> {
    view_set(v)
}

/// Appends `u` to `v` unless it is there already.
fn note(v: &mut Vec<Underlying>, u: &Underlying)
    ensures
        underlying_set(final(v)@) == underlying_set(old(v)@).insert(u@),
{
    let mut i: usize = 0;
    while i < v.len()
        invariant
            i <= v@.len(),
            forall|k: int| 0 <= k < i ==> v@[k]@ != u@,
        decreases v@.len() - i,
    {
        if v[i].same(u) {
            assert(underlying_set(v@).contains(u@));
            assert(underlying_set(v@) =~= underlying_set(v@).insert(u@));
            return;
        }
        i = i + 1;
    }
    let ghost before = v@;
    let d = u.duplicate();
    proof {
        lemma_view_set_push(before, d);
    }
    v.push(d);
}

fn is_empty_vec(v: &Vec<Underlying>) -> (r: bool)
    ensures
        r == underlying_set(v@).is_empty(),
{
    if v.len() == 0 {
        assert(underlying_set(v@) =~= Set::<UnderlyingView>::empty());
        true
    } else {
        assert(underlying_set(v@).contains(v@[0]@));
        false
    }
}

/// The outcome of a batch: each reference, noted once under what happened to it.
#[derive(Clone, Debug)]
pub struct OperationResult {
    pub added: Vec<Underlying>,
    pub removed: Vec<Underlying>,
    pub ignored: Vec<Underlying>,
    pub absent: Vec<Underlying>,
}

impl View for OperationResult {
    type V = OperationResultView;

    open spec fn view(&self) -> OperationResultView {
        OperationResultView {
            added: underlying_set(self.added@),
            removed: underlying_set(self.removed@),
            ignored: underlying_set(self.ignored@),
            absent: underlying_set(self.absent@),
        }
    }
}

impl OperationResult {
    /// A result with nothing noted.
    pub fn new() -> (r: OperationResult)
        ensures
            r@ == OperationResultView::empty(),
    {
        let r = OperationResult {
            added: Vec::new(),
            removed: Vec::new(),
            ignored: Vec::new(),
            absent: Vec::new(),
        };
        assert(underlying_set(r.added@) =~= Set::<UnderlyingView>::empty());
        r
    }

    /// Notes `u` under `o`.
    pub fn record(&mut self, o: Outcome, u: &Underlying)
        ensures
            final(self)@ == old(self)@.record(o, u@),
    {
        match o {
            Outcome::Added => note(&mut self.added, u),
            Outcome::Removed => note(&mut self.removed, u),
            Outcome::Ignored => note(&mut self.ignored, u),
            Outcome::Absent => note(&mut self.absent, u),
        }
    }

    /// Whether every reference in the batch was resolved.
    pub fn is_success(&self) -> (r: bool)
        ensures
            r == self@.is_success(),
    {
        is_empty_vec(&self.absent)
    }

    /// Whether the batch added or removed anything.
    pub fn changed(&self) -> (r: bool)
        ensures
            r == self@.changed(),
    {
        !is_empty_vec(&self.added) || !is_empty_vec(&self.removed)
    }
}

impl Default for OperationResult {
    fn default() -> (r: OperationResult)
        ensures
            r@ == OperationResultView::empty(),
    {
        OperationResult::new()
    }
}

/// The stored form of a selection, as a mathematical value.
pub struct PersistedSelectionView {
    pub projects: Seq<Seq<char>>,
    pub targets: Seq<Seq<char>>,
}

/// The stored form of a selection: project names and target coordinates, in order.
#[derive(Clone, Debug)]
pub struct PersistedSelection {
    pub projects: Vec<String>,
    pub targets: Vec<String>,
}

impl View for PersistedSelection {
    type V = PersistedSelectionView;

    open spec fn view(&self) -> PersistedSelectionView {
        PersistedSelectionView {
            projects: self.projects@.map_values(|s: String| s@),
            targets: self.targets@.map_values(|s: String| s@),
        }
    }
}

/// One `Add` per listed project, then one per listed target, in order.
pub open spec fn persisted_ops(p: PersistedSelectionView) -> Seq<OperationView> {
    Seq::new(
        p.projects.len() + p.targets.len(),
        |i: int|
            if i < p.projects.len() {
                OperationView {
                    action: OperationAction::Add,
                    underlying: UnderlyingView::Project(p.projects[i]),
                }
            } else {
                OperationView {
                    action: OperationAction::Add,
                    underlying: UnderlyingView::Target(p.targets[i - p.projects.len()]),
                }
            },
    )
}

/// Every stored target is a coordinate.
pub open spec fn targets_valid(p: PersistedSelectionView) -> bool {
    forall|i: int| 0 <= i < p.targets.len() ==> is_coordinate(#[trigger] p.targets[i])
}

impl PersistedSelection {
    /// The operations that rebuild this selection from an empty one; fails when a
    /// stored target is not a coordinate.
    pub fn to_operations(&self) -> (r: Result<Vec<Operation>, SelectionError>)
        ensures
            r is Ok <==> targets_valid(self@),
            r is Ok ==> ops_view(r->Ok_0@) == persisted_ops(self@),
            r is Err ==> r->Err_0 == SelectionError::InvalidTarget,
    {
        let mut ops: Vec<Operation> = Vec::new();
        let mut i: usize = 0;
        while i < self.projects.len()
            invariant
                i <= self.projects@.len(),
                ops@.len() == i,
                forall|k: int|
                    0 <= k < i ==> #[trigger] ops@[k]@ == persisted_ops(self@)[k],
            decreases self.projects@.len() - i,
        {
            let op = Operation {
                action: OperationAction::Add,
                underlying: Underlying::Project(self.projects[i].clone()),
            };
            ops.push(op);
            i = i + 1;
        }
        let n = self.projects.len();
        let mut j: usize = 0;
        while j < self.targets.len()
            invariant
                n == self.projects@.len(),
                j <= self.targets@.len(),
                ops@.len() == n + j,
                forall|k: int|
                    0 <= k < n + j ==> #[trigger] ops@[k]@ == persisted_ops(self@)[k],
                forall|k: int| 0 <= k < j ==> is_coordinate(#[trigger] self@.targets[k]),
            decreases self.targets@.len() - j,
        {
            assert(self@.targets[j as int] == self.targets@[j as int]@);
            if !is_target_coordinate(&self.targets[j]) {
                assert(!targets_valid(self@));
                return Err(SelectionError::InvalidTarget);
            }
            let op = Operation {
                action: OperationAction::Add,
                underlying: Underlying::Target(Target::new(self.targets[j].clone())),
            };
            ops.push(op);
            j = j + 1;
        }
        assert(ops_view(ops@) =~= persisted_ops(self@));
        Ok(ops)
    }
}

} // verus!
