use focus_selection::operation::{
    Operation, OperationAction, OperationResult, PersistedSelection,
    SelectionError, Underlying,
};
use focus_selection::project::{Project, Projects};
use focus_selection::selection::{Selection, SelectionOperationProcessor};
use focus_selection::selections::Selections;
use focus_selection::target::{is_target_coordinate, Target};

fn target(s: &str) -> Target {
    Target::parse(s.to_string()).unwrap()
}

fn project(name: &str, targets: &[&str]) -> Project {
    Project::new(
        name.to_string(),
        format!("the {} project", name),
        false,
        targets.iter().map(|t| target(t)).collect(),
    )
}

fn catalog(projects: Vec<Project>) -> Projects {
    let mut c = Projects::new();
    for p in projects {
        assert!(c.insert(p));
    }
    c
}

fn optional_catalog() -> Projects {
    catalog(vec![
        project("web", &["bazel://web:t1", "bazel://web:t2"]),
        project("infra", &["bazel://infra:t3"]),
    ])
}

fn mandatory_catalog() -> Projects {
    let mut core = project("core", &["bazel://core:t4"]);
    core.mandatory = true;
    catalog(vec![core])
}

fn empty_persisted() -> PersistedSelection {
    PersistedSelection { projects: vec![], targets: vec![] }
}

fn fresh() -> Selections {
    Selections::new(
        "selection.json".to_string(),
        optional_catalog(),
        mandatory_catalog(),
        empty_persisted(),
    )
    .unwrap()
}

fn names(v: &[Underlying]) -> Vec<String> {
    let mut out: Vec<String> = v
        .iter()
        .map(|u| match u {
            Underlying::Project(n) => format!("project:{}", n),
            Underlying::Target(t) => format!("target:{}", t.coordinate()),
        })
        .collect();
    out.sort();
    out
}

fn project_names(s: &Selection) -> Vec<String> {
    let mut out: Vec<String> = s.projects.iter().map(|p| p.name.clone()).collect();
    out.sort();
    out
}

fn target_names(s: &Selection) -> Vec<String> {
    let mut out: Vec<String> = s.targets.iter().map(|t| t.coordinate().clone()).collect();
    out.sort();
    out
}

fn strings(v: &[&str]) -> Vec<String> {
    v.iter().map(|s| s.to_string()).collect()
}

fn add_project(name: &str) -> Operation {
    Operation { action: OperationAction::Add, underlying: Underlying::Project(name.to_string()) }
}

#[test]
fn scenario_web_infra_ghost() {
    let mut s = fresh();
    let r = s.process(&vec![add_project("web")]);
    assert_eq!(names(&r.added), strings(&["project:web"]));
    assert!(r.changed());
    assert!(r.is_success());
    let computed = s.computed_selection();
    assert_eq!(project_names(&computed), strings(&["core", "web"]));
    let web = computed.projects.iter().find(|p| p.name == "web").unwrap();
    assert_eq!(web.targets.len(), 2);
    let core = computed.projects.iter().find(|p| p.name == "core").unwrap();
    assert_eq!(core.targets[0].coordinate(), "bazel://core:t4");

    let r = s.process(&vec![Operation::new(OperationAction::Remove, "infra".to_string())]);
    assert!(r.removed.is_empty());
    assert_eq!(names(&r.ignored), strings(&["project:infra"]));
    assert!(!r.changed());

    let r = s.process(&vec![add_project("ghost")]);
    assert_eq!(names(&r.absent), strings(&["project:ghost"]));
    assert!(!r.is_success());
    assert_eq!(project_names(s.selection()), strings(&["web"]));
}

#[test]
fn scenario_through_mutate() {
    let mut s = fresh();
    assert_eq!(s.mutate(OperationAction::Add, &strings(&["web"])), Ok(true));
    assert_eq!(s.mutate(OperationAction::Remove, &strings(&["infra"])), Ok(false));
    assert_eq!(
        s.mutate(OperationAction::Add, &strings(&["ghost"])),
        Err(SelectionError::UnresolvedReference)
    );
    assert_eq!(project_names(s.selection()), strings(&["web"]));
}

#[test]
fn adding_selected_project_is_ignored() {
    let mut s = fresh();
    assert_eq!(s.mutate(OperationAction::Add, &strings(&["web"])), Ok(true));
    let r = s.process(&vec![add_project("web")]);
    assert!(r.added.is_empty());
    assert_eq!(names(&r.ignored), strings(&["project:web"]));
    assert!(!r.changed());
    assert!(r.is_success());
    assert_eq!(project_names(s.selection()), strings(&["web"]));
    assert_eq!(s.mutate(OperationAction::Add, &strings(&["web"])), Ok(false));
}

#[test]
fn adding_unknown_project_is_absent_and_changes_nothing() {
    let mut s = fresh();
    assert_eq!(s.mutate(OperationAction::Add, &strings(&["web", "bazel://x:y"])), Ok(true));
    let before = s.save();
    let r = s.process(&vec![add_project("nonexistent-project")]);
    assert_eq!(names(&r.absent), strings(&["project:nonexistent-project"]));
    assert!(!r.is_success());
    let after = s.save();
    assert_eq!(before.projects, after.projects);
    assert_eq!(before.targets, after.targets);
}

#[test]
fn batch_with_unknown_project_is_rejected_whole() {
    let mut s = fresh();
    let r = s.process(&vec![add_project("web"), add_project("B")]);
    assert_eq!(names(&r.added), strings(&["project:web"]));
    assert_eq!(names(&r.absent), strings(&["project:B"]));
    assert!(!r.is_success());
    assert!(s.selection().projects.is_empty());
    assert_eq!(
        s.mutate(OperationAction::Add, &strings(&["web", "B"])),
        Err(SelectionError::UnresolvedReference)
    );
    assert!(s.selection().projects.is_empty());
}

#[test]
fn computed_selection_holds_every_mandatory_project() {
    let s = fresh();
    let computed = s.computed_selection();
    assert_eq!(project_names(&computed), strings(&["core"]));
    assert!(s.selection().projects.is_empty());
}

#[test]
fn removing_mandatory_only_project_is_absent() {
    let mut s = fresh();
    assert_eq!(
        s.mutate(OperationAction::Remove, &strings(&["core"])),
        Err(SelectionError::UnresolvedReference)
    );
    let r = s.process(&vec![Operation::new(OperationAction::Remove, "core".to_string())]);
    assert_eq!(names(&r.absent), strings(&["project:core"]));
    assert_eq!(project_names(&s.computed_selection()), strings(&["core"]));
}

#[test]
fn save_then_reload_gives_same_selection() {
    let mut s = fresh();
    assert_eq!(
        s.mutate(OperationAction::Add, &strings(&["infra", "web", "directory:docs", "bazel://a:b"])),
        Ok(true)
    );
    let before = s.selection().clone();
    let stored = s.save();
    assert_eq!(stored.projects, strings(&["infra", "web"]));
    assert_eq!(stored.targets, strings(&["bazel://a:b", "directory:docs"]));
    assert_eq!(s.reload(stored.clone()), Ok(()));
    assert_eq!(project_names(s.selection()), project_names(&before));
    assert_eq!(target_names(s.selection()), target_names(&before));
    let again = s.save();
    assert_eq!(again.projects, stored.projects);
    assert_eq!(again.targets, stored.targets);
}

#[test]
fn reload_drops_projects_missing_from_catalog() {
    let persisted = PersistedSelection {
        projects: strings(&["web", "retired"]),
        targets: strings(&["bazel://a:b"]),
    };
    let s = Selections::new(
        "selection.json".to_string(),
        optional_catalog(),
        mandatory_catalog(),
        persisted,
    )
    .unwrap();
    assert_eq!(project_names(s.selection()), strings(&["web"]));
    assert_eq!(target_names(s.selection()), strings(&["bazel://a:b"]));
    assert_eq!(s.selection_path(), "selection.json");
}

#[test]
fn persisted_selection_becomes_add_operations() {
    let persisted = PersistedSelection {
        projects: strings(&["web"]),
        targets: strings(&["bazel://a:b", "directory:x"]),
    };
    let ops = persisted.to_operations().unwrap();
    assert_eq!(ops.len(), 3);
    assert!(ops.iter().all(|o| o.action == OperationAction::Add));
    assert!(matches!(&ops[0].underlying, Underlying::Project(n) if n == "web"));
    assert!(matches!(&ops[2].underlying, Underlying::Target(t) if t.coordinate() == "directory:x"));
    let s = Selection::from_persisted_selection(persisted, &optional_catalog()).unwrap();
    assert_eq!(project_names(&s), strings(&["web"]));
    assert_eq!(target_names(&s), strings(&["bazel://a:b", "directory:x"]));
}

#[test]
fn targets_are_added_and_removed() {
    let mut sel = Selection::new();
    let projects = optional_catalog();
    let processor = SelectionOperationProcessor { projects: &projects };
    let ops = vec![
        Operation::new(OperationAction::Add, "bazel://a:b".to_string()),
        Operation::new(OperationAction::Add, "bazel://a:b".to_string()),
        Operation::new(OperationAction::Remove, "directory:x".to_string()),
    ];
    let r = processor.process(&mut sel, &ops);
    assert_eq!(names(&r.added), strings(&["target:bazel://a:b"]));
    assert_eq!(names(&r.ignored), strings(&["target:bazel://a:b", "target:directory:x"]));
    assert_eq!(target_names(&sel), strings(&["bazel://a:b"]));
    let r = sel.apply_operations(
        &vec![Operation::new(OperationAction::Remove, "bazel://a:b".to_string())],
        &projects,
    );
    assert_eq!(names(&r.removed), strings(&["target:bazel://a:b"]));
    assert!(r.changed());
    assert!(sel.targets.is_empty());
}

#[test]
fn selected_project_is_removed() {
    let mut s = fresh();
    assert_eq!(s.mutate(OperationAction::Add, &strings(&["web", "infra"])), Ok(true));
    assert_eq!(s.mutate(OperationAction::Remove, &strings(&["web"])), Ok(true));
    assert_eq!(project_names(s.selection()), strings(&["infra"]));
    assert_eq!(s.save().projects, strings(&["infra"]));
}

#[test]
fn add_then_remove_in_one_batch_nets_per_step() {
    let mut s = fresh();
    let r = s.process(&vec![
        add_project("web"),
        Operation::new(OperationAction::Remove, "web".to_string()),
    ]);
    assert_eq!(names(&r.added), strings(&["project:web"]));
    assert_eq!(names(&r.removed), strings(&["project:web"]));
    assert!(r.changed());
    assert!(s.selection().projects.is_empty());
}

#[test]
fn strings_with_a_known_scheme_are_targets() {
    assert!(is_target_coordinate(&"bazel://foo:bar".to_string()));
    assert!(is_target_coordinate(&"directory:src/x".to_string()));
    assert!(is_target_coordinate(&"pants:a".to_string()));
    assert!(!is_target_coordinate(&"web".to_string()));
    assert!(!is_target_coordinate(&"bazel".to_string()));
    assert!(!is_target_coordinate(&"http://x".to_string()));
    assert!(!is_target_coordinate(&"".to_string()));
    assert!(matches!(Underlying::classify("web".to_string()), Underlying::Project(n) if n == "web"));
}

#[test]
fn catalog_keeps_first_project_of_a_name() {
    let mut c = Projects::new();
    assert!(c.insert(project("web", &["bazel://a:1"])));
    assert!(!c.insert(project("web", &[])));
    assert_eq!(c.len(), 1);
    assert_eq!(c.get(&"web".to_string()).unwrap().targets.len(), 1);
    assert!(c.get(&"infra".to_string()).is_none());
}

#[test]
fn empty_batch_changes_nothing() {
    let mut s = fresh();
    let r = s.process(&vec![]);
    assert!(r.is_success());
    assert!(!r.changed());
    assert_eq!(s.mutate(OperationAction::Add, &vec![]), Ok(false));
    let fresh_result = OperationResult::new();
    assert!(fresh_result.is_success());
    assert!(!fresh_result.changed());
}

#[test]
fn result_notes_each_reference_once() {
    let mut s = fresh();
    let r = s.process(&vec![add_project("ghost"), add_project("ghost")]);
    assert_eq!(r.absent.len(), 1);
    assert!(!r.is_success());
}

#[test]
fn all_targets_joins_own_and_project_targets() {
    let mut s = fresh();
    assert_eq!(s.mutate(OperationAction::Add, &strings(&["web", "bazel://web:t1", "directory:x"])), Ok(true));
    let computed = s.computed_selection();
    let mut all: Vec<String> = computed.all_targets().iter().map(|t| t.coordinate().clone()).collect();
    all.sort();
    assert_eq!(
        all,
        strings(&["bazel://core:t4", "bazel://web:t1", "bazel://web:t2", "directory:x"])
    );
    assert!(Selection::new().all_targets().is_empty());
}

#[test]
fn defaults_are_empty() {
    let s = Selection::default();
    assert!(s.projects.is_empty() && s.targets.is_empty());
    let r = OperationResult::default();
    assert!(r.is_success() && !r.changed());
}

#[test]
fn stored_target_that_is_not_a_coordinate_is_refused() {
    let bad = PersistedSelection { projects: strings(&["web"]), targets: strings(&["not-a-coordinate"]) };
    assert!(matches!(bad.to_operations(), Err(SelectionError::InvalidTarget)));
    assert!(matches!(
        Selection::from_persisted_selection(bad.clone(), &optional_catalog()),
        Err(SelectionError::InvalidTarget)
    ));
    assert!(matches!(
        Selections::new("p".to_string(), optional_catalog(), mandatory_catalog(), bad.clone()),
        Err(SelectionError::InvalidTarget)
    ));
    let mut s = fresh();
    assert_eq!(s.mutate(OperationAction::Add, &strings(&["web"])), Ok(true));
    assert_eq!(s.reload(bad), Err(SelectionError::InvalidTarget));
    assert_eq!(project_names(s.selection()), strings(&["web"]));
    let unknown_only = PersistedSelection { projects: strings(&["retired"]), targets: vec![] };
    assert!(Selection::from_persisted_selection(unknown_only, &optional_catalog()).is_ok());
}

#[test]
fn saving_is_stable_across_a_failed_change() {
    let mut s = fresh();
    assert_eq!(s.mutate(OperationAction::Add, &strings(&["web", "infra", "directory:a"])), Ok(true));
    let first = s.save();
    let second = s.save();
    assert_eq!(first.projects, second.projects);
    assert_eq!(first.targets, second.targets);
    assert_eq!(
        s.mutate(OperationAction::Add, &strings(&["nonexistent-project"])),
        Err(SelectionError::UnresolvedReference)
    );
    let third = s.save();
    assert_eq!(first.projects, third.projects);
    assert_eq!(first.targets, third.targets);
    assert_eq!(first.projects, strings(&["infra", "web"]));
    assert_eq!(first.targets, strings(&["directory:a"]));
}

#[test]
fn stored_lists_are_sorted_whatever_the_selection_order() {
    let mut a = fresh();
    assert_eq!(a.mutate(OperationAction::Add, &strings(&["web", "infra", "pants:z", "bazel://b:c", "bazel://a:b"])), Ok(true));
    let mut b = fresh();
    assert_eq!(b.mutate(OperationAction::Add, &strings(&["bazel://a:b", "infra", "pants:z", "web", "bazel://b:c"])), Ok(true));
    let sa = a.save();
    let sb = b.save();
    assert_eq!(sa.projects, strings(&["infra", "web"]));
    assert_eq!(sa.targets, strings(&["bazel://a:b", "bazel://b:c", "pants:z"]));
    assert_eq!(sa.projects, sb.projects);
    assert_eq!(sa.targets, sb.targets);
}

#[test]
fn targets_must_be_coordinates() {
    assert!(Target::parse("foo".to_string()).is_none());
    let t = Target::parse("directory:x".to_string()).unwrap();
    assert_eq!(t.coordinate(), "directory:x");
    assert_eq!(t.clone().coordinate(), "directory:x");
}

#[test]
fn save_then_reload_of_mixed_selection_round_trips() {
    let mut s = fresh();
    assert_eq!(s.mutate(OperationAction::Add, &strings(&["web", "pants:q", "directory:d"])), Ok(true));
    let stored = s.save();
    let mut other = Selections::new("x".to_string(), optional_catalog(), mandatory_catalog(), stored.clone()).unwrap();
    assert_eq!(project_names(other.selection()), strings(&["web"]));
    assert_eq!(target_names(other.selection()), strings(&["directory:d", "pants:q"]));
    assert_eq!(other.reload(stored.clone()), Ok(()));
    assert_eq!(other.save().projects, stored.projects);
    assert_eq!(other.save().targets, stored.targets);
}
