use dependency_groups::flatten::RawGroups;
use dependency_groups::lower::{LoweringRequest, LoweringStep, SourcedDependencyGroups};
use dependency_groups::model::{
    GroupEntry, LoweringError, MetadataError, Requirement, RequirementSpec, SourceKind,
    SourceOverride, SourceScope, SourceStrategy,
};
use dependency_groups::names::{GroupName, PackageName};
use dependency_groups::project::VirtualProject;
use dependency_groups::validate::SourceOverrideTable;

fn group(name: &str) -> GroupName {
    GroupName::new(name).expect("a valid group name")
}

fn package(name: &str) -> PackageName {
    PackageName::new(name).expect("a valid package name")
}

fn spec(name: &str) -> RequirementSpec {
    RequirementSpec { name: package(name), constraints: String::new(), source_hint: None }
}

fn plain(name: &str) -> Requirement {
    Requirement {
        name: package(name),
        constraints: String::new(),
        source: SourceKind::Registry,
        location: String::new(),
    }
}

fn from_path(name: &str, path: &str) -> Requirement {
    Requirement {
        name: package(name),
        constraints: String::new(),
        source: SourceKind::Path,
        location: path.to_string(),
    }
}

fn requirement(name: &str) -> GroupEntry {
    GroupEntry::Requirement(spec(name))
}

fn inclusion(name: &str) -> GroupEntry {
    GroupEntry::IncludeGroup(group(name))
}

fn path_source(scope: SourceScope, path: &str) -> SourceOverride {
    SourceOverride { scope, kind: SourceKind::Path, target: path.to_string() }
}

fn project(
    groups: Vec<(&str, Vec<GroupEntry>)>,
    dev: Option<Vec<&str>>,
    sources: Vec<(&str, Vec<SourceOverride>)>,
) -> VirtualProject {
    let mut dependency_groups = RawGroups::new();
    for (name, entries) in groups {
        dependency_groups.insert(group(name), entries);
    }
    let mut table = SourceOverrideTable::new();
    for (name, list) in sources {
        table.insert(package(name), list);
    }
    VirtualProject {
        name: Some(package("project")),
        dependency_groups,
        dev_dependencies: dev.map(|list| list.into_iter().map(spec).collect()),
        sources: table,
    }
}

/// The source that a request asks for; a source with an empty target fails.
fn lower_requirement(request: &LoweringRequest) -> Result<Requirement, LoweringError> {
    if request.source.target.is_empty() {
        Err(LoweringError { message: "unresolvable".to_string() })
    } else {
        Ok(from_path(request.requirement.name.as_str(), &request.source.target))
    }
}

/// Resolves a project at once.
fn resolve(
    project: VirtualProject,
    strategy: SourceStrategy,
) -> Result<SourcedDependencyGroups, MetadataError> {
    SourcedDependencyGroups::from_virtual_project(project, strategy, lower_requirement)
}

/// Resolves a project step by step.
fn resolve_in_steps(
    project: VirtualProject,
    strategy: SourceStrategy,
) -> Result<SourcedDependencyGroups, MetadataError> {
    let mut step = SourcedDependencyGroups::begin_virtual_project(project, strategy)?;
    loop {
        match step {
            LoweringStep::Done(groups) => return Ok(groups),
            LoweringStep::Pending(pending) => {
                let outcome = lower_requirement(pending.request());
                step = pending.supply(outcome)?;
            }
        }
    }
}

fn sample(dev: Option<Vec<&str>>, last_target: &str) -> VirtualProject {
    project(
        vec![
            ("test", vec![inclusion("base"), requirement("a")]),
            ("base", vec![requirement("b")]),
            ("dev", vec![requirement("d")]),
        ],
        dev,
        vec![
            ("b", vec![path_source(SourceScope::Group(group("test")), "../b")]),
            ("c", vec![path_source(SourceScope::Unscoped, last_target)]),
        ],
    )
}

fn lowered(groups: &SourcedDependencyGroups, name: &str) -> Vec<Requirement> {
    groups.dependency_groups.get(&group(name)).expect("the group exists").clone()
}

fn group_names(groups: &SourcedDependencyGroups) -> Vec<String> {
    let map = &groups.dependency_groups;
    (0..map.len()).map(|i| map.name(i).unwrap().as_str().to_string()).collect()
}

#[test]
fn the_stages_follow_one_another() {
    let declared = project(
        vec![
            ("test", vec![inclusion("base"), requirement("a")]),
            ("base", vec![requirement("b")]),
            ("dev", vec![requirement("d")]),
        ],
        Some(vec!["c", "b"]),
        vec![
            ("b", vec![path_source(SourceScope::Group(group("test")), "../b")]),
            ("c", vec![path_source(SourceScope::Unscoped, "../c")]),
        ],
    );
    let groups = resolve(declared, SourceStrategy::Enabled).expect("resolved");
    assert_eq!(groups.name, Some(package("project")));
    assert_eq!(group_names(&groups), vec!["base", "dev", "test"]);
    assert_eq!(lowered(&groups, "base"), vec![plain("b")]);
    assert_eq!(lowered(&groups, "dev"), vec![plain("d"), from_path("c", "../c"), plain("b")]);
    assert_eq!(lowered(&groups, "test"), vec![from_path("b", "../b"), plain("a")]);
}

#[test]
fn a_cycle_ends_the_resolution() {
    let declared = project(
        vec![("a", vec![inclusion("b")]), ("b", vec![inclusion("a")])],
        Some(vec!["c"]),
        vec![("e", vec![path_source(SourceScope::Group(group("gone")), "x")])],
    );
    assert_eq!(
        resolve(declared, SourceStrategy::Enabled),
        Err(MetadataError::CyclicGroupInclusion(group("a")))
    );
}

#[test]
fn a_missing_group_ends_the_resolution_with_either_strategy() {
    for strategy in [SourceStrategy::Enabled, SourceStrategy::Disabled] {
        let declared = project(vec![("a", vec![inclusion("gone")])], None, vec![]);
        assert_eq!(
            resolve(declared, strategy),
            Err(MetadataError::UnknownGroupReference(group("a"), group("gone")))
        );
    }
}

#[test]
fn an_invalid_source_ends_the_resolution_before_lowering() {
    let declared = project(
        vec![("docs", vec![requirement("f")])],
        None,
        vec![
            ("e", vec![path_source(SourceScope::Group(group("docs")), "x")]),
            ("f", vec![path_source(SourceScope::Unscoped, "")]),
        ],
    );
    assert_eq!(
        resolve(declared, SourceStrategy::Enabled),
        Err(MetadataError::IncompleteSourceGroup(package("e"), group("docs")))
    );
}

#[test]
fn sources_are_validated_against_the_merged_groups() {
    // The legacy list gives the group `dev` the package that the override
    // of the group speaks of.
    let declared = project(
        vec![("docs", vec![requirement("f")])],
        Some(vec!["e"]),
        vec![("e", vec![path_source(SourceScope::Group(GroupName::dev()), "../e")])],
    );
    let groups = resolve(declared, SourceStrategy::Enabled).expect("resolved");
    assert_eq!(lowered(&groups, "dev"), vec![from_path("e", "../e")]);
    let declared = project(
        vec![("docs", vec![requirement("f")])],
        None,
        vec![("e", vec![path_source(SourceScope::Group(GroupName::dev()), "../e")])],
    );
    assert_eq!(
        resolve(declared, SourceStrategy::Enabled),
        Err(MetadataError::MissingSourceGroup(package("e"), GroupName::dev()))
    );
}

#[test]
fn a_failed_source_ends_the_resolution() {
    let declared = project(
        vec![("docs", vec![requirement("f"), requirement("g")])],
        None,
        vec![("g", vec![path_source(SourceScope::Unscoped, "")])],
    );
    assert_eq!(
        resolve(declared, SourceStrategy::Enabled),
        Err(MetadataError::GroupLoweringError(
            group("docs"),
            package("g"),
            LoweringError { message: "unresolvable".to_string() }
        ))
    );
}

#[test]
fn with_sources_disabled_the_overrides_are_left_aside() {
    let declared = project(
        vec![("docs", vec![requirement("f")])],
        Some(vec!["c"]),
        vec![
            ("e", vec![path_source(SourceScope::Group(group("gone")), "x")]),
            ("f", vec![path_source(SourceScope::Unscoped, "")]),
        ],
    );
    let step = SourcedDependencyGroups::begin_virtual_project(declared, SourceStrategy::Disabled)
        .expect("no stage fails");
    let groups = match step {
        LoweringStep::Done(groups) => groups,
        LoweringStep::Pending(_) => panic!("nothing is to be resolved"),
    };
    assert_eq!(group_names(&groups), vec!["dev", "docs"]);
    assert_eq!(lowered(&groups, "dev"), vec![plain("c")]);
    assert_eq!(lowered(&groups, "docs"), vec![plain("f")]);
}

#[test]
fn a_project_without_groups_resolves_to_none() {
    let declared = VirtualProject {
        name: None,
        dependency_groups: RawGroups::new(),
        dev_dependencies: None,
        sources: SourceOverrideTable::new(),
    };
    let groups = resolve(declared, SourceStrategy::Enabled).expect("resolved");
    assert_eq!(groups.name, None);
    assert_eq!(groups.dependency_groups.len(), 0);
}

#[test]
fn both_ways_of_resolving_agree() {
    for strategy in [SourceStrategy::Enabled, SourceStrategy::Disabled] {
        for target in ["../c", ""] {
            for dev in [None, Some(vec!["c", "b"])] {
                let at_once = resolve(sample(dev.clone(), target), strategy);
                let in_steps = resolve_in_steps(sample(dev.clone(), target), strategy);
                assert_eq!(at_once, in_steps);
            }
        }
    }
}

#[test]
fn the_resolver_is_asked_in_order_and_not_after_a_failure() {
    let asked = std::cell::RefCell::new(Vec::new());
    let record = |request: &LoweringRequest| {
        asked.borrow_mut().push(format!(
            "{}/{}",
            request.group.as_str(),
            request.requirement.name.as_str()
        ));
        lower_requirement(request)
    };
    let declared = project(
        vec![
            ("b", vec![requirement("x"), requirement("y"), requirement("z")]),
            ("a", vec![requirement("z"), requirement("x")]),
        ],
        None,
        vec![
            ("x", vec![path_source(SourceScope::Unscoped, "../x")]),
            ("y", vec![path_source(SourceScope::Group(group("b")), "")]),
            ("z", vec![path_source(SourceScope::Unscoped, "../z")]),
        ],
    );
    let failed =
        SourcedDependencyGroups::from_virtual_project(declared, SourceStrategy::Enabled, record);
    assert_eq!(
        failed,
        Err(MetadataError::GroupLoweringError(
            group("b"),
            package("y"),
            LoweringError { message: "unresolvable".to_string() }
        ))
    );
    assert_eq!(*asked.borrow(), vec!["a/z", "a/x", "b/x", "b/y"]);
}

#[test]
fn with_sources_disabled_the_resolver_is_not_asked() {
    let asked = std::cell::Cell::new(0);
    let count = |request: &LoweringRequest| {
        asked.set(asked.get() + 1);
        lower_requirement(request)
    };
    let groups = SourcedDependencyGroups::from_virtual_project(
        sample(Some(vec!["c"]), ""),
        SourceStrategy::Disabled,
        count,
    )
    .expect("no stage fails");
    assert_eq!(asked.get(), 0);
    assert_eq!(lowered(&groups, "dev"), vec![plain("d"), plain("c")]);
    assert_eq!(lowered(&groups, "test"), vec![plain("b"), plain("a")]);
}
