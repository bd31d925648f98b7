use dependency_groups::flatten::FlatGroups;
use dependency_groups::lower::{
    begin, lower, select_source, LoweringRequest, LoweringStep, SourcedDependencyGroups,
};
use dependency_groups::model::{
    LoweringError, MetadataError, Requirement, RequirementSpec, SourceKind, SourceOverride,
    SourceScope, SourceStrategy,
};
use dependency_groups::names::{ExtraName, GroupName, PackageName};
use dependency_groups::validate::SourceOverrideTable;

fn group(name: &str) -> GroupName {
    GroupName::new(name).expect("a valid group name")
}

fn package(name: &str) -> PackageName {
    PackageName::new(name).expect("a valid package name")
}

fn spec(name: &str, constraints: &str) -> RequirementSpec {
    RequirementSpec {
        name: package(name),
        constraints: constraints.to_string(),
        source_hint: Some("hint".to_string()),
    }
}

fn plain(name: &str, constraints: &str) -> Requirement {
    Requirement {
        name: package(name),
        constraints: constraints.to_string(),
        source: SourceKind::Registry,
        location: String::new(),
    }
}

fn flat(groups: Vec<(&str, Vec<RequirementSpec>)>) -> FlatGroups {
    let mut flat = FlatGroups::new();
    for (name, list) in groups {
        flat.insert(group(name), list);
    }
    flat
}

fn source(scope: SourceScope, kind: SourceKind, target: &str) -> SourceOverride {
    SourceOverride { scope, kind, target: target.to_string() }
}

fn table(entries: Vec<(&str, Vec<SourceOverride>)>) -> SourceOverrideTable {
    let mut table = SourceOverrideTable::new();
    for (name, sources) in entries {
        table.insert(package(name), sources);
    }
    table
}

/// Resolves a request as its override says.
fn resolve(request: &LoweringRequest) -> Result<Requirement, LoweringError> {
    if request.source.target.is_empty() {
        return Err(LoweringError { message: "no target".to_string() });
    }
    Ok(Requirement {
        name: request.requirement.name.clone(),
        constraints: request.requirement.constraints.clone(),
        source: request.source.kind,
        location: request.source.target.clone(),
    })
}

/// Runs a lowering to its end, and records what was asked on the way.
fn run(
    mut step: LoweringStep,
    asked: &mut Vec<(String, String, String)>,
) -> Result<SourcedDependencyGroups, MetadataError> {
    loop {
        match step {
            LoweringStep::Done(groups) => return Ok(groups),
            LoweringStep::Pending(pending) => {
                let outcome = {
                    let request = pending.request();
                    asked.push((
                        request.group.as_str().to_string(),
                        request.requirement.name.as_str().to_string(),
                        request.source.target.clone(),
                    ));
                    resolve(request)
                };
                step = pending.supply(outcome)?;
            }
        }
    }
}

fn asked(group: &str, package: &str, target: &str) -> (String, String, String) {
    (group.to_string(), package.to_string(), target.to_string())
}

fn lowered(groups: &SourcedDependencyGroups, name: &str) -> Vec<Requirement> {
    groups.dependency_groups.get(&group(name)).expect("the group exists").clone()
}

fn group_names(groups: &SourcedDependencyGroups) -> Vec<String> {
    let map = &groups.dependency_groups;
    (0..map.len()).map(|i| map.name(i).unwrap().as_str().to_string()).collect()
}

fn two_groups() -> FlatGroups {
    flat(vec![
        ("test", vec![spec("p", ">=1"), spec("q", "")]),
        ("docs", vec![spec("q", "<2"), spec("p", "")]),
    ])
}

#[test]
fn disabled_lowering_keeps_the_plain_forms() {
    let sources = table(vec![
        ("p", vec![source(SourceScope::Unscoped, SourceKind::Path, "../p")]),
        ("q", vec![source(SourceScope::Group(group("gone")), SourceKind::Vcs, "")]),
    ]);
    let step = begin(Some(package("Project")), two_groups(), sources, SourceStrategy::Disabled);
    let groups = match step {
        LoweringStep::Done(groups) => groups,
        LoweringStep::Pending(_) => panic!("nothing is to be resolved"),
    };
    assert_eq!(groups.name, Some(package("project")));
    assert_eq!(group_names(&groups), vec!["docs", "test"]);
    assert_eq!(lowered(&groups, "docs"), vec![plain("q", "<2"), plain("p", "")]);
    assert_eq!(lowered(&groups, "test"), vec![plain("p", ">=1"), plain("q", "")]);
}

#[test]
fn disabled_lowering_is_the_same_whatever_the_overrides() {
    let sources = table(vec![("p", vec![source(SourceScope::Unscoped, SourceKind::Url, "")])]);
    let with = begin(None, two_groups(), sources, SourceStrategy::Disabled);
    let without = begin(None, two_groups(), SourceOverrideTable::new(), SourceStrategy::Disabled);
    match (with, without) {
        (LoweringStep::Done(a), LoweringStep::Done(b)) => assert_eq!(a, b),
        _ => panic!("nothing is to be resolved"),
    }
}

#[test]
fn enabled_lowering_without_overrides_keeps_the_plain_forms() {
    let step = begin(None, two_groups(), SourceOverrideTable::new(), SourceStrategy::Enabled);
    let mut seen = Vec::new();
    let groups = run(step, &mut seen).expect("nothing can fail");
    assert!(seen.is_empty());
    assert_eq!(groups.name, None);
    assert_eq!(group_names(&groups), vec!["docs", "test"]);
    assert_eq!(lowered(&groups, "docs"), vec![plain("q", "<2"), plain("p", "")]);
    assert_eq!(lowered(&groups, "test"), vec![plain("p", ">=1"), plain("q", "")]);
}

#[test]
fn an_unscoped_override_applies_in_every_group() {
    let sources = table(vec![("p", vec![source(SourceScope::Unscoped, SourceKind::Path, "../p")])]);
    let step = begin(None, two_groups(), sources, SourceStrategy::Enabled);
    let mut seen = Vec::new();
    let groups = run(step, &mut seen).expect("resolved");
    assert_eq!(seen, vec![asked("docs", "p", "../p"), asked("test", "p", "../p")]);
    let from_path = |constraints: &str| Requirement {
        name: package("p"),
        constraints: constraints.to_string(),
        source: SourceKind::Path,
        location: "../p".to_string(),
    };
    assert_eq!(lowered(&groups, "docs"), vec![plain("q", "<2"), from_path("")]);
    assert_eq!(lowered(&groups, "test"), vec![from_path(">=1"), plain("q", "")]);
}

#[test]
fn a_group_override_applies_in_its_group_only() {
    let sources = table(vec![(
        "p",
        vec![source(SourceScope::Group(group("test")), SourceKind::Vcs, "git+https://h/p")],
    )]);
    let step = begin(None, two_groups(), sources, SourceStrategy::Enabled);
    let mut seen = Vec::new();
    let groups = run(step, &mut seen).expect("resolved");
    assert_eq!(seen, vec![asked("test", "p", "git+https://h/p")]);
    assert_eq!(lowered(&groups, "docs"), vec![plain("q", "<2"), plain("p", "")]);
    assert_eq!(
        lowered(&groups, "test"),
        vec![
            Requirement {
                name: package("p"),
                constraints: ">=1".to_string(),
                source: SourceKind::Vcs,
                location: "git+https://h/p".to_string(),
            },
            plain("q", ""),
        ]
    );
}

#[test]
fn an_extra_override_never_applies() {
    let sources = table(vec![(
        "p",
        vec![source(SourceScope::Extra(ExtraName::new("test").unwrap()), SourceKind::Url, "u")],
    )]);
    let step = begin(None, two_groups(), sources, SourceStrategy::Enabled);
    let mut seen = Vec::new();
    let groups = run(step, &mut seen).expect("resolved");
    assert!(seen.is_empty());
    assert_eq!(lowered(&groups, "test"), vec![plain("p", ">=1"), plain("q", "")]);
}

#[test]
fn the_first_applicable_override_is_selected() {
    let sources = table(vec![(
        "p",
        vec![
            source(SourceScope::Extra(ExtraName::new("x").unwrap()), SourceKind::Url, "extra"),
            source(SourceScope::Group(group("docs")), SourceKind::Path, "for-docs"),
            source(SourceScope::Unscoped, SourceKind::Index, "everywhere"),
            source(SourceScope::Group(group("test")), SourceKind::Vcs, "too-late"),
        ],
    )]);
    let find = |name: &str| {
        select_source(&sources, &package("p"), &group(name)).map(|found| found.target.clone())
    };
    assert_eq!(find("docs"), Some("for-docs".to_string()));
    assert_eq!(find("test"), Some("everywhere".to_string()));
    assert_eq!(find("other"), Some("everywhere".to_string()));
    assert_eq!(select_source(&sources, &package("q"), &group("docs")), None);
    let step = begin(None, two_groups(), sources, SourceStrategy::Enabled);
    let mut seen = Vec::new();
    run(step, &mut seen).expect("resolved");
    assert_eq!(seen, vec![asked("docs", "p", "for-docs"), asked("test", "p", "everywhere")]);
}

#[test]
fn a_failure_names_the_group_and_the_package() {
    let sources = table(vec![
        ("p", vec![source(SourceScope::Unscoped, SourceKind::Path, "../p")]),
        ("q", vec![source(SourceScope::Group(group("test")), SourceKind::Path, "")]),
    ]);
    let step = begin(None, two_groups(), sources, SourceStrategy::Enabled);
    let mut seen = Vec::new();
    let failed = run(step, &mut seen);
    assert_eq!(
        failed,
        Err(MetadataError::GroupLoweringError(
            group("test"),
            package("q"),
            LoweringError { message: "no target".to_string() }
        ))
    );
    // The lowering stops at the failure: nothing more is asked.
    assert_eq!(
        seen,
        vec![asked("docs", "p", "../p"), asked("test", "p", "../p"), asked("test", "q", "")]
    );
}

#[test]
fn the_request_holds_the_declared_requirement() {
    let sources =
        table(vec![("q", vec![source(SourceScope::Unscoped, SourceKind::Workspace, "member")])]);
    let step = begin(None, two_groups(), sources, SourceStrategy::Enabled);
    match step {
        LoweringStep::Pending(pending) => {
            let request = pending.request();
            assert_eq!(request.requirement, spec("q", "<2"));
            assert_eq!(request.group, group("docs"));
            assert_eq!(
                request.source,
                source(SourceScope::Unscoped, SourceKind::Workspace, "member")
            );
        }
        LoweringStep::Done(_) => panic!("a source is to be resolved"),
    }
}

#[test]
fn empty_groups_are_kept() {
    let groups = flat(vec![("b", vec![]), ("a", vec![spec("p", "")]), ("c", vec![])]);
    let sources = table(vec![("p", vec![source(SourceScope::Unscoped, SourceKind::Url, "u")])]);
    let mut seen = Vec::new();
    let out = run(begin(None, groups, sources, SourceStrategy::Enabled), &mut seen).unwrap();
    assert_eq!(group_names(&out), vec!["a", "b", "c"]);
    assert_eq!(lowered(&out, "b"), vec![]);
    assert_eq!(lowered(&out, "c"), vec![]);
    assert_eq!(seen, vec![asked("a", "p", "u")]);
    let none = begin(None, FlatGroups::new(), SourceOverrideTable::new(), SourceStrategy::Enabled);
    match none {
        LoweringStep::Done(out) => assert_eq!(out.dependency_groups.len(), 0),
        LoweringStep::Pending(_) => panic!("nothing is to be resolved"),
    }
}

#[test]
fn the_plain_form_drops_the_source_hint() {
    let declared = spec("p", ">=1");
    assert_eq!(declared.source_hint, Some("hint".to_string()));
    assert_eq!(declared.into_plain(), plain("p", ">=1"));
}

#[test]
fn lowering_at_once_is_lowering_in_steps() {
    let tables = || {
        vec![
            SourceOverrideTable::new(),
            table(vec![("p", vec![source(SourceScope::Unscoped, SourceKind::Path, "../p")])]),
            table(vec![
                ("p", vec![source(SourceScope::Group(group("docs")), SourceKind::Url, "u")]),
                ("q", vec![source(SourceScope::Unscoped, SourceKind::Vcs, "")]),
            ]),
        ]
    };
    for strategy in [SourceStrategy::Enabled, SourceStrategy::Disabled] {
        for (one, other) in tables().into_iter().zip(tables()) {
            let at_once = lower(Some(package("x")), two_groups(), one, strategy, resolve);
            let mut seen = Vec::new();
            let in_steps =
                run(begin(Some(package("x")), two_groups(), other, strategy), &mut seen);
            assert_eq!(at_once, in_steps);
        }
    }
}

#[test]
fn lowering_at_once_places_each_answer() {
    let sources = table(vec![
        ("p", vec![source(SourceScope::Group(group("test")), SourceKind::Index, "internal")]),
        ("q", vec![source(SourceScope::Unscoped, SourceKind::Workspace, "member")]),
    ]);
    let out = lower(None, two_groups(), sources, SourceStrategy::Enabled, resolve).unwrap();
    let answer = |name: &str, constraints: &str, kind: SourceKind, location: &str| Requirement {
        name: package(name),
        constraints: constraints.to_string(),
        source: kind,
        location: location.to_string(),
    };
    assert_eq!(group_names(&out), vec!["docs", "test"]);
    assert_eq!(
        lowered(&out, "docs"),
        vec![answer("q", "<2", SourceKind::Workspace, "member"), plain("p", "")]
    );
    assert_eq!(
        lowered(&out, "test"),
        vec![
            answer("p", ">=1", SourceKind::Index, "internal"),
            answer("q", "", SourceKind::Workspace, "member"),
        ]
    );
}
