use dependency_groups::flatten::{flatten, FlatGroups, RawGroups};
use dependency_groups::model::{GroupEntry, MetadataError, RequirementSpec};
use dependency_groups::names::{GroupName, PackageName};

fn group(name: &str) -> GroupName {
    GroupName::new(name).expect("a valid group name")
}

fn spec(name: &str, constraints: &str) -> RequirementSpec {
    RequirementSpec {
        name: PackageName::new(name).expect("a valid package name"),
        constraints: constraints.to_string(),
        source_hint: None,
    }
}

fn requirement(name: &str) -> GroupEntry {
    GroupEntry::Requirement(spec(name, ""))
}

fn inclusion(name: &str) -> GroupEntry {
    GroupEntry::IncludeGroup(group(name))
}

fn declare(groups: Vec<(&str, Vec<GroupEntry>)>) -> RawGroups {
    let mut raw = RawGroups::new();
    for (name, entries) in groups {
        raw.insert(group(name), entries);
    }
    raw
}

fn group_names(flat: &FlatGroups) -> Vec<String> {
    (0..flat.len()).map(|i| flat.name(i).unwrap().as_str().to_string()).collect()
}

fn names_of(flat: &FlatGroups, name: &str) -> Vec<String> {
    flat.get(&group(name))
        .expect("the group exists")
        .iter()
        .map(|spec| spec.name.as_str().to_string())
        .collect()
}

#[test]
fn included_group_expands_in_place() {
    let raw = declare(vec![
        ("test", vec![inclusion("base"), requirement("a")]),
        ("base", vec![requirement("b")]),
    ]);
    let flat = flatten(&raw).expect("no cycle and no missing group");
    assert_eq!(group_names(&flat), vec!["base", "test"]);
    assert_eq!(names_of(&flat, "base"), vec!["b"]);
    assert_eq!(names_of(&flat, "test"), vec!["b", "a"]);
}

#[test]
fn inclusion_after_a_requirement_expands_after_it() {
    let raw = declare(vec![
        ("test", vec![requirement("a"), inclusion("base"), requirement("c")]),
        ("base", vec![requirement("b1"), requirement("b2")]),
    ]);
    let flat = flatten(&raw).expect("no cycle and no missing group");
    assert_eq!(names_of(&flat, "test"), vec!["a", "b1", "b2", "c"]);
    assert_eq!(names_of(&flat, "base"), vec!["b1", "b2"]);
}

#[test]
fn mutual_inclusion_is_a_cycle() {
    let raw = declare(vec![("a", vec![inclusion("b")]), ("b", vec![inclusion("a")])]);
    assert_eq!(flatten(&raw), Err(MetadataError::CyclicGroupInclusion(group("a"))));
}

#[test]
fn self_inclusion_is_a_cycle() {
    let raw = declare(vec![("docs", vec![requirement("sphinx"), inclusion("docs")])]);
    assert_eq!(flatten(&raw), Err(MetadataError::CyclicGroupInclusion(group("docs"))));
}

#[test]
fn a_cycle_through_three_groups_names_the_group_met_again() {
    let raw = declare(vec![
        ("start", vec![inclusion("x")]),
        ("x", vec![inclusion("y")]),
        ("y", vec![inclusion("z")]),
        ("z", vec![inclusion("x")]),
    ]);
    // `start` is expanded first: it leads into the cycle, on which `x` is
    // the group that is met again.
    assert_eq!(flatten(&raw), Err(MetadataError::CyclicGroupInclusion(group("x"))));
}

#[test]
fn a_missing_group_is_reported_with_its_referrer() {
    let raw = declare(vec![
        ("docs", vec![requirement("sphinx")]),
        ("test", vec![requirement("pytest"), inclusion("missing")]),
    ]);
    assert_eq!(
        flatten(&raw),
        Err(MetadataError::UnknownGroupReference(group("test"), group("missing")))
    );
}

#[test]
fn a_missing_group_is_reported_through_an_inclusion() {
    let raw = declare(vec![
        ("all", vec![inclusion("test")]),
        ("test", vec![inclusion("nowhere")]),
    ]);
    assert_eq!(
        flatten(&raw),
        Err(MetadataError::UnknownGroupReference(group("test"), group("nowhere")))
    );
}

#[test]
fn the_first_error_in_the_order_of_the_names_is_reported() {
    let raw = declare(vec![
        ("b", vec![inclusion("b")]),
        ("a", vec![inclusion("gone")]),
    ]);
    assert_eq!(
        flatten(&raw),
        Err(MetadataError::UnknownGroupReference(group("a"), group("gone")))
    );
    let raw = declare(vec![
        ("a", vec![inclusion("a")]),
        ("b", vec![inclusion("gone")]),
    ]);
    assert_eq!(flatten(&raw), Err(MetadataError::CyclicGroupInclusion(group("a"))));
}

#[test]
fn the_first_error_among_the_entries_of_a_group_is_reported() {
    let raw = declare(vec![("a", vec![inclusion("gone"), inclusion("a")])]);
    assert_eq!(
        flatten(&raw),
        Err(MetadataError::UnknownGroupReference(group("a"), group("gone")))
    );
    let raw = declare(vec![("a", vec![inclusion("a"), inclusion("gone")])]);
    assert_eq!(flatten(&raw), Err(MetadataError::CyclicGroupInclusion(group("a"))));
}

#[test]
fn the_first_requirement_of_a_package_wins() {
    let raw = declare(vec![(
        "test",
        vec![
            GroupEntry::Requirement(spec("pytest", ">=7")),
            GroupEntry::Requirement(spec("coverage", "")),
            GroupEntry::Requirement(spec("PyTest", "<6")),
        ],
    )]);
    let flat = flatten(&raw).expect("flat");
    let list = flat.get(&group("test")).expect("the group exists");
    assert_eq!(list.len(), 2);
    assert_eq!(list[0], spec("pytest", ">=7"));
    assert_eq!(list[1], spec("coverage", ""));
}

#[test]
fn repeats_that_come_through_inclusions_are_dropped() {
    let raw = declare(vec![
        ("base", vec![GroupEntry::Requirement(spec("attrs", ">=20")), requirement("b")]),
        (
            "test",
            vec![
                GroupEntry::Requirement(spec("attrs", "==1")),
                inclusion("base"),
                requirement("b"),
                requirement("c"),
            ],
        ),
        ("all", vec![inclusion("base"), inclusion("test")]),
    ]);
    let flat = flatten(&raw).expect("flat");
    assert_eq!(names_of(&flat, "test"), vec!["attrs", "b", "c"]);
    assert_eq!(flat.get(&group("test")).unwrap()[0], spec("attrs", "==1"));
    assert_eq!(names_of(&flat, "all"), vec!["attrs", "b", "c"]);
    assert_eq!(flat.get(&group("all")).unwrap()[0], spec("attrs", ">=20"));
}

#[test]
fn a_group_included_from_two_places_expands_in_both() {
    let raw = declare(vec![
        ("core", vec![requirement("c1"), requirement("c2")]),
        ("left", vec![requirement("l"), inclusion("core")]),
        ("right", vec![inclusion("core"), requirement("r")]),
        ("top", vec![inclusion("left"), inclusion("right"), requirement("t")]),
    ]);
    let flat = flatten(&raw).expect("flat");
    assert_eq!(group_names(&flat), vec!["core", "left", "right", "top"]);
    assert_eq!(names_of(&flat, "left"), vec!["l", "c1", "c2"]);
    assert_eq!(names_of(&flat, "right"), vec!["c1", "c2", "r"]);
    assert_eq!(names_of(&flat, "top"), vec!["l", "c1", "c2", "r", "t"]);
}

#[test]
fn no_groups_flatten_to_no_groups() {
    let flat = flatten(&RawGroups::new()).expect("flat");
    assert_eq!(flat.len(), 0);
}

#[test]
fn an_empty_group_stays_empty() {
    let raw = declare(vec![("docs", vec![]), ("test", vec![inclusion("docs")])]);
    let flat = flatten(&raw).expect("flat");
    assert_eq!(names_of(&flat, "docs"), Vec::<String>::new());
    assert_eq!(names_of(&flat, "test"), Vec::<String>::new());
}

#[test]
fn flattening_flat_groups_changes_nothing() {
    let raw = declare(vec![
        ("base", vec![requirement("b")]),
        ("test", vec![inclusion("base"), requirement("a"), requirement("b")]),
    ]);
    let once = flatten(&raw).expect("flat");
    let mut again = RawGroups::new();
    for i in 0..once.len() {
        let entries = once.item(i).unwrap().iter().cloned().map(GroupEntry::Requirement).collect();
        again.insert(once.name(i).unwrap().clone(), entries);
    }
    let twice = flatten(&again).expect("flat");
    assert_eq!(once, twice);
}

#[test]
fn constraints_and_hints_are_kept() {
    let declared = RequirementSpec {
        name: PackageName::new("Torch").unwrap(),
        constraints: ">=2.0 ; sys_platform == 'linux'".to_string(),
        source_hint: Some("https://download.example/torch.whl".to_string()),
    };
    let raw = declare(vec![
        ("gpu", vec![GroupEntry::Requirement(declared.clone())]),
        ("all", vec![inclusion("gpu")]),
    ]);
    let flat = flatten(&raw).expect("flat");
    assert_eq!(flat.get(&group("all")).unwrap(), &vec![declared.clone()]);
    assert_eq!(flat.get(&group("gpu")).unwrap(), &vec![declared]);
}
