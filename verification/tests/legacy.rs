use dependency_groups::flatten::FlatGroups;
use dependency_groups::legacy::merge_legacy;
use dependency_groups::model::RequirementSpec;
use dependency_groups::names::{GroupName, PackageName};

fn group(name: &str) -> GroupName {
    GroupName::new(name).expect("a valid group name")
}

fn spec(name: &str, constraints: &str) -> RequirementSpec {
    RequirementSpec {
        name: PackageName::new(name).expect("a valid package name"),
        constraints: constraints.to_string(),
        source_hint: None,
    }
}

fn flat(groups: Vec<(&str, Vec<RequirementSpec>)>) -> FlatGroups {
    let mut flat = FlatGroups::new();
    for (name, list) in groups {
        flat.insert(group(name), list);
    }
    flat
}

fn group_names(flat: &FlatGroups) -> Vec<String> {
    (0..flat.len()).map(|i| flat.name(i).unwrap().as_str().to_string()).collect()
}

#[test]
fn legacy_requirements_follow_those_of_the_group() {
    let before = flat(vec![("dev", vec![spec("d", "")])]);
    let merged = merge_legacy(before, Some(vec![spec("c", "")]));
    assert_eq!(group_names(&merged), vec!["dev"]);
    assert_eq!(merged.get(&GroupName::dev()).unwrap(), &vec![spec("d", ""), spec("c", "")]);
}

#[test]
fn the_group_is_made_where_it_is_missing() {
    let before = flat(vec![("alpha", vec![spec("a", "")]), ("test", vec![spec("t", "")])]);
    let merged = merge_legacy(before, Some(vec![spec("c", ">=1"), spec("e", "")]));
    assert_eq!(group_names(&merged), vec!["alpha", "dev", "test"]);
    assert_eq!(merged.get(&group("alpha")).unwrap(), &vec![spec("a", "")]);
    assert_eq!(merged.get(&group("dev")).unwrap(), &vec![spec("c", ">=1"), spec("e", "")]);
    assert_eq!(merged.get(&group("test")).unwrap(), &vec![spec("t", "")]);
}

#[test]
fn the_group_is_made_in_an_empty_map() {
    let merged = merge_legacy(FlatGroups::new(), Some(vec![spec("c", "")]));
    assert_eq!(group_names(&merged), vec!["dev"]);
    assert_eq!(merged.get(&GroupName::dev()).unwrap(), &vec![spec("c", "")]);
}

#[test]
fn an_empty_legacy_list_still_makes_the_group() {
    let merged = merge_legacy(flat(vec![("test", vec![spec("t", "")])]), Some(vec![]));
    assert_eq!(group_names(&merged), vec!["dev", "test"]);
    assert_eq!(merged.get(&GroupName::dev()).unwrap(), &Vec::<RequirementSpec>::new());
}

#[test]
fn without_a_legacy_list_nothing_changes() {
    let before = flat(vec![("dev", vec![spec("d", "")]), ("test", vec![spec("t", "")])]);
    let same = flat(vec![("dev", vec![spec("d", "")]), ("test", vec![spec("t", "")])]);
    assert_eq!(merge_legacy(before, None), same);
    assert_eq!(merge_legacy(FlatGroups::new(), None), FlatGroups::new());
}

#[test]
fn colliding_packages_are_all_kept() {
    let before = flat(vec![("dev", vec![spec("ruff", ">=0.4"), spec("mypy", "")])]);
    let merged = merge_legacy(before, Some(vec![spec("ruff", "<0.3"), spec("Mypy", "")]));
    assert_eq!(
        merged.get(&GroupName::dev()).unwrap(),
        &vec![spec("ruff", ">=0.4"), spec("mypy", ""), spec("ruff", "<0.3"), spec("mypy", "")]
    );
}

#[test]
fn other_groups_are_left_alone() {
    let before = flat(vec![
        ("dev", vec![spec("d", "")]),
        ("docs", vec![spec("sphinx", "")]),
        ("a", vec![]),
    ]);
    let merged = merge_legacy(before, Some(vec![spec("c", "")]));
    assert_eq!(group_names(&merged), vec!["a", "dev", "docs"]);
    assert_eq!(merged.get(&group("a")).unwrap(), &Vec::<RequirementSpec>::new());
    assert_eq!(merged.get(&group("docs")).unwrap(), &vec![spec("sphinx", "")]);
}
