use dependency_groups::name_map::NameMap;
use dependency_groups::names::GroupName;

fn group(name: &str) -> GroupName {
    GroupName::new(name).expect("a valid group name")
}

#[test]
fn a_new_map_is_empty() {
    let map: NameMap<GroupName, u32> = NameMap::new();
    assert_eq!(map.len(), 0);
    assert_eq!(map.find(&group("a")), None);
    assert_eq!(map.get(&group("a")), None);
}

#[test]
fn entries_stand_in_the_order_of_their_names() {
    let mut map: NameMap<GroupName, u32> = NameMap::new();
    assert_eq!(map.insert(group("test"), 1), None);
    assert_eq!(map.insert(group("docs"), 2), None);
    assert_eq!(map.insert(group("zeta"), 3), None);
    assert_eq!(map.insert(group("alpha"), 4), None);
    assert_eq!(map.insert(group("dev"), 5), None);
    assert_eq!(map.len(), 5);
    let names: Vec<&str> = (0..map.len()).map(|i| map.name(i).unwrap().as_str()).collect();
    assert_eq!(names, vec!["alpha", "dev", "docs", "test", "zeta"]);
    let items: Vec<u32> = (0..map.len()).map(|i| *map.item(i).unwrap()).collect();
    assert_eq!(items, vec![4, 5, 2, 1, 3]);
}

#[test]
fn a_second_value_replaces_the_first() {
    let mut map: NameMap<GroupName, u32> = NameMap::new();
    assert_eq!(map.insert(group("docs"), 1), None);
    assert_eq!(map.insert(group("test"), 2), None);
    assert_eq!(map.insert(group("Docs"), 3), Some(1));
    assert_eq!(map.len(), 2);
    assert_eq!(map.get(&group("docs")), Some(&3));
    assert_eq!(map.get(&group("test")), Some(&2));
}

#[test]
fn a_name_is_found_where_it_stands() {
    let mut map: NameMap<GroupName, u32> = NameMap::new();
    map.insert(group("b"), 20);
    map.insert(group("d"), 40);
    map.insert(group("a"), 10);
    assert_eq!(map.find(&group("a")), Some(0));
    assert_eq!(map.find(&group("b")), Some(1));
    assert_eq!(map.find(&group("d")), Some(2));
    assert_eq!(map.find(&group("c")), None);
    assert_eq!(map.find(&group("e")), None);
    assert_eq!(map.get(&group("d")), Some(&40));
    assert_eq!(map.get(&group("c")), None);
}
