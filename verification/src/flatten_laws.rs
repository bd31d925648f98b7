//! What holds of flattening, whatever groups are declared.

use crate::flatten::{
    dedup, expand_entries, expand_group, flatten_spec, flatten_upto, has_name,
    lemma_dedup_names, lemma_unvisited_shrinks, unvisited, Declared, Flat,
};
use crate::model::{GroupEntryView, MetadataErrorView, RequirementSpecView};
use crate::name_map::{lemma_position_at, position, Entries};
use vstd::prelude::*;

verus! {

/// Group `i` has an entry that includes group `j`.
pub open spec fn includes(d: Declared, i: int, j: int) -> bool {
    &&& 0 <= i < d.items.len()
    &&& 0 <= j < d.names.len()
    &&& exists|k: int|
        0 <= k < d.items[i].len() && #[trigger] d.items[i][k] == GroupEntryView::IncludeGroup(
            d.names[j],
        )
}

/// Each group of the path includes the next.
pub open spec fn is_path(d: Declared, path: Seq<int>) -> bool {
    &&& path.len() >= 2
    &&& forall|t: int| 0 <= t < path.len() - 1 ==> includes(d, #[trigger] path[t], path[t + 1])
}

/// Group `a` includes group `b`, directly or through other groups.
pub open spec fn reaches(d: Declared, a: int, b: int) -> bool {
    exists|path: Seq<int>| is_path(d, path) && #[trigger] path[0] == a && path.last() == b
}

/// No group includes itself, directly or through other groups.
pub open spec fn acyclic(d: Declared) -> bool {
    forall|g: int| !#[trigger] reaches(d, g, g)
}

/// Entry `k` of group `g` includes a group that is not declared.
pub open spec fn dangling(d: Declared, g: int, k: int) -> bool {
    &&& 0 <= g < d.items.len()
    &&& 0 <= k < d.items[g].len()
    &&& d.items[g][k] matches GroupEntryView::IncludeGroup(name)
    &&& position(d.names, name) is None
}

/// Every group that is included is declared.
pub open spec fn all_declared(d: Declared) -> bool {
    forall|g: int, k: int| !#[trigger] dangling(d, g, k)
}

/// What an error of flattening says: a cycle error names a group that
/// includes itself, and a reference error names a group with an entry that
/// includes the undeclared one. Flattening gives no other error.
pub open spec fn error_is_sound(d: Declared, e: MetadataErrorView) -> bool {
    match e {
        MetadataErrorView::CyclicGroupInclusion(name) => exists|c: int|
            0 <= c < d.names.len() && #[trigger] d.names[c] == name && reaches(d, c, c),
        MetadataErrorView::UnknownGroupReference(referrer, missing) => exists|g: int, k: int|
            #[trigger] dangling(d, g, k) && d.names[g] == referrer && d.items[g][k]
                == GroupEntryView::IncludeGroup(missing),
        _ => false,
    }
}

/// A path goes on along one more inclusion.
proof fn lemma_reach_extend(d: Declared, a: int, b: int, c: int)
    requires
        a == b || reaches(d, a, b),
        includes(d, b, c),
    ensures
        reaches(d, a, c),
{
    if a == b {
        let path = seq![b, c];
        assert(is_path(d, path));
        assert(path[0] == a && path.last() == c);
    } else {
        let path = choose|path: Seq<int>|
            is_path(d, path) && #[trigger] path[0] == a && path.last() == b;
        let longer = path.push(c);
        assert forall|t: int| 0 <= t < longer.len() - 1 implies includes(
            d,
            #[trigger] longer[t],
            longer[t + 1],
        ) by {
            if t < path.len() - 1 {
                assert(longer[t] == path[t] && longer[t + 1] == path[t + 1]);
            }
        }
        assert(is_path(d, longer));
        assert(longer[0] == a && longer.last() == c);
    }
}

/// The error of expanding a group is sound, where every group under
/// expansion includes the group, directly or through other groups.
proof fn lemma_group_error_sound(d: Declared, g: int, visiting: Set<int>)
    requires
        d.wf(),
        0 <= g < d.names.len(),
        forall|v: int| visiting.contains(v) ==> reaches(d, v, g),
    ensures
        expand_group(d, g, visiting) matches Err(e) ==> error_is_sound(d, e),
    decreases unvisited(d.names.len(), visiting).len(), 0nat, 0nat,
{
    if visiting.contains(g) {
        let name = d.names[g];
        assert(reaches(d, g, g));
    } else {
        lemma_unvisited_shrinks(d.names.len(), visiting, g);
        lemma_entries_error_sound(d, g, 0, visiting.insert(g));
    }
}

/// The same, of the entries of a group from one index on.
proof fn lemma_entries_error_sound(d: Declared, g: int, from: int, visiting: Set<int>)
    requires
        d.wf(),
        0 <= g < d.names.len(),
        0 <= from,
        forall|v: int| visiting.contains(v) ==> v == g || reaches(d, v, g),
    ensures
        expand_entries(d, g, from, visiting) matches Err(e) ==> error_is_sound(d, e),
    decreases unvisited(d.names.len(), visiting).len(), 1nat, d.items[g].len() - from,
{
    if from < d.items[g].len() {
        match d.items[g][from] {
            GroupEntryView::Requirement(spec) => {},
            GroupEntryView::IncludeGroup(name) => {
                match position(d.names, name) {
                    None => {
                        assert(dangling(d, g, from));
                    },
                    Some(j) => {
                        assert(d.names[j] == name);
                        assert(includes(d, g, j));
                        assert forall|v: int| visiting.contains(v) implies reaches(d, v, j) by {
                            lemma_reach_extend(d, v, g, j);
                        }
                        lemma_group_error_sound(d, j, visiting);
                    },
                }
            },
        }
        lemma_entries_error_sound(d, g, from + 1, visiting);
    }
}

/// The flat forms of the first groups are there exactly when each of these
/// groups has one, and an error is that of one of them.
pub proof fn lemma_flatten_upto_each(d: Declared, n: nat)
    ensures
        match flatten_upto(d, n) {
            Ok(lists) => lists.len() == n && forall|g: int|
                0 <= g < n ==> expand_group(d, g, Set::empty()) == Ok::<
                    Seq<RequirementSpecView>,
                    MetadataErrorView,
                >(#[trigger] lists[g]),
            Err(e) => exists|g: int|
                0 <= g < n && #[trigger] expand_group(d, g, Set::empty()) == Err::<
                    Seq<RequirementSpecView>,
                    MetadataErrorView,
                >(e),
        },
    decreases n,
{
    if n > 0 {
        lemma_flatten_upto_each(d, (n - 1) as nat);
        match flatten_upto(d, (n - 1) as nat) {
            Err(e) => {
                let g = choose|g: int|
                    0 <= g < n - 1 && #[trigger] expand_group(d, g, Set::empty()) == Err::<
                        Seq<RequirementSpecView>,
                        MetadataErrorView,
                    >(e);
                assert(0 <= g < n);
            },
            Ok(lists) => {
                match expand_group(d, n - 1, Set::empty()) {
                    Err(e) => {
                        assert(0 <= n - 1 < n);
                    },
                    Ok(list) => {},
                }
            },
        }
    }
}

/// An error of flattening is sound: it names a group on a cycle, or a group
/// and the undeclared group that it includes.
pub proof fn lemma_flatten_error_sound(d: Declared)
    requires
        d.wf(),
    ensures
        flatten_spec(d) matches Err(e) ==> error_is_sound(d, e),
{
    lemma_flatten_upto_each(d, d.names.len());
    match flatten_upto(d, d.names.len()) {
        Err(e) => {
            let g = choose|g: int|
                0 <= g < d.names.len() && #[trigger] expand_group(d, g, Set::empty()) == Err::<
                    Seq<RequirementSpecView>,
                    MetadataErrorView,
                >(e);
            lemma_group_error_sound(d, g, Set::empty());
        },
        Ok(lists) => {},
    }
}

/// Where the entries of a group expand, every inclusion among them names a
/// declared group, which expands too.
proof fn lemma_entries_ok_each(d: Declared, g: int, from: int, visiting: Set<int>, k: int)
    requires
        0 <= g < d.items.len(),
        0 <= from <= k < d.items[g].len(),
        expand_entries(d, g, from, visiting) is Ok,
    ensures
        d.items[g][k] matches GroupEntryView::IncludeGroup(name) ==> (position(d.names, name)
            matches Some(j) && expand_group(d, j, visiting) is Ok),
    decreases k - from,
{
    if from < k {
        lemma_entries_ok_each(d, g, from + 1, visiting, k);
    }
}

/// Where the first group of a path expands, each group of the path expands
/// while those before it are under expansion.
proof fn lemma_path_expands(d: Declared, path: Seq<int>, i: int)
    requires
        d.wf(),
        is_path(d, path),
        expand_group(d, path[0], Set::empty()) is Ok,
        0 <= i < path.len(),
    ensures
        expand_group(d, path[i], path.take(i).to_set()) is Ok,
    decreases i,
{
    if i == 0 {
        assert(path.take(0).to_set() =~= Set::<int>::empty());
    } else {
        lemma_path_expands(d, path, i - 1);
        let a = path[i - 1];
        let b = path[i];
        let before = path.take(i - 1).to_set();
        assert(includes(d, a, b));
        let k = choose|k: int|
            0 <= k < d.items[a].len() && #[trigger] d.items[a][k] == GroupEntryView::IncludeGroup(
                d.names[b],
            );
        lemma_position_at(d.names, b);
        lemma_entries_ok_each(d, a, 0, before.insert(a), k);
        let shorter = path.take(i - 1);
        let longer = path.take(i);
        assert(longer =~= shorter.push(a));
        assert forall|x: int| longer.to_set().contains(x) <==> before.insert(a).contains(x) by {
            if longer.contains(x) {
                let t = choose|t: int| 0 <= t < longer.len() && longer[t] == x;
                if t < i - 1 {
                    assert(shorter[t] == x);
                }
            }
            if shorter.contains(x) {
                let t = choose|t: int| 0 <= t < shorter.len() && shorter[t] == x;
                assert(longer[t] == x);
            }
            if x == a {
                assert(longer[i - 1] == a);
            }
        }
        assert(longer.to_set() =~= before.insert(a));
    }
}

/// A group that includes itself, directly or through other groups, has no
/// flat form.
pub proof fn lemma_cycle_fails(d: Declared, g: int)
    requires
        d.wf(),
        reaches(d, g, g),
    ensures
        0 <= g < d.names.len(),
        expand_group(d, g, Set::empty()) is Err,
{
    let path = choose|path: Seq<int>|
        is_path(d, path) && #[trigger] path[0] == g && path.last() == g;
    assert(includes(d, path[0], path[1]));
    if expand_group(d, g, Set::empty()) is Ok {
        let i = path.len() - 1;
        lemma_path_expands(d, path, i);
        assert(path.take(i)[0] == g);
        assert(path.take(i).to_set().contains(g));
    }
}

/// A group with an entry that includes an undeclared group has no flat form.
pub proof fn lemma_dangling_fails(d: Declared, g: int, k: int)
    requires
        d.wf(),
        dangling(d, g, k),
    ensures
        expand_group(d, g, Set::empty()) is Err,
{
    if expand_group(d, g, Set::empty()) is Ok {
        lemma_entries_ok_each(d, g, 0, Set::<int>::empty().insert(g), k);
    }
}

/// Flattening succeeds exactly on the declarations that are free of cycles
/// and include only declared groups.
pub proof fn lemma_flatten_succeeds_iff(d: Declared)
    requires
        d.wf(),
    ensures
        flatten_spec(d) is Ok <==> acyclic(d) && all_declared(d),
{
    lemma_flatten_upto_each(d, d.names.len());
    lemma_flatten_error_sound(d);
    if flatten_spec(d) is Ok {
        let lists = flatten_upto(d, d.names.len())->Ok_0;
        assert forall|g: int| !#[trigger] reaches(d, g, g) by {
            if reaches(d, g, g) {
                lemma_cycle_fails(d, g);
                assert(expand_group(d, g, Set::empty()) == Ok::<
                    Seq<RequirementSpecView>,
                    MetadataErrorView,
                >(lists[g]));
            }
        }
        assert forall|g: int, k: int| !#[trigger] dangling(d, g, k) by {
            if dangling(d, g, k) {
                lemma_dangling_fails(d, g, k);
                assert(expand_group(d, g, Set::empty()) == Ok::<
                    Seq<RequirementSpecView>,
                    MetadataErrorView,
                >(lists[g]));
            }
        }
    }
}

/// A declaration with a cycle is rejected; where it includes only declared
/// groups, the error is `CyclicGroupInclusion`, and the group that it names
/// includes itself, directly or through other groups.
pub proof fn lemma_cycle_is_rejected(d: Declared, g: int)
    requires
        d.wf(),
        reaches(d, g, g),
    ensures
        flatten_spec(d) is Err,
        all_declared(d) ==> (flatten_spec(d) matches Err(
            MetadataErrorView::CyclicGroupInclusion(name),
        ) && exists|c: int|
            0 <= c < d.names.len() && #[trigger] d.names[c] == name && reaches(d, c, c)),
{
    lemma_flatten_succeeds_iff(d);
    lemma_flatten_error_sound(d);
}

/// A declaration that includes an undeclared group is rejected; where it is
/// free of cycles, the error is `UnknownGroupReference`, and it names a
/// group and the undeclared group that one of its entries includes.
pub proof fn lemma_unknown_group_is_rejected(d: Declared, g: int, k: int)
    requires
        d.wf(),
        dangling(d, g, k),
    ensures
        flatten_spec(d) is Err,
        acyclic(d) ==> (flatten_spec(d) matches Err(
            MetadataErrorView::UnknownGroupReference(referrer, missing),
        ) && exists|i: int, t: int|
            #[trigger] dangling(d, i, t) && d.names[i] == referrer && d.items[i][t]
                == GroupEntryView::IncludeGroup(missing)),
{
    lemma_flatten_succeeds_iff(d);
    lemma_flatten_error_sound(d);
}

/// A flat form that is found while more groups are under expansion is also
/// found while fewer are.
proof fn lemma_group_mono(d: Declared, g: int, more: Set<int>, fewer: Set<int>)
    requires
        expand_group(d, g, more) is Ok,
        forall|x: int| fewer.contains(x) ==> more.contains(x),
    ensures
        expand_group(d, g, fewer) == expand_group(d, g, more),
    decreases unvisited(d.names.len(), more).len(), 0nat, 0nat,
{
    if 0 <= g < d.names.len() {
        lemma_unvisited_shrinks(d.names.len(), more, g);
        lemma_entries_mono(d, g, 0, more.insert(g), fewer.insert(g));
    }
}

/// The same, of the entries of a group from one index on.
proof fn lemma_entries_mono(d: Declared, g: int, from: int, more: Set<int>, fewer: Set<int>)
    requires
        expand_entries(d, g, from, more) is Ok,
        forall|x: int| fewer.contains(x) ==> more.contains(x),
    ensures
        expand_entries(d, g, from, fewer) == expand_entries(d, g, from, more),
    decreases unvisited(d.names.len(), more).len(), 1nat, d.items[g].len() - from,
{
    if 0 <= g < d.items.len() && 0 <= from < d.items[g].len() {
        match d.items[g][from] {
            GroupEntryView::Requirement(spec) => {},
            GroupEntryView::IncludeGroup(name) => {
                match position(d.names, name) {
                    Some(j) => {
                        lemma_group_mono(d, j, more, fewer);
                    },
                    None => {},
                }
            },
        }
        lemma_entries_mono(d, g, from + 1, more, fewer);
    }
}

/// What an entry stands for once every group has its flat form: a
/// requirement for itself, an inclusion for the flat form of its group.
pub open spec fn entry_piece(
    d: Declared,
    lists: Seq<Seq<RequirementSpecView>>,
    entry: GroupEntryView,
) -> Seq<RequirementSpecView> {
    match entry {
        GroupEntryView::Requirement(spec) => seq![spec],
        GroupEntryView::IncludeGroup(name) => match position(d.names, name) {
            Some(j) => lists[j],
            None => Seq::empty(),
        },
    }
}

/// What the entries of group `g` from index `from` on stand for, one after
/// another.
pub open spec fn spliced(
    d: Declared,
    lists: Seq<Seq<RequirementSpecView>>,
    g: int,
    from: int,
) -> Seq<RequirementSpecView>
    decreases d.items[g].len() - from,
{
    if from < 0 || from >= d.items[g].len() {
        Seq::empty()
    } else {
        entry_piece(d, lists, d.items[g][from]) + spliced(d, lists, g, from + 1)
    }
}

/// Where the entries of a group expand, they stand for what [`spliced`] says.
proof fn lemma_entries_spliced(
    d: Declared,
    lists: Seq<Seq<RequirementSpecView>>,
    g: int,
    from: int,
    visiting: Set<int>,
)
    requires
        0 <= g < d.items.len(),
        0 <= from,
        forall|j: int|
            0 <= j < d.names.len() ==> #[trigger] expand_group(d, j, Set::empty()) == Ok::<
                Seq<RequirementSpecView>,
                MetadataErrorView,
            >(lists[j]),
        expand_entries(d, g, from, visiting) is Ok,
    ensures
        expand_entries(d, g, from, visiting) == Ok::<Seq<RequirementSpecView>, MetadataErrorView>(
            spliced(d, lists, g, from),
        ),
    decreases d.items[g].len() - from,
{
    if from < d.items[g].len() {
        match d.items[g][from] {
            GroupEntryView::Requirement(spec) => {},
            GroupEntryView::IncludeGroup(name) => {
                match position(d.names, name) {
                    Some(j) => {
                        lemma_group_mono(d, j, visiting, Set::empty());
                    },
                    None => {},
                }
            },
        }
        lemma_entries_spliced(d, lists, g, from + 1, visiting);
    }
}

/// Where flattening succeeds, the flat form of every group holds, in the
/// order of declaration, the group's own requirements and, at the place of
/// each inclusion, the flat form of the group included; of the requirements
/// of one package only the first stays.
pub proof fn lemma_flat_form_unfolds(d: Declared, g: int)
    requires
        d.wf(),
        flatten_spec(d) is Ok,
        0 <= g < d.names.len(),
    ensures
        flatten_spec(d)->Ok_0.names == d.names,
        flatten_spec(d)->Ok_0.items.len() == d.names.len(),
        flatten_spec(d)->Ok_0.items[g] == dedup(spliced(d, flatten_spec(d)->Ok_0.items, g, 0)),
{
    lemma_flatten_upto_each(d, d.names.len());
    let lists = flatten_spec(d)->Ok_0.items;
    assert(expand_group(d, g, Set::empty()) == Ok::<Seq<RequirementSpecView>, MetadataErrorView>(
        lists[g],
    ));
    assert forall|j: int| 0 <= j < d.names.len() implies #[trigger] expand_group(
        d,
        j,
        Set::empty(),
    ) == Ok::<Seq<RequirementSpecView>, MetadataErrorView>(lists[j]) by {
        assert(expand_group(d, j, Set::empty()) == Ok::<
            Seq<RequirementSpecView>,
            MetadataErrorView,
        >(lists[j]));
    }
    lemma_entries_spliced(d, lists, g, 0, Set::<int>::empty().insert(g));
}

/// No two requirements of the list name the same package.
pub open spec fn no_repeats(list: Seq<RequirementSpecView>) -> bool {
    forall|i: int, j: int|
        0 <= i < j < list.len() ==> (#[trigger] list[i]).name != (#[trigger] list[j]).name
}

/// A list without its repeats has no repeats, and names the packages of the list.
pub proof fn lemma_dedup_no_repeats(list: Seq<RequirementSpecView>)
    ensures
        no_repeats(dedup(list)),
        forall|name: Seq<u8>| has_name(dedup(list), name) <==> has_name(list, name),
    decreases list.len(),
{
    assert forall|name: Seq<u8>| has_name(dedup(list), name) <==> has_name(list, name) by {
        lemma_dedup_names(list, name);
    }
    if list.len() > 0 {
        let init = list.drop_last();
        lemma_dedup_no_repeats(init);
        lemma_dedup_names(init, list.last().name);
        let kept = dedup(list);
        if !has_name(init, list.last().name) {
            assert forall|i: int, j: int| 0 <= i < j < kept.len() implies (#[trigger] kept[i]).name
                != (#[trigger] kept[j]).name by {
                if j == kept.len() - 1 {
                    assert(kept[i] == dedup(init)[i]);
                    if kept[i].name == kept[j].name {
                        assert(has_name(dedup(init), list.last().name));
                    }
                } else {
                    assert(kept[i] == dedup(init)[i] && kept[j] == dedup(init)[j]);
                }
            }
        }
    }
}

/// Requirement `i` is the first of its package in the list.
pub open spec fn is_first(list: Seq<RequirementSpecView>, i: int) -> bool {
    &&& 0 <= i < list.len()
    &&& forall|j: int| 0 <= j < i ==> (#[trigger] list[j]).name != list[i].name
}

/// The places, in the list, of the requirements that stay when the repeats
/// are removed.
pub open spec fn kept_places(list: Seq<RequirementSpecView>) -> Seq<int>
    decreases list.len(),
{
    if list.len() == 0 {
        Seq::empty()
    } else if has_name(list.drop_last(), list.last().name) {
        kept_places(list.drop_last())
    } else {
        kept_places(list.drop_last()).push(list.len() - 1)
    }
}

/// The first requirement of each package wins: what stays when the repeats
/// are removed are the requirements that are the first of their package, in
/// the order in which the list holds them.
pub proof fn lemma_dedup_keeps_the_first(list: Seq<RequirementSpecView>)
    ensures
        kept_places(list).len() == dedup(list).len(),
        forall|k: int|
            0 <= k < dedup(list).len() ==> is_first(list, #[trigger] kept_places(list)[k])
                && dedup(list)[k] == list[kept_places(list)[k]],
        forall|k: int, m: int|
            0 <= k < m < dedup(list).len() ==> #[trigger] kept_places(list)[k]
                < #[trigger] kept_places(list)[m],
        forall|i: int| is_first(list, i) ==> #[trigger] kept_places(list).contains(i),
    decreases list.len(),
{
    if list.len() > 0 {
        let init = list.drop_last();
        let last = list.len() - 1;
        let places = kept_places(list);
        let before = kept_places(init);
        lemma_dedup_keeps_the_first(init);
        assert forall|i: int| 0 <= i < last implies (is_first(init, i) <==> is_first(list, i)) by {
            if is_first(init, i) {
                assert forall|j: int| 0 <= j < i implies (#[trigger] list[j]).name
                    != list[i].name by {
                    assert(init[j].name != init[i].name);
                }
            }
            if is_first(list, i) {
                assert forall|j: int| 0 <= j < i implies (#[trigger] init[j]).name
                    != init[i].name by {
                    assert(list[j].name != list[i].name);
                }
            }
        }
        if has_name(init, list.last().name) {
            let j = choose|j: int|
                0 <= j < init.len() && (#[trigger] init[j]).name == list.last().name;
            assert(list[j].name == list[last].name);
            assert(!is_first(list, last));
        } else {
            assert forall|j: int| 0 <= j < last implies (#[trigger] list[j]).name
                != list[last].name by {
                assert(init[j].name == list[j].name);
            }
            assert(is_first(list, last));
            assert(places[places.len() - 1] == last);
        }
        assert forall|k: int| 0 <= k < dedup(list).len() implies is_first(
            list,
            #[trigger] places[k],
        ) && dedup(list)[k] == list[places[k]] by {
            if k < before.len() {
                assert(places[k] == before[k]);
                assert(is_first(init, before[k]));
                assert(dedup(init)[k] == init[before[k]]);
            }
        }
        assert forall|k: int, m: int| 0 <= k < m < dedup(list).len() implies #[trigger] places[k]
            < #[trigger] places[m] by {
            assert(places[k] == before[k]);
            assert(is_first(init, before[k]));
            if m < before.len() {
                assert(places[m] == before[m]);
            }
        }
        assert forall|i: int| is_first(list, i) implies #[trigger] places.contains(i) by {
            if i < last {
                assert(before.contains(i));
                let k = choose|k: int| 0 <= k < before.len() && before[k] == i;
                assert(places[k] == i);
            } else {
                assert(places[places.len() - 1] == i);
            }
        }
    }
}

/// A list without repeats stays as it is.
pub proof fn lemma_dedup_fixed(list: Seq<RequirementSpecView>)
    requires
        no_repeats(list),
    ensures
        dedup(list) == list,
    decreases list.len(),
{
    if list.len() > 0 {
        let init = list.drop_last();
        assert forall|i: int, j: int| 0 <= i < j < init.len() implies (#[trigger] init[i]).name
            != (#[trigger] init[j]).name by {
            assert(init[i] == list[i] && init[j] == list[j]);
        }
        lemma_dedup_fixed(init);
        if has_name(init, list.last().name) {
            let i = choose|i: int|
                0 <= i < init.len() && (#[trigger] init[i]).name == list.last().name;
            assert(list[i].name == list[list.len() - 1].name);
        }
        assert(init.push(list.last()) =~= list);
    } else {
        assert(list =~= Seq::empty());
    }
}

/// Flat groups, read as a declaration that includes nothing.
pub open spec fn as_declared(flat: Flat) -> Declared {
    Entries {
        names: flat.names,
        items: flat.items.map_values(
            |list: Seq<RequirementSpecView>|
                list.map_values(|spec: RequirementSpecView| GroupEntryView::Requirement(spec)),
        ),
    }
}

/// The entries of a group that includes nothing stand for themselves.
proof fn lemma_flat_entries(flat: Flat, g: int, from: int, visiting: Set<int>)
    requires
        0 <= g < flat.items.len(),
        0 <= from <= flat.items[g].len(),
    ensures
        expand_entries(as_declared(flat), g, from, visiting) == Ok::<
            Seq<RequirementSpecView>,
            MetadataErrorView,
        >(flat.items[g].skip(from)),
    decreases flat.items[g].len() - from,
{
    let d = as_declared(flat);
    if from < flat.items[g].len() {
        lemma_flat_entries(flat, g, from + 1, visiting);
        assert(d.items[g][from] == GroupEntryView::Requirement(flat.items[g][from]));
        assert(seq![flat.items[g][from]] + flat.items[g].skip(from + 1) =~= flat.items[g].skip(
            from,
        ));
    } else {
        assert(flat.items[g].skip(from) =~= Seq::empty());
    }
}

/// The flat forms of the first groups of flat groups are these groups.
proof fn lemma_flat_upto(flat: Flat, n: nat)
    requires
        flat.wf(),
        n <= flat.names.len(),
        forall|g: int| 0 <= g < flat.items.len() ==> no_repeats(#[trigger] flat.items[g]),
    ensures
        flatten_upto(as_declared(flat), n) == Ok::<
            Seq<Seq<RequirementSpecView>>,
            MetadataErrorView,
        >(flat.items.take(n as int)),
    decreases n,
{
    if n > 0 {
        let g = n - 1;
        lemma_flat_upto(flat, g as nat);
        lemma_flat_entries(flat, g, 0, Set::<int>::empty().insert(g));
        assert(flat.items[g].skip(0) =~= flat.items[g]);
        lemma_dedup_fixed(flat.items[g]);
        assert(flat.items.take(g).push(flat.items[g]) =~= flat.items.take(n as int));
    } else {
        assert(flat.items.take(0) =~= Seq::empty());
    }
}

/// Flattening leaves flat groups as they are: groups that include nothing
/// and in which no package is required twice.
pub proof fn lemma_flat_is_fixed(flat: Flat)
    requires
        flat.wf(),
        forall|g: int| 0 <= g < flat.items.len() ==> no_repeats(#[trigger] flat.items[g]),
    ensures
        flatten_spec(as_declared(flat)) == Ok::<Flat, MetadataErrorView>(flat),
{
    lemma_flat_upto(flat, flat.names.len());
    assert(flat.items.take(flat.names.len() as int) =~= flat.items);
}

/// Flattening is idempotent: what it returns is flat, and flattening that
/// again returns the same.
pub proof fn lemma_flatten_idempotent(d: Declared)
    requires
        d.wf(),
        flatten_spec(d) is Ok,
    ensures
        flatten_spec(d)->Ok_0.wf(),
        forall|g: int|
            0 <= g < d.names.len() ==> no_repeats(#[trigger] flatten_spec(d)->Ok_0.items[g]),
        flatten_spec(as_declared(flatten_spec(d)->Ok_0)) == flatten_spec(d),
{
    let flat = flatten_spec(d)->Ok_0;
    lemma_flatten_upto_each(d, d.names.len());
    assert forall|g: int| 0 <= g < flat.items.len() implies no_repeats(
        #[trigger] flat.items[g],
    ) by {
        lemma_flat_form_unfolds(d, g);
        lemma_dedup_no_repeats(spliced(d, flat.items, g, 0));
    }
    lemma_flat_is_fixed(flat);
}

} // verus!
