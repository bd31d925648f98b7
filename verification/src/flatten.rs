//! Flattening of declared dependency groups.
//!
//! A declared group lists requirements and inclusions of other groups. Its
//! flat form holds, in the order of declaration, its own requirements and, at
//! the place of each inclusion, the flat form of the group included; of the
//! requirements of one package only the first stays.

use crate::model::{
    GroupEntry, GroupEntryView, MetadataError, MetadataErrorView, RequirementSpec,
    RequirementSpecView,
};
use crate::name_map::{position, Entries, NameMap};
use crate::names::{name_less, GroupName, NameLike};
use vstd::prelude::*;
use vstd::set_lib::*;

verus! {

/// The groups as a manifest declares them.
pub type RawGroups = NameMap<GroupName, Vec<GroupEntry>>;

/// The groups with their inclusions resolved.
pub type FlatGroups = NameMap<GroupName, Vec<RequirementSpec>>;

/// What a manifest declares, as the contracts see it.
pub type Declared = Entries<Seq<GroupEntryView>>;

/// What flat groups hold, as the contracts see it.
pub type Flat = Entries<Seq<RequirementSpecView>>;

/// The list holds a requirement of the package.
pub open spec fn has_name(list: Seq<RequirementSpecView>, name: Seq<u8>) -> bool {
    exists|i: int| 0 <= i < list.len() && (#[trigger] list[i]).name == name
}

/// The list without the requirements whose package an earlier one names.
pub open spec fn dedup(list: Seq<RequirementSpecView>) -> Seq<RequirementSpecView>
    decreases list.len(),
{
    if list.len() == 0 {
        Seq::empty()
    } else if has_name(list.drop_last(), list.last().name) {
        dedup(list.drop_last())
    } else {
        dedup(list.drop_last()).push(list.last())
    }
}

/// The groups, by index, that are neither being expanded nor out of range.
pub open spec fn unvisited(n: nat, visiting: Set<int>) -> Set<int> {
    Set::new(|i: int| 0 <= i < n && !visiting.contains(i))
}

/// To start on one more group leaves fewer groups to visit.
pub proof fn lemma_unvisited_shrinks(n: nat, visiting: Set<int>, g: int)
    requires
        0 <= g < n,
        !visiting.contains(g),
    ensures
        unvisited(n, visiting).finite(),
        unvisited(n, visiting.insert(g)).len() < unvisited(n, visiting).len(),
{
    lemma_int_range(0, n as int);
    assert(unvisited(n, visiting).subset_of(set_int_range(0, n as int)));
    lemma_len_subset(unvisited(n, visiting), set_int_range(0, n as int));
    assert(unvisited(n, visiting.insert(g)) =~= unvisited(n, visiting).remove(g));
}

/// The flat form of group `g`, found while the groups in `visiting` are being
/// expanded: an inclusion of one of those is a cycle.
pub open spec fn expand_group(d: Declared, g: int, visiting: Set<int>) -> Result<
    Seq<RequirementSpecView>,
    MetadataErrorView,
>
    decreases unvisited(d.names.len(), visiting).len(), 0nat, 0nat,
{
    if !(0 <= g < d.names.len()) {
        Ok(Seq::empty())
    } else if visiting.contains(g) {
        Err(MetadataErrorView::CyclicGroupInclusion(d.names[g]))
    } else {
        proof {
            lemma_unvisited_shrinks(d.names.len(), visiting, g);
        }
        match expand_entries(d, g, 0, visiting.insert(g)) {
            Ok(list) => Ok(dedup(list)),
            Err(e) => Err(e),
        }
    }
}

/// What the entries of group `g` from index `from` on stand for, one after
/// another, or the first error met among them.
pub open spec fn expand_entries(d: Declared, g: int, from: int, visiting: Set<int>) -> Result<
    Seq<RequirementSpecView>,
    MetadataErrorView,
>
    decreases unvisited(d.names.len(), visiting).len(), 1nat, d.items[g].len() - from,
{
    if !(0 <= g < d.items.len()) || from < 0 || from >= d.items[g].len() {
        Ok(Seq::empty())
    } else {
        let head = match d.items[g][from] {
            GroupEntryView::Requirement(spec) => Ok(seq![spec]),
            GroupEntryView::IncludeGroup(name) => match position(d.names, name) {
                None => Err(MetadataErrorView::UnknownGroupReference(d.names[g], name)),
                Some(j) => expand_group(d, j, visiting),
            },
        };
        match head {
            Err(e) => Err(e),
            Ok(first) => match expand_entries(d, g, from + 1, visiting) {
                Err(e) => Err(e),
                Ok(rest) => Ok(first + rest),
            },
        }
    }
}

/// The flat forms of the first `n` groups, or the first error met.
pub open spec fn flatten_upto(d: Declared, n: nat) -> Result<
    Seq<Seq<RequirementSpecView>>,
    MetadataErrorView,
>
    decreases n,
{
    if n == 0 {
        Ok(Seq::empty())
    } else {
        match flatten_upto(d, (n - 1) as nat) {
            Err(e) => Err(e),
            Ok(lists) => match expand_group(d, n - 1, Set::empty()) {
                Err(e) => Err(e),
                Ok(list) => Ok(lists.push(list)),
            },
        }
    }
}

/// The flat form of every group, in the order of the names, or the first
/// error met on the way.
pub open spec fn flatten_spec(d: Declared) -> Result<Flat, MetadataErrorView> {
    match flatten_upto(d, d.names.len()) {
        Ok(lists) => Ok(Entries { names: d.names, items: lists }),
        Err(e) => Err(e),
    }
}

/// Removing repeats from a list with one more requirement at its end.
pub proof fn lemma_dedup_push(list: Seq<RequirementSpecView>, item: RequirementSpecView)
    ensures
        dedup(list.push(item)) == if has_name(list, item.name) {
            dedup(list)
        } else {
            dedup(list).push(item)
        },
{
    assert(list.push(item).drop_last() =~= list);
}

/// A list without its repeats names the same packages as the list.
pub proof fn lemma_dedup_names(list: Seq<RequirementSpecView>, name: Seq<u8>)
    ensures
        has_name(dedup(list), name) <==> has_name(list, name),
    decreases list.len(),
{
    if list.len() > 0 {
        let init = list.drop_last();
        let last = list.last();
        let kept = dedup(list);
        lemma_dedup_names(init, name);
        if has_name(list, name) && !has_name(kept, name) {
            let i = choose|i: int| 0 <= i < list.len() && (#[trigger] list[i]).name == name;
            if i < list.len() - 1 {
                assert(init[i].name == name);
                let j = choose|j: int|
                    0 <= j < dedup(init).len() && (#[trigger] dedup(init)[j]).name == name;
                assert(kept[j].name == name);
            } else if has_name(init, last.name) {
                assert(false);
            } else {
                assert(kept[kept.len() - 1].name == name);
            }
        }
        if has_name(kept, name) && !has_name(list, name) {
            let i = choose|i: int| 0 <= i < kept.len() && (#[trigger] kept[i]).name == name;
            if i < dedup(init).len() {
                assert(dedup(init)[i].name == name);
                let j = choose|j: int| 0 <= j < init.len() && (#[trigger] init[j]).name == name;
                assert(list[j].name == name);
            } else {
                assert(list[list.len() - 1].name == name);
            }
        }
    }
}

/// Every inclusion in a group of `done` names a group of `done`.
pub open spec fn closed(d: Declared, done: Set<int>) -> bool {
    forall|i: int, k: int|
        done.contains(i) && 0 <= i < d.items.len() && 0 <= k < d.items[i].len() ==> (
        #[trigger] d.items[i][k] matches GroupEntryView::IncludeGroup(name) ==> (position(
            d.names,
            name,
        ) matches Some(j) && done.contains(j)))
}

/// The flat form of a group depends on the groups being expanded only as far
/// as the group can reach them.
pub proof fn lemma_expand_group_same(
    d: Declared,
    g: int,
    v1: Set<int>,
    v2: Set<int>,
    done: Set<int>,
)
    requires
        d.names.len() == d.items.len(),
        closed(d, done),
        done.contains(g),
        forall|i: int| done.contains(i) ==> (v1.contains(i) <==> v2.contains(i)),
    ensures
        expand_group(d, g, v1) == expand_group(d, g, v2),
    decreases unvisited(d.names.len(), v1).len(), 0nat, 0nat,
{
    if 0 <= g < d.names.len() && !v1.contains(g) {
        lemma_unvisited_shrinks(d.names.len(), v1, g);
        lemma_expand_entries_same(d, g, 0, v1.insert(g), v2.insert(g), done);
    }
}

/// The same, of the entries of a group from one index on.
pub proof fn lemma_expand_entries_same(
    d: Declared,
    g: int,
    from: int,
    v1: Set<int>,
    v2: Set<int>,
    done: Set<int>,
)
    requires
        d.names.len() == d.items.len(),
        closed(d, done),
        done.contains(g),
        forall|i: int| done.contains(i) ==> (v1.contains(i) <==> v2.contains(i)),
    ensures
        expand_entries(d, g, from, v1) == expand_entries(d, g, from, v2),
    decreases unvisited(d.names.len(), v1).len(), 1nat, d.items[g].len() - from,
{
    if 0 <= g < d.items.len() && 0 <= from < d.items[g].len() {
        match d.items[g][from] {
            GroupEntryView::Requirement(spec) => {},
            GroupEntryView::IncludeGroup(name) => {
                match position(d.names, name) {
                    Some(j) => {
                        lemma_expand_group_same(d, j, v1, v2, done);
                    },
                    None => {},
                }
            },
        }
        lemma_expand_entries_same(d, g, from + 1, v1, v2, done);
    }
}

/// What the outcome of flattening holds.
pub open spec fn flattened_view(r: Result<FlatGroups, MetadataError>) -> Result<
    Flat,
    MetadataErrorView,
> {
    match r {
        Ok(flat) => Ok(flat.deep_view()),
        Err(e) => Err(e.deep_view()),
    }
}

/// Adds the requirement to the list unless the list names its package already.
fn push_unique(out: &mut Vec<RequirementSpec>, item: RequirementSpec)
    ensures
        final(out).deep_view() == if has_name(old(out).deep_view(), item.name@) {
            old(out).deep_view()
        } else {
            old(out).deep_view().push(item.deep_view())
        },
{
    let mut i: usize = 0;
    while i < out.len()
        invariant
            i <= out.len(),
            out@ == old(out)@,
            forall|t: int| 0 <= t < i ==> (#[trigger] out.deep_view()[t]).name != item.name@,
        decreases out.len() - i,
    {
        if out[i].name.same(&item.name) {
            assert(out.deep_view()[i as int].name == item.name@);
            return ;
        }
        i += 1;
    }
    out.push(item);
    assert(out.deep_view() =~= old(out).deep_view().push(item.deep_view()));
}

/// Adds the requirements of `list` in order, each unless the list names its
/// package already.
fn extend_unique(
    out: &mut Vec<RequirementSpec>,
    list: &Vec<RequirementSpec>,
    Ghost(acc): Ghost<Seq<RequirementSpecView>>,
)
    requires
        old(out).deep_view() == dedup(acc),
    ensures
        final(out).deep_view() == dedup(acc + list.deep_view()),
{
    let mut t: usize = 0;
    assert(acc + list.deep_view().take(0) =~= acc);
    while t < list.len()
        invariant
            t <= list.len(),
            out.deep_view() == dedup(acc + list.deep_view().take(t as int)),
        decreases list.len() - t,
    {
        let ghost seen = acc + list.deep_view().take(t as int);
        let item = list[t].clone();
        proof {
            lemma_dedup_push(seen, item.deep_view());
            lemma_dedup_names(seen, item.name@);
            assert(seen.push(item.deep_view()) =~= acc + list.deep_view().take(t + 1));
        }
        push_unique(out, item);
        t += 1;
    }
    assert(list.deep_view().take(list.len() as int) =~= list.deep_view());
}

/// Once a group fails, the flat forms of the groups up to any later one fail
/// in the same way.
proof fn lemma_flatten_upto_fails(d: Declared, g: nat, n: nat)
    requires
        g < n,
        flatten_upto(d, g) is Ok,
        expand_group(d, g as int, Set::empty()) is Err,
    ensures
        flatten_upto(d, n) == Err::<Seq<Seq<RequirementSpecView>>, MetadataErrorView>(
            expand_group(d, g as int, Set::empty())->Err_0,
        ),
    decreases n,
{
    if n > g + 1 {
        lemma_flatten_upto_fails(d, g, (n - 1) as nat);
    }
}

/// The groups, by index, that are marked in the list.
spec fn marked(stack: Seq<bool>) -> Set<int> {
    Set::new(|i: int| 0 <= i < stack.len() && stack[i])
}

/// The groups, by index, whose flat form is kept.
spec fn kept(memo: Seq<Option<Vec<RequirementSpec>>>) -> Set<int> {
    Set::new(|i: int| 0 <= i < memo.len() && memo[i] is Some)
}

/// What is kept is the flat form of its group, and the groups whose flat form
/// is kept include no others.
spec fn memo_inv(d: Declared, memo: Seq<Option<Vec<RequirementSpec>>>) -> bool {
    &&& memo.len() == d.names.len()
    &&& closed(d, kept(memo))
    &&& forall|i: int|
        0 <= i < memo.len() && (#[trigger] memo[i]) is Some ==> expand_group(d, i, Set::empty())
            == Ok::<Seq<RequirementSpecView>, MetadataErrorView>(memo[i]->0.deep_view())
}

/// What was kept before is kept still.
spec fn memo_grows(
    before: Seq<Option<Vec<RequirementSpec>>>,
    after: Seq<Option<Vec<RequirementSpec>>>,
) -> bool {
    &&& before.len() == after.len()
    &&& forall|i: int|
        0 <= i < before.len() && (#[trigger] before[i]) is Some ==> after[i] == before[i]
}

/// No group that is being expanded has its flat form kept.
spec fn apart(stack: Seq<bool>, memo: Seq<Option<Vec<RequirementSpec>>>) -> bool {
    forall|i: int|
        0 <= i < stack.len() && 0 <= i < memo.len() && #[trigger] stack[i] ==> memo[i] is None
}

/// Finds the flat form of group `g` and keeps it in `memo`, while the groups
/// marked in `stack` are being expanded.
fn resolve(
    raw: &RawGroups,
    g: usize,
    stack: &mut Vec<bool>,
    memo: &mut Vec<Option<Vec<RequirementSpec>>>,
) -> (r: Result<(), MetadataError>)
    requires
        raw.wf(),
        g < raw.names().len(),
        old(stack).len() == raw.names().len(),
        memo_inv(raw.deep_view(), old(memo)@),
        apart(old(stack)@, old(memo)@),
    ensures
        final(stack).len() == old(stack).len(),
        memo_inv(raw.deep_view(), final(memo)@),
        memo_grows(old(memo)@, final(memo)@),
        match r {
            Ok(()) => {
                &&& final(stack)@ == old(stack)@
                &&& apart(final(stack)@, final(memo)@)
                &&& final(memo)@[g as int] is Some
                &&& expand_group(raw.deep_view(), g as int, marked(old(stack)@)) == Ok::<
                    Seq<RequirementSpecView>,
                    MetadataErrorView,
                >(final(memo)@[g as int]->0.deep_view())
            },
            Err(e) => expand_group(raw.deep_view(), g as int, marked(old(stack)@)) == Err::<
                Seq<RequirementSpecView>,
                MetadataErrorView,
            >(e.deep_view()),
        },
    decreases unvisited(raw.names().len(), marked(old(stack)@)).len(),
{
    let ghost d = raw.deep_view();
    let ghost n = raw.names().len();
    let ghost v0 = marked(stack@);
    if stack[g] {
        return Err(MetadataError::CyclicGroupInclusion(raw.name_at(g).clone()));
    }
    if memo[g].is_some() {
        proof {
            lemma_expand_group_same(d, g as int, v0, Set::empty(), kept(memo@));
        }
        return Ok(());
    }
    stack[g] = true;
    let ghost v1 = v0.insert(g as int);
    proof {
        assert(marked(stack@) =~= v1);
        lemma_unvisited_shrinks(n, v0, g as int);
    }
    let entries = raw.item_at(g);
    let mut out: Vec<RequirementSpec> = Vec::new();
    let ghost mut acc: Seq<RequirementSpecView> = Seq::empty();
    let mut k: usize = 0;
    assert(out.deep_view() =~= dedup(acc));
    while k < entries.len()
        invariant
            raw.wf(),
            d == raw.deep_view(),
            n == raw.names().len(),
            g < n,
            stack.len() == n,
            old(stack).len() == n,
            *entries == raw.items()[g as int],
            k <= entries.len(),
            stack@ == old(stack)@.update(g as int, true),
            !old(stack)@[g as int],
            marked(stack@) == v1,
            v0 == marked(old(stack)@),
            v1 == v0.insert(g as int),
            unvisited(n, v1).len() < unvisited(n, v0).len(),
            memo_inv(d, memo@),
            memo_grows(old(memo)@, memo@),
            apart(stack@, memo@),
            out.deep_view() == dedup(acc),
            expand_entries(d, g as int, 0, v1) == match expand_entries(d, g as int, k as int, v1) {
                Ok(rest) => Ok(acc + rest),
                Err(e) => Err(e),
            },
            forall|t: int|
                0 <= t < k ==> (#[trigger] d.items[g as int][t]
                    matches GroupEntryView::IncludeGroup(name) ==> (position(d.names, name)
                    matches Some(j) && memo@[j] is Some)),
        decreases entries.len() - k,
    {
        assert(d.items[g as int][k as int] == entries@[k as int].deep_view());
        match &entries[k] {
            GroupEntry::Requirement(spec) => {
                let item = spec.clone();
                proof {
                    lemma_dedup_push(acc, item.deep_view());
                    lemma_dedup_names(acc, item.name@);
                    match expand_entries(d, g as int, k + 1, v1) {
                        Ok(rest) => {
                            assert(acc + (seq![item.deep_view()] + rest) =~= acc.push(
                                item.deep_view(),
                            ) + rest);
                        },
                        Err(e) => {},
                    }
                }
                push_unique(&mut out, item);
                proof {
                    acc = acc.push(item.deep_view());
                }
            },
            GroupEntry::IncludeGroup(name) => {
                match raw.find(name) {
                    None => {
                        return Err(
                            MetadataError::UnknownGroupReference(
                                raw.name_at(g).clone(),
                                name.clone(),
                            ),
                        );
                    },
                    Some(j) => {
                        match resolve(raw, j, stack, memo) {
                            Err(e) => {
                                return Err(e);
                            },
                            Ok(()) => {
                                let ghost list = memo@[j as int]->0.deep_view();
                                proof {
                                    match expand_entries(d, g as int, k + 1, v1) {
                                        Ok(rest) => {
                                            assert(acc + (list + rest) =~= (acc + list) + rest);
                                        },
                                        Err(e) => {},
                                    }
                                }
                                match &memo[j] {
                                    Some(included) => {
                                        extend_unique(&mut out, included, Ghost(acc));
                                    },
                                    None => {},
                                }
                                proof {
                                    acc = acc + list;
                                }
                            },
                        }
                    },
                }
            },
        }
        k += 1;
    }
    stack[g] = false;
    assert(stack@ =~= old(stack)@);
    let ghost memo_before = memo@;
    let ghost out_view = out.deep_view();
    memo[g] = Some(out);
    proof {
        assert(acc + Seq::<RequirementSpecView>::empty() =~= acc);
        assert(expand_group(d, g as int, v0) == Ok::<Seq<RequirementSpecView>, MetadataErrorView>(
            out_view,
        ));
        let done = kept(memo@);
        assert forall|i: int, t: int|
            done.contains(i) && 0 <= i < d.items.len() && 0 <= t < d.items[i].len() implies (
        #[trigger] d.items[i][t] matches GroupEntryView::IncludeGroup(name) ==> (position(
            d.names,
            name,
        ) matches Some(j) && done.contains(j))) by {
            if i != g as int {
                assert(kept(memo_before).contains(i));
                match d.items[i][t] {
                    GroupEntryView::IncludeGroup(name) => {
                        let j = position(d.names, name)->0;
                        assert(kept(memo_before).contains(j));
                    },
                    GroupEntryView::Requirement(spec) => {},
                }
            }
        }
        lemma_expand_group_same(d, g as int, v0, Set::empty(), done);
    }
    Ok(())
}

/// The flat form of the declared groups.
///
/// Each group is expanded in the order of the names. An inclusion of a group
/// that is not declared gives `UnknownGroupReference` with the including
/// group and the missing one; an inclusion that leads back to a group under
/// expansion gives `CyclicGroupInclusion` with that group. The first error
/// met ends the work.
pub fn flatten(raw: &RawGroups) -> (r: Result<FlatGroups, MetadataError>)
    ensures
        flattened_view(r) == flatten_spec(raw.deep_view()),
        r matches Ok(flat) ==> flat.wf(),
{
    proof {
        use_type_invariant(raw);
    }
    let n: usize = raw.len();
    let ghost d = raw.deep_view();
    let mut stack: Vec<bool> = Vec::new();
    let mut memo: Vec<Option<Vec<RequirementSpec>>> = Vec::new();
    let mut i: usize = 0;
    while i < n
        invariant
            i <= n,
            stack.len() == i,
            memo.len() == i,
            forall|t: int| 0 <= t < i ==> !#[trigger] stack@[t],
            forall|t: int| 0 <= t < i ==> (#[trigger] memo@[t]) is None,
        decreases n - i,
    {
        stack.push(false);
        memo.push(None);
        i += 1;
    }
    assert(marked(stack@) =~= Set::<int>::empty());
    let mut g: usize = 0;
    assert(Seq::new(0nat, |t: int| memo@[t]->0.deep_view()) =~= Seq::<
        Seq<RequirementSpecView>,
    >::empty());
    while g < n
        invariant
            raw.wf(),
            d == raw.deep_view(),
            n == raw.names().len(),
            g <= n,
            stack.len() == n,
            marked(stack@) == Set::<int>::empty(),
            memo_inv(d, memo@),
            apart(stack@, memo@),
            forall|t: int| 0 <= t < g ==> (#[trigger] memo@[t]) is Some,
            flatten_upto(d, g as nat) == Ok::<Seq<Seq<RequirementSpecView>>, MetadataErrorView>(
                Seq::new(g as nat, |t: int| memo@[t]->0.deep_view()),
            ),
        decreases n - g,
    {
        let ghost before = memo@;
        match resolve(raw, g, &mut stack, &mut memo) {
            Err(e) => {
                proof {
                    lemma_flatten_upto_fails(d, g as nat, n as nat);
                }
                return Err(e);
            },
            Ok(()) => {
                proof {
                    assert forall|t: int| 0 <= t < g implies (#[trigger] memo@[t]) is Some by {
                        assert(before[t] is Some);
                    }
                    assert(Seq::new(g as nat, |t: int| before[t]->0.deep_view()).push(
                        memo@[g as int]->0.deep_view(),
                    ) =~= Seq::new((g + 1) as nat, |t: int| memo@[t]->0.deep_view())) by {
                        assert forall|t: int| 0 <= t < g implies before[t]->0.deep_view()
                            == memo@[t]->0.deep_view() by {
                            assert(before[t] is Some);
                        }
                    }
                }
            },
        }
        g += 1;
    }
    let ghost lists = Seq::new(n as nat, |t: int| memo@[t]->0.deep_view());
    let mut flat: FlatGroups = NameMap::new();
    let mut h: usize = 0;
    assert(flat.deep_view().items =~= lists.take(0));
    while h < n
        invariant
            raw.wf(),
            n == raw.names().len(),
            h <= n,
            memo.len() == n,
            lists.len() == n,
            forall|t: int|
                h <= t < n ==> (#[trigger] memo@[t]) is Some && memo@[t]->0.deep_view() == lists[t],
            flat.wf(),
            flat.names() == raw.names().take(h as int),
            flat.deep_view().items == lists.take(h as int),
        decreases n - h,
    {
        let mut found: Option<Vec<RequirementSpec>> = None;
        core::mem::swap(&mut memo[h], &mut found);
        let list = match found {
            Some(list) => list,
            None => Vec::new(),
        };
        let ghost before = flat.deep_view().items;
        let name = raw.name_at(h).clone();
        assert forall|t: int| 0 <= t < flat.names().len() implies name_less(
            #[trigger] flat.names()[t],
            name.name_bytes(),
        ) by {
            assert(flat.names()[t] == raw.names()[t]);
        }
        flat.push_last(name, list);
        proof {
            assert(flat.names() =~= raw.names().take(h + 1));
            assert(flat.deep_view().items =~= before.push(list.deep_view()));
            assert(before.push(lists[h as int]) =~= lists.take(h + 1));
        }
        h += 1;
    }
    proof {
        assert(raw.names().take(n as int) =~= raw.names());
        assert(lists.take(n as int) =~= lists);
    }
    Ok(flat)
}

} // verus!
