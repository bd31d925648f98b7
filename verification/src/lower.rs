//! Lowering of flat groups: every requirement gets its source.
//!
//! A requirement to which no source override applies keeps its plain form.
//! The source of a requirement to which one applies is resolved outside
//! this library, by a resolver of the caller's. There are two ways to lower:
//!
//! - [`lower`] takes the resolver as a function and calls it where a
//!   source is to be resolved;
//! - [`begin`] and [`PendingLowering::supply`] cut the work into steps, for
//!   a resolver that cannot be called from here: a step is either finished,
//!   or it waits for the source of one requirement, which the caller
//!   resolves and hands back.

use crate::flatten::{Flat, FlatGroups};
use crate::model::{
    plain_form, LoweringError, MetadataError, MetadataErrorView, Requirement, RequirementSpec,
    RequirementSpecView, RequirementView, SourceOverride, SourceOverrideView, SourceScope,
    SourceScopeView, SourceStrategy,
};
use crate::name_map::{Entries, NameMap};
use crate::names::{name_less, GroupName, NameLike, PackageName};
use crate::validate::{Overrides, SourceOverrideTable};
use vstd::prelude::*;

verus! {

/// The lowered requirements of each group.
pub type LoweredGroups = NameMap<GroupName, Vec<Requirement>>;

/// Whether an override with this scope applies to the requirements of a
/// group. One scoped to an extra never does: a group has no extra.
pub open spec fn scope_applies(scope: SourceScopeView, group: Seq<u8>) -> bool {
    match scope {
        SourceScopeView::Unscoped => true,
        SourceScopeView::Group(target) => target == group,
        SourceScopeView::Extra(extra) => false,
    }
}

/// The index, from `from` on, of the first override that applies to the group.
pub open spec fn first_applicable(sources: Seq<SourceOverrideView>, group: Seq<u8>, from: int)
    -> Option<int>
    decreases sources.len() - from,
{
    if from < 0 || from >= sources.len() {
        None
    } else if scope_applies(sources[from].scope, group) {
        Some(from)
    } else {
        first_applicable(sources, group, from + 1)
    }
}

/// The override that decides the source of a package in a group: the first
/// of the package's overrides that applies to the group.
pub open spec fn select_override(table: Overrides, package: Seq<u8>, group: Seq<u8>) -> Option<
    SourceOverrideView,
> {
    match table.lookup(package) {
        None => None,
        Some(sources) => match first_applicable(sources, group, 0) {
            Some(i) => Some(sources[i]),
            None => None,
        },
    }
}

/// The override that decides the source of requirement `i` of group `g`, if
/// any does.
pub open spec fn override_at(flat: Flat, table: Overrides, g: int, i: int) -> Option<
    SourceOverrideView,
> {
    select_override(table, flat.items[g][i].name, flat.names[g])
}

/// How far the lowering has come.
pub struct Progress {
    /// The index of the group in work.
    pub group: int,
    /// The index, in that group, of the next requirement.
    pub item: int,
    /// The lowered requirements of the groups before it.
    pub finished: Seq<Seq<RequirementView>>,
    /// The lowered requirements of the group in work.
    pub current: Seq<RequirementView>,
}

/// Where the lowering stops next: at the first requirement, from `at` on, to
/// which an override applies, or behind the last group. Every requirement
/// passed on the way is kept in its plain form.
pub open spec fn advance(flat: Flat, table: Overrides, at: Progress) -> Progress
    decreases flat.items.len() - at.group, flat.items[at.group].len() - at.item,
{
    if at.group < 0 || at.group >= flat.items.len() {
        at
    } else if at.item < 0 || at.item >= flat.items[at.group].len() {
        advance(
            flat,
            table,
            Progress {
                group: at.group + 1,
                item: 0,
                finished: at.finished.push(at.current),
                current: Seq::empty(),
            },
        )
    } else if override_at(flat, table, at.group, at.item) is Some {
        at
    } else {
        advance(
            flat,
            table,
            Progress {
                group: at.group,
                item: at.item + 1,
                finished: at.finished,
                current: at.current.push(plain_form(flat.items[at.group][at.item])),
            },
        )
    }
}

/// What is asked for requirement `i` of group `g`, to which an override
/// applies.
pub open spec fn request_for(flat: Flat, table: Overrides, g: int, i: int) -> LoweringRequestView {
    LoweringRequestView {
        requirement: flat.items[g][i],
        group: flat.names[g],
        source: override_at(flat, table, g, i)->0,
    }
}

/// A judgement on resolved requirements: whether the second argument may
/// stand where the first was asked for.
pub type Accepts = spec_fn(LoweringRequestView, RequirementView) -> bool;

/// The judgement that lets every resolved requirement stand.
pub open spec fn any_answer() -> Accepts {
    |request: LoweringRequestView, answer: RequirementView| true
}

/// The first `upto` requirements of group `g` are lowered: each to which no
/// override applies has its plain form, and each other stands for what was
/// asked for it.
pub open spec fn group_lowered(
    flat: Flat,
    table: Overrides,
    g: int,
    lowered: Seq<RequirementView>,
    upto: int,
    accepts: Accepts,
) -> bool {
    &&& lowered.len() == upto
    &&& forall|i: int|
        0 <= i < upto ==> if override_at(flat, table, g, i) is None {
            #[trigger] lowered[i] == plain_form(flat.items[g][i])
        } else {
            accepts(request_for(flat, table, g, i), lowered[i])
        }
}

/// What holds wherever a lowering stands: the groups before the one in work
/// are lowered in full, and the one in work as far as the work has come.
pub open spec fn lowered_upto(
    flat: Flat,
    table: Overrides,
    at: Progress,
    accepts: Accepts,
) -> bool {
    &&& 0 <= at.group <= flat.items.len()
    &&& at.finished.len() == at.group
    &&& forall|g: int|
        0 <= g < at.group ==> group_lowered(
            flat,
            table,
            g,
            #[trigger] at.finished[g],
            flat.items[g].len() as int,
            accepts,
        )
    &&& at.group < flat.items.len() ==> 0 <= at.item <= flat.items[at.group].len()
        && group_lowered(flat, table, at.group, at.current, at.item, accepts)
}

/// A lowering stops behind the last group or at a requirement to which an
/// override applies, not before the place that it went on from, and what it
/// has lowered by then is lowered as said.
pub proof fn lemma_advance_lowers(flat: Flat, table: Overrides, at: Progress, accepts: Accepts)
    requires
        lowered_upto(flat, table, at, accepts),
    ensures
        lowered_upto(flat, table, advance(flat, table, at), accepts),
        advance(flat, table, at).group >= at.group,
        advance(flat, table, at).group == at.group && at.group < flat.items.len() ==> advance(
            flat,
            table,
            at,
        ).item >= at.item,
        advance(flat, table, at).group < flat.items.len() ==> {
            let stop = advance(flat, table, at);
            &&& 0 <= stop.item < flat.items[stop.group].len()
            &&& override_at(flat, table, stop.group, stop.item) is Some
        },
    decreases flat.items.len() - at.group, flat.items[at.group].len() - at.item,
{
    if at.group < flat.items.len() {
        if at.item >= flat.items[at.group].len() {
            let next = Progress {
                group: at.group + 1,
                item: 0,
                finished: at.finished.push(at.current),
                current: Seq::empty(),
            };
            assert forall|g: int| 0 <= g < next.group implies group_lowered(
                flat,
                table,
                g,
                #[trigger] next.finished[g],
                flat.items[g].len() as int,
                accepts,
            ) by {
                if g < at.group {
                    assert(next.finished[g] == at.finished[g]);
                }
            }
            lemma_advance_lowers(flat, table, next, accepts);
        } else if override_at(flat, table, at.group, at.item) is None {
            let next = Progress {
                group: at.group,
                item: at.item + 1,
                finished: at.finished,
                current: at.current.push(plain_form(flat.items[at.group][at.item])),
            };
            assert forall|i: int| 0 <= i < next.item implies if override_at(
                flat,
                table,
                next.group,
                i,
            ) is None {
                #[trigger] next.current[i] == plain_form(flat.items[next.group][i])
            } else {
                accepts(request_for(flat, table, next.group, i), next.current[i])
            } by {
                if i < at.item {
                    assert(next.current[i] == at.current[i]);
                }
            }
            lemma_advance_lowers(flat, table, next, accepts);
        }
    }
}

/// A lowering that has taken the resolved requirement it waited for stands
/// as said, where the requirement may stand for what was asked.
pub proof fn lemma_supply_lowers(
    flat: Flat,
    table: Overrides,
    at: Progress,
    resolved: RequirementView,
    accepts: Accepts,
)
    requires
        lowered_upto(flat, table, at, accepts),
        0 <= at.group < flat.items.len(),
        0 <= at.item < flat.items[at.group].len(),
        override_at(flat, table, at.group, at.item) is Some,
        accepts(request_for(flat, table, at.group, at.item), resolved),
    ensures
        lowered_upto(
            flat,
            table,
            Progress {
                group: at.group,
                item: at.item + 1,
                finished: at.finished,
                current: at.current.push(resolved),
            },
            accepts,
        ),
{
    let next = at.current.push(resolved);
    assert forall|i: int| 0 <= i < at.item + 1 implies if override_at(flat, table, at.group, i)
        is None {
        #[trigger] next[i] == plain_form(flat.items[at.group][i])
    } else {
        accepts(request_for(flat, table, at.group, i), next[i])
    } by {
        if i < at.item {
            assert(next[i] == at.current[i]);
        }
    }
}

/// The start of a lowering.
pub open spec fn start() -> Progress {
    Progress { group: 0, item: 0, finished: Seq::empty(), current: Seq::empty() }
}

/// The plain form of every requirement of every group.
pub open spec fn plain_groups(items: Seq<Seq<RequirementSpecView>>) -> Seq<Seq<RequirementView>> {
    items.map_values(
        |list: Seq<RequirementSpecView>|
            list.map_values(|spec: RequirementSpecView| plain_form(spec)),
    )
}

/// The groups of a project with the source of every requirement resolved.
#[derive(Debug, PartialEq, Eq)]
pub struct SourcedDependencyGroups {
    /// The name of the project, if it has one.
    pub name: Option<PackageName>,
    /// The requirements of each group, in the order of the group names.
    pub dependency_groups: LoweredGroups,
}

/// What [`SourcedDependencyGroups`] hold.
pub struct SourcedView {
    pub name: Option<Seq<u8>>,
    pub dependency_groups: Entries<Seq<RequirementView>>,
}

/// What an optional package name holds.
pub open spec fn name_view(name: Option<PackageName>) -> Option<Seq<u8>> {
    match name {
        Some(name) => Some(name@),
        None => None,
    }
}

impl DeepView for SourcedDependencyGroups {
    type V = SourcedView;

    open spec fn deep_view(&self) -> SourcedView {
        SourcedView {
            name: name_view(self.name),
            dependency_groups: self.dependency_groups.deep_view(),
        }
    }
}

/// What is asked of the resolver of sources: the source of one requirement
/// of one group, under the override that applies to it.
#[derive(Debug, PartialEq, Eq)]
pub struct LoweringRequest {
    /// The requirement as declared.
    pub requirement: RequirementSpec,
    /// The group that holds it.
    pub group: GroupName,
    /// The override that applies.
    pub source: SourceOverride,
}

/// What a [`LoweringRequest`] holds.
pub struct LoweringRequestView {
    pub requirement: RequirementSpecView,
    pub group: Seq<u8>,
    pub source: SourceOverrideView,
}

impl DeepView for LoweringRequest {
    type V = LoweringRequestView;

    open spec fn deep_view(&self) -> LoweringRequestView {
        LoweringRequestView {
            requirement: self.requirement.deep_view(),
            group: self.group@,
            source: self.source.deep_view(),
        }
    }
}

/// What is asked where the lowering has stopped at a requirement.
pub open spec fn request_at(flat: Flat, table: Overrides, at: Progress) -> LoweringRequestView {
    request_for(flat, table, at.group, at.item)
}

/// What a lowering that waits for a source holds.
pub struct PendingView {
    /// The name of the project.
    pub name: Option<Seq<u8>>,
    /// The flat groups that are lowered.
    pub flat: Flat,
    /// The source overrides.
    pub table: Overrides,
    /// Where the lowering waits.
    pub at: Progress,
}

/// A lowering that waits for the source of one requirement.
#[derive(Debug)]
pub struct PendingLowering {
    name: Option<PackageName>,
    groups: FlatGroups,
    sources: SourceOverrideTable,
    group: usize,
    item: usize,
    finished: LoweredGroups,
    current: Vec<Requirement>,
    request: LoweringRequest,
}

/// A step of a lowering.
#[derive(Debug)]
pub enum LoweringStep {
    /// The source of one requirement is to be resolved.
    Pending(PendingLowering),
    /// Every requirement has its source.
    Done(SourcedDependencyGroups),
}

/// The index of the first override that applies to the group.
fn find_applicable(sources: &Vec<SourceOverride>, group: &GroupName) -> (r: Option<usize>)
    ensures
        match r {
            Some(i) => first_applicable(sources.deep_view(), group@, 0) == Some(i as int)
                && i < sources.len(),
            None => first_applicable(sources.deep_view(), group@, 0) is None,
        },
{
    let mut i: usize = 0;
    while i < sources.len()
        invariant
            i <= sources.len(),
            first_applicable(sources.deep_view(), group@, 0) == first_applicable(
                sources.deep_view(),
                group@,
                i as int,
            ),
        decreases sources.len() - i,
    {
        assert(sources.deep_view()[i as int] == sources@[i as int].deep_view());
        let applies = match &sources[i].scope {
            SourceScope::Unscoped => true,
            SourceScope::Group(target) => target.same(group),
            SourceScope::Extra(extra) => false,
        };
        if applies {
            return Some(i);
        }
        i += 1;
    }
    None
}

/// The override that decides the source of a package in a group, if any does.
pub fn select_source<'a>(
    sources: &'a SourceOverrideTable,
    package: &PackageName,
    group: &GroupName,
) -> (r: Option<&'a SourceOverride>)
    ensures
        match r {
            Some(source) => select_override(sources.deep_view(), package@, group@) == Some(
                source.deep_view(),
            ),
            None => select_override(sources.deep_view(), package@, group@) is None,
        },
{
    proof {
        use_type_invariant(sources);
    }
    match sources.get(package) {
        None => None,
        Some(list) => match find_applicable(list, group) {
            Some(i) => {
                assert(list.deep_view()[i as int] == list@[i as int].deep_view());
                Some(&list[i])
            },
            None => None,
        },
    }
}

impl PendingLowering {
    #[verifier::type_invariant]
    spec fn inv(&self) -> bool {
        let flat = self.groups.deep_view();
        let table = self.sources.deep_view();
        &&& self.groups.wf()
        &&& self.sources.wf()
        &&& self.finished.wf()
        &&& self.group < flat.items.len()
        &&& self.item < flat.items[self.group as int].len()
        &&& self.finished.names() == flat.names.take(self.group as int)
        &&& override_at(flat, table, self.group as int, self.item as int) is Some
        &&& self.request.deep_view() == request_at(flat, table, self.progress())
        &&& lowered_upto(flat, table, self.progress(), any_answer())
    }

    /// How far the lowering has come.
    pub closed spec fn progress(&self) -> Progress {
        Progress {
            group: self.group as int,
            item: self.item as int,
            finished: self.finished.deep_view().items,
            current: self.current.deep_view(),
        }
    }

    /// What the lowering holds.
    pub closed spec fn view(&self) -> PendingView {
        PendingView {
            name: name_view(self.name),
            flat: self.groups.deep_view(),
            table: self.sources.deep_view(),
            at: self.progress(),
        }
    }

    /// What is to be resolved.
    pub fn request(&self) -> (r: &LoweringRequest)
        ensures
            r.deep_view() == request_at(self@.flat, self@.table, self@.at),
            0 <= self@.at.group < self@.flat.items.len(),
            0 <= self@.at.item < self@.flat.items[self@.at.group].len(),
            override_at(self@.flat, self@.table, self@.at.group, self@.at.item) is Some,
            lowered_upto(self@.flat, self@.table, self@.at, any_answer()),
    {
        proof {
            use_type_invariant(self);
        }
        &self.request
    }
}

/// The step `step` is what a lowering of `flat` shows once it has stopped at
/// `at`: finished with the groups lowered, or waiting there.
pub open spec fn is_step(
    step: LoweringStep,
    name: Option<Seq<u8>>,
    flat: Flat,
    table: Overrides,
    at: Progress,
) -> bool {
    if at.group >= flat.items.len() {
        step matches LoweringStep::Done(out) && out.dependency_groups.wf() && out.deep_view()
            == (SourcedView {
            name,
            dependency_groups: Entries { names: flat.names, items: at.finished },
        })
    } else {
        step matches LoweringStep::Pending(pending) && pending@ == (PendingView {
            name,
            flat,
            table,
            at,
        })
    }
}

/// Lowers on from the given place until a source is to be resolved or all is done.
fn run(
    name: Option<PackageName>,
    groups: FlatGroups,
    sources: SourceOverrideTable,
    group: usize,
    item: usize,
    finished: LoweredGroups,
    current: Vec<Requirement>,
) -> (r: LoweringStep)
    requires
        groups.wf(),
        sources.wf(),
        finished.wf(),
        group <= groups.names().len(),
        group < groups.names().len() ==> item <= groups.items()[group as int].len(),
        finished.names() == groups.names().take(group as int),
        lowered_upto(
            groups.deep_view(),
            sources.deep_view(),
            Progress {
                group: group as int,
                item: item as int,
                finished: finished.deep_view().items,
                current: current.deep_view(),
            },
            any_answer(),
        ),
    ensures
        is_step(
            r,
            name_view(name),
            groups.deep_view(),
            sources.deep_view(),
            advance(
                groups.deep_view(),
                sources.deep_view(),
                Progress {
                    group: group as int,
                    item: item as int,
                    finished: finished.deep_view().items,
                    current: current.deep_view(),
                },
            ),
        ),
{
    let ghost flat = groups.deep_view();
    let ghost table = sources.deep_view();
    let ghost origin = Progress {
        group: group as int,
        item: item as int,
        finished: finished.deep_view().items,
        current: current.deep_view(),
    };
    proof {
        lemma_advance_lowers(flat, table, origin, any_answer());
    }
    let n: usize = groups.len();
    let mut g: usize = group;
    let mut i: usize = item;
    let mut done = finished;
    let mut list = current;
    while g < n
        invariant
            groups.wf(),
            lowered_upto(flat, table, advance(flat, table, origin), any_answer()),
            sources.wf(),
            done.wf(),
            flat == groups.deep_view(),
            table == sources.deep_view(),
            origin == (Progress {
                group: group as int,
                item: item as int,
                finished: finished.deep_view().items,
                current: current.deep_view(),
            }),
            n == groups.names().len(),
            g <= n,
            g < n ==> i <= groups.items()[g as int].len(),
            done.names() == groups.names().take(g as int),
            advance(flat, table, origin) == advance(
                flat,
                table,
                Progress {
                    group: g as int,
                    item: i as int,
                    finished: done.deep_view().items,
                    current: list.deep_view(),
                },
            ),
        decreases n - g, groups.items()[g as int].len() - i,
    {
        let specs = groups.item_at(g);
        assert(flat.items[g as int] == specs.deep_view());
        if i >= specs.len() {
            let mut lowered: Vec<Requirement> = Vec::new();
            core::mem::swap(&mut lowered, &mut list);
            let ghost before = done.deep_view().items;
            let key = groups.name_at(g).clone();
            assert forall|t: int| 0 <= t < done.names().len() implies name_less(
                #[trigger] done.names()[t],
                key.name_bytes(),
            ) by {
                assert(done.names()[t] == groups.names()[t]);
            }
            done.push_last(key, lowered);
            proof {
                assert(done.names() =~= groups.names().take(g + 1));
                assert(done.deep_view().items =~= before.push(lowered.deep_view()));
                assert(list.deep_view() =~= Seq::<RequirementView>::empty());
            }
            g += 1;
            i = 0;
        } else {
            let spec = &specs[i];
            assert(flat.items[g as int][i as int] == spec.deep_view());
            match select_source(&sources, &spec.name, groups.name_at(g)) {
                Some(source) => {
                    let request = LoweringRequest {
                        requirement: spec.clone(),
                        group: groups.name_at(g).clone(),
                        source: source.clone(),
                    };
                    let ghost at = Progress {
                        group: g as int,
                        item: i as int,
                        finished: done.deep_view().items,
                        current: list.deep_view(),
                    };
                    assert(advance(flat, table, origin) == at);
                    return LoweringStep::Pending(
                        PendingLowering {
                            name,
                            groups,
                            sources,
                            group: g,
                            item: i,
                            finished: done,
                            current: list,
                            request,
                        },
                    );
                },
                None => {
                    let ghost before = list.deep_view();
                    let plain = spec.clone().into_plain();
                    list.push(plain);
                    assert(list.deep_view() =~= before.push(plain_form(spec.deep_view())));
                    i += 1;
                },
            }
        }
    }
    proof {
        assert(groups.names().take(n as int) =~= groups.names());
    }
    LoweringStep::Done(SourcedDependencyGroups { name, dependency_groups: done })
}

/// The plain form of the requirements of every group.
fn lower_plain(groups: FlatGroups) -> (r: LoweredGroups)
    requires
        groups.wf(),
    ensures
        r.wf(),
        r.deep_view() == (Entries {
            names: groups.deep_view().names,
            items: plain_groups(groups.deep_view().items),
        }),
{
    let n: usize = groups.len();
    let mut out: LoweredGroups = NameMap::new();
    let mut g: usize = 0;
    while g < n
        invariant
            groups.wf(),
            out.wf(),
            n == groups.names().len(),
            g <= n,
            out.names() == groups.names().take(g as int),
            out.deep_view().items == plain_groups(groups.deep_view().items).take(g as int),
        decreases n - g,
    {
        let list = groups.item_at(g);
        let mut lowered: Vec<Requirement> = Vec::new();
        let mut i: usize = 0;
        while i < list.len()
            invariant
                i <= list.len(),
                lowered.deep_view() == list.deep_view().map_values(
                    |spec: RequirementSpecView| plain_form(spec),
                ).take(i as int),
            decreases list.len() - i,
        {
            let ghost before = lowered.deep_view();
            let plain = list[i].clone().into_plain();
            lowered.push(plain);
            assert(lowered.deep_view() =~= before.push(plain_form(list.deep_view()[i as int])));
            assert(lowered.deep_view() =~= list.deep_view().map_values(
                |spec: RequirementSpecView| plain_form(spec),
            ).take(i + 1));
            i += 1;
        }
        let ghost before = out.deep_view().items;
        let key = groups.name_at(g).clone();
        assert forall|t: int| 0 <= t < out.names().len() implies name_less(
            #[trigger] out.names()[t],
            key.name_bytes(),
        ) by {
            assert(out.names()[t] == groups.names()[t]);
        }
        out.push_last(key, lowered);
        proof {
            let all = plain_groups(groups.deep_view().items);
            assert(list.deep_view().map_values(|spec: RequirementSpecView| plain_form(spec)).take(
                list.len() as int,
            ) =~= all[g as int]);
            assert(out.names() =~= groups.names().take(g + 1));
            assert(out.deep_view().items =~= before.push(lowered.deep_view()));
            assert(out.deep_view().items =~= all.take(g + 1));
        }
        g += 1;
    }
    proof {
        assert(groups.names().take(n as int) =~= groups.names());
        let all = plain_groups(groups.deep_view().items);
        assert(all.take(n as int) =~= all);
    }
    out
}

/// What the first step of a lowering is.
pub open spec fn begin_spec(
    step: LoweringStep,
    name: Option<Seq<u8>>,
    flat: Flat,
    table: Overrides,
    strategy: SourceStrategy,
) -> bool {
    match strategy {
        SourceStrategy::Disabled => step matches LoweringStep::Done(out)
            && out.dependency_groups.wf() && out.deep_view() == (SourcedView {
            name,
            dependency_groups: Entries { names: flat.names, items: plain_groups(flat.items) },
        }),
        SourceStrategy::Enabled => is_step(step, name, flat, table, advance(flat, table, start())),
    }
}

/// Begins to lower the flat groups of a project.
///
/// With the strategy disabled the overrides are not looked at: the work is
/// done at once, and every requirement has its plain form. With the strategy
/// enabled each requirement to which no override applies gets its plain
/// form, and the step returned stops at the first to which one applies, if
/// there is any.
pub fn begin(
    name: Option<PackageName>,
    groups: FlatGroups,
    sources: SourceOverrideTable,
    strategy: SourceStrategy,
) -> (r: LoweringStep)
    ensures
        begin_spec(r, name_view(name), groups.deep_view(), sources.deep_view(), strategy),
{
    proof {
        use_type_invariant(&groups);
        use_type_invariant(&sources);
    }
    match strategy {
        SourceStrategy::Disabled => LoweringStep::Done(
            SourcedDependencyGroups { name, dependency_groups: lower_plain(groups) },
        ),
        SourceStrategy::Enabled => {
            let finished: LoweredGroups = NameMap::new();
            assert(finished.deep_view().items =~= Seq::<Seq<RequirementView>>::empty());
            assert(finished.names() =~= groups.names().take(0));
            let current: Vec<Requirement> = Vec::new();
            assert(current.deep_view() =~= Seq::<RequirementView>::empty());
            assert(lowered_upto(groups.deep_view(), sources.deep_view(), start(), any_answer()));
            run(name, groups, sources, 0, 0, finished, current)
        },
    }
}

/// What follows when the source that a lowering waits for has been resolved,
/// or could not be.
pub open spec fn supply_spec(
    r: Result<LoweringStep, MetadataError>,
    pending: PendingView,
    outcome: Result<Requirement, LoweringError>,
) -> bool {
    let at = pending.at;
    match outcome {
        Err(inner) => r matches Err(e) && e.deep_view()
            == MetadataErrorView::GroupLoweringError(
            pending.flat.names[at.group],
            pending.flat.items[at.group][at.item].name,
            inner.message@,
        ),
        Ok(requirement) => r matches Ok(step) && is_step(
            step,
            pending.name,
            pending.flat,
            pending.table,
            advance(
                pending.flat,
                pending.table,
                Progress {
                    group: at.group,
                    item: at.item + 1,
                    finished: at.finished,
                    current: at.current.push(requirement.deep_view()),
                },
            ),
        ),
    }
}

impl PendingLowering {
    /// Takes the outcome of the resolution that was asked for.
    ///
    /// A failure ends the lowering with `GroupLoweringError`, which names the
    /// group and the package. A resolved requirement takes its place in the
    /// group, and the lowering goes on to its next step.
    pub fn supply(self, outcome: Result<Requirement, LoweringError>) -> (r: Result<
        LoweringStep,
        MetadataError,
    >)
        ensures
            supply_spec(r, self@, outcome),
    {
        proof {
            use_type_invariant(&self);
        }
        let PendingLowering { name, groups, sources, group, item, finished, current, request } =
            self;
        match outcome {
            Err(inner) => {
                let list = groups.item_at(group);
                assert(groups.deep_view().items[group as int][item as int]
                    == list@[item as int].deep_view());
                Err(
                    MetadataError::GroupLoweringError(
                        groups.name_at(group).clone(),
                        list[item].name.clone(),
                        inner,
                    ),
                )
            },
            Ok(requirement) => {
                let mut current = current;
                let ghost before = current.deep_view();
                assert(item < groups.items()[group as int].len());
                proof {
                    lemma_supply_lowers(
                        groups.deep_view(),
                        sources.deep_view(),
                        self.progress(),
                        requirement.deep_view(),
                        any_answer(),
                    );
                }
                current.push(requirement);
                assert(current.deep_view() =~= before.push(requirement.deep_view()));
                Ok(run(name, groups, sources, group, item + 1, finished, current))
            },
        }
    }
}

/// The judgement of a resolver: a resolved requirement may stand for a
/// request where the resolver can answer the request with it.
pub open spec fn answers_of<F: Fn(&LoweringRequest) -> Result<Requirement, LoweringError>>(
    resolve: F,
) -> Accepts {
    |request: LoweringRequestView, answer: RequirementView|
        exists|asked: LoweringRequest, given: Requirement|
            #![trigger call_ensures(resolve, (&asked,), Ok::<Requirement, LoweringError>(given))]
            asked.deep_view() == request && given.deep_view() == answer && call_ensures(
                resolve,
                (&asked,),
                Ok::<Requirement, LoweringError>(given),
            )
}

/// The resolver can fail on the request with the message.
pub open spec fn fails_on<F: Fn(&LoweringRequest) -> Result<Requirement, LoweringError>>(
    resolve: F,
    request: LoweringRequestView,
    message: Seq<char>,
) -> bool {
    exists|asked: LoweringRequest, inner: LoweringError|
        #![trigger call_ensures(resolve, (&asked,), Err::<Requirement, LoweringError>(inner))]
        asked.deep_view() == request && inner.message@ == message && call_ensures(
            resolve,
            (&asked,),
            Err::<Requirement, LoweringError>(inner),
        )
}

/// Every group is lowered in full.
pub open spec fn all_lowered(
    flat: Flat,
    table: Overrides,
    lowered: Seq<Seq<RequirementView>>,
    accepts: Accepts,
) -> bool {
    &&& lowered.len() == flat.items.len()
    &&& forall|g: int|
        0 <= g < flat.items.len() ==> group_lowered(
            flat,
            table,
            g,
            #[trigger] lowered[g],
            flat.items[g].len() as int,
            accepts,
        )
}

/// What lowering comes to with a resolver of sources.
///
/// With the strategy disabled every requirement has its plain form. With
/// the strategy enabled either every group is lowered in full, each
/// requirement to which an override applies by an answer of the resolver;
/// or the resolver has failed on one such requirement, all before it are
/// lowered, and the error names its group and its package.
pub open spec fn lowered_with<F: Fn(&LoweringRequest) -> Result<Requirement, LoweringError>>(
    r: Result<SourcedDependencyGroups, MetadataError>,
    name: Option<Seq<u8>>,
    flat: Flat,
    table: Overrides,
    strategy: SourceStrategy,
    resolve: F,
) -> bool {
    match strategy {
        SourceStrategy::Disabled => r matches Ok(out) && out.dependency_groups.wf()
            && out.deep_view() == (SourcedView {
            name,
            dependency_groups: Entries { names: flat.names, items: plain_groups(flat.items) },
        }),
        SourceStrategy::Enabled => match r {
            Ok(out) => {
                &&& out.dependency_groups.wf()
                &&& out.deep_view().name == name
                &&& out.deep_view().dependency_groups.names == flat.names
                &&& all_lowered(
                    flat,
                    table,
                    out.deep_view().dependency_groups.items,
                    answers_of(resolve),
                )
            },
            Err(e) => exists|at: Progress, message: Seq<char>|
                #![trigger fails_on(resolve, request_at(flat, table, at), message)]
                {
                    &&& lowered_upto(flat, table, at, answers_of(resolve))
                    &&& at.group < flat.items.len()
                    &&& at.item < flat.items[at.group].len()
                    &&& override_at(flat, table, at.group, at.item) is Some
                    &&& fails_on(resolve, request_at(flat, table, at), message)
                    &&& e.deep_view() == MetadataErrorView::GroupLoweringError(
                        flat.names[at.group],
                        flat.items[at.group][at.item].name,
                        message,
                    )
                },
        },
    }
}

/// Lowers the flat groups of a project, with a resolver for the sources.
///
/// The resolver is asked for the source of each requirement to which an
/// override applies, group by group in the order of the names and, within a
/// group, in the order of the requirements. Its first failure ends the work.
pub fn lower<F>(
    name: Option<PackageName>,
    groups: FlatGroups,
    sources: SourceOverrideTable,
    strategy: SourceStrategy,
    resolve: F,
) -> (r: Result<SourcedDependencyGroups, MetadataError>) where
    F: Fn(&LoweringRequest) -> Result<Requirement, LoweringError>,

    requires
        forall|request: &LoweringRequest| call_requires(resolve, (request,)),
    ensures
        lowered_with(
            r,
            name_view(name),
            groups.deep_view(),
            sources.deep_view(),
            strategy,
            resolve,
        ),
{
    proof {
        use_type_invariant(&groups);
    }
    let ghost flat = groups.deep_view();
    let ghost table = sources.deep_view();
    let ghost project = name_view(name);
    let ghost accepts = answers_of(resolve);
    proof {
        lemma_advance_lowers(flat, table, start(), accepts);
    }
    let mut pending = match begin(name, groups, sources, strategy) {
        LoweringStep::Done(out) => {
            return Ok(out);
        },
        LoweringStep::Pending(pending) => pending,
    };
    loop
        invariant
            strategy == SourceStrategy::Enabled,
            project == name_view(name),
            flat == groups.deep_view(),
            table == sources.deep_view(),
            flat.names.len() == flat.items.len(),
            pending@.name == project,
            pending@.flat == flat,
            pending@.table == table,
            accepts == answers_of(resolve),
            lowered_upto(flat, table, pending@.at, accepts),
            forall|request: &LoweringRequest| call_requires(resolve, (request,)),
        decreases
            flat.items.len() - pending@.at.group,
            flat.items[pending@.at.group].len() - pending@.at.item,
    {
        let ghost at = pending@.at;
        let request = pending.request();
        let ghost asked = *request;
        let outcome = resolve(request);
        let ghost given = outcome;
        proof {
            match given {
                Ok(answer) => {
                    assert(call_ensures(
                        resolve,
                        (&asked,),
                        Ok::<Requirement, LoweringError>(answer),
                    ));
                    assert(accepts(
                        request_for(flat, table, at.group, at.item),
                        answer.deep_view(),
                    ));
                    lemma_supply_lowers(flat, table, at, answer.deep_view(), accepts);
                    lemma_advance_lowers(
                        flat,
                        table,
                        Progress {
                            group: at.group,
                            item: at.item + 1,
                            finished: at.finished,
                            current: at.current.push(answer.deep_view()),
                        },
                        accepts,
                    );
                },
                Err(inner) => {
                    assert(call_ensures(
                        resolve,
                        (&asked,),
                        Err::<Requirement, LoweringError>(inner),
                    ));
                    assert(fails_on(resolve, request_at(flat, table, at), inner.message@));
                },
            }
        }
        match pending.supply(outcome) {
            Err(e) => {
                return Err(e);
            },
            Ok(LoweringStep::Done(out)) => {
                return Ok(out);
            },
            Ok(LoweringStep::Pending(next)) => {
                pending = next;
            },
        }
    }
}

} // verus!
