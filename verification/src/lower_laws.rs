//! What holds of lowering, whatever groups and overrides there are.

use crate::flatten::Flat;
use crate::lower::{
    advance, any_answer, begin_spec, first_applicable, group_lowered, lemma_advance_lowers,
    override_at, plain_groups, scope_applies, select_override, start, LoweringStep,
};
use crate::model::{SourceOverrideView, SourceScopeView, SourceStrategy};
use crate::validate::Overrides;
use vstd::prelude::*;

verus! {

/// The reach of a scope: an unscoped override applies in every group, one
/// scoped to a group in that group alone, one scoped to an extra in none.
pub proof fn lemma_scope_reach(scope: SourceScopeView, group: Seq<u8>)
    ensures
        scope is Unscoped ==> scope_applies(scope, group),
        scope matches SourceScopeView::Group(target) ==> (scope_applies(scope, group) <==> target
            == group),
        scope is Extra ==> !scope_applies(scope, group),
{
}

/// The first override that applies, from an index on, is one that applies
/// and that none before it does.
pub proof fn lemma_first_applicable(sources: Seq<SourceOverrideView>, group: Seq<u8>, from: int)
    requires
        0 <= from,
    ensures
        match first_applicable(sources, group, from) {
            Some(i) => from <= i < sources.len() && scope_applies(sources[i].scope, group)
                && forall|j: int|
                from <= j < i ==> !scope_applies((#[trigger] sources[j]).scope, group),
            None => forall|j: int|
                from <= j < sources.len() ==> !scope_applies((#[trigger] sources[j]).scope, group),
        },
    decreases sources.len() - from,
{
    if from < sources.len() {
        lemma_first_applicable(sources, group, from + 1);
    }
}

/// An unscoped override of a package applies in every group: some override
/// of the package is selected there, and it is this one unless an earlier
/// override of the package applies to the group.
pub proof fn lemma_unscoped_applies_everywhere(
    table: Overrides,
    package: Seq<u8>,
    i: int,
    group: Seq<u8>,
)
    requires
        table.lookup(package) matches Some(sources) && 0 <= i < sources.len()
            && sources[i].scope is Unscoped,
    ensures
        select_override(table, package, group) is Some,
        (forall|j: int|
            0 <= j < i ==> !scope_applies((#[trigger] table.lookup(package)->0[j]).scope, group))
            ==> select_override(table, package, group) == Some(table.lookup(package)->0[i]),
{
    lemma_first_applicable(table.lookup(package)->0, group, 0);
}

/// An override scoped to a group applies within that group only: where it
/// is selected, the group is its own.
pub proof fn lemma_group_scope_applies_within(
    table: Overrides,
    package: Seq<u8>,
    group: Seq<u8>,
    target: Seq<u8>,
)
    requires
        select_override(table, package, group) matches Some(source) && source.scope
            == SourceScopeView::Group(target),
    ensures
        group == target,
{
    lemma_first_applicable(table.lookup(package)->0, group, 0);
}

/// An override scoped to a group is selected within that group, unless an
/// earlier override of the package applies there.
pub proof fn lemma_group_scope_is_selected(
    table: Overrides,
    package: Seq<u8>,
    i: int,
    target: Seq<u8>,
)
    requires
        table.lookup(package) matches Some(sources) && 0 <= i < sources.len() && sources[i].scope
            == SourceScopeView::Group(target),
        forall|j: int|
            0 <= j < i ==> !scope_applies((#[trigger] table.lookup(package)->0[j]).scope, target),
    ensures
        select_override(table, package, target) == Some(table.lookup(package)->0[i]),
{
    lemma_first_applicable(table.lookup(package)->0, target, 0);
}

/// With the strategy disabled the first step is the same whatever the
/// overrides are: it is finished, and every requirement has its plain form.
pub proof fn lemma_disabled_ignores_overrides(
    step: LoweringStep,
    name: Option<Seq<u8>>,
    flat: Flat,
    table: Overrides,
    other: Overrides,
)
    ensures
        begin_spec(step, name, flat, table, SourceStrategy::Disabled) == begin_spec(
            step,
            name,
            flat,
            other,
            SourceStrategy::Disabled,
        ),
        begin_spec(step, name, flat, table, SourceStrategy::Disabled) ==> step is Done,
{
}

/// Where no override applies to any requirement, the lowering runs to its
/// end at once and gives every requirement its plain form, as it does with
/// the strategy disabled.
pub proof fn lemma_without_overrides_all_plain(flat: Flat, table: Overrides)
    requires
        flat.names.len() == flat.items.len(),
        forall|g: int, i: int|
            0 <= g < flat.items.len() && 0 <= i < flat.items[g].len() ==> #[trigger] override_at(
                flat,
                table,
                g,
                i,
            ) is None,
    ensures
        advance(flat, table, start()).group == flat.items.len(),
        advance(flat, table, start()).finished == plain_groups(flat.items),
{
    lemma_advance_lowers(flat, table, start(), any_answer());
    let stop = advance(flat, table, start());
    if stop.group < flat.items.len() {
        assert(override_at(flat, table, stop.group, stop.item) is None);
    }
    let plain = plain_groups(flat.items);
    assert forall|g: int| 0 <= g < stop.finished.len() implies stop.finished[g] == plain[g] by {
        assert(group_lowered(
            flat,
            table,
            g,
            stop.finished[g],
            flat.items[g].len() as int,
            any_answer(),
        ));
        assert forall|i: int| 0 <= i < stop.finished[g].len() implies stop.finished[g][i]
            == plain[g][i] by {
            assert(override_at(flat, table, g, i) is None);
        }
        assert(stop.finished[g] =~= plain[g]);
    }
    assert(stop.finished =~= plain);
}

} // verus!
