//! Validation of the source overrides that are scoped to a group.

use crate::flatten::{has_name, Flat, FlatGroups};
use crate::lower::SourcedDependencyGroups;
use crate::model::{
    MetadataError, MetadataErrorView, RequirementSpec, SourceOverride, SourceOverrideView,
    SourceScope, SourceScopeView,
};
use crate::name_map::{Entries, NameMap};
use crate::names::{NameLike, PackageName};
use vstd::prelude::*;

verus! {

/// The source overrides of a manifest, by package.
pub type SourceOverrideTable = NameMap<PackageName, Vec<SourceOverride>>;

/// What a table of source overrides holds, as the contracts see it.
pub type Overrides = Entries<Seq<SourceOverrideView>>;

/// What is wrong with one override of a package, if anything: an override
/// scoped to a group asks that the group exist and require the package.
pub open spec fn check_override(flat: Flat, package: Seq<u8>, source: SourceOverrideView) -> Option<
    MetadataErrorView,
> {
    match source.scope {
        SourceScopeView::Group(group) => match flat.lookup(group) {
            None => Some(MetadataErrorView::MissingSourceGroup(package, group)),
            Some(list) => if has_name(list, package) {
                None
            } else {
                Some(MetadataErrorView::IncompleteSourceGroup(package, group))
            },
        },
        SourceScopeView::Extra(extra) => None,
        SourceScopeView::Unscoped => None,
    }
}

/// The first fault among the overrides of a package from index `from` on.
pub open spec fn check_overrides(
    flat: Flat,
    package: Seq<u8>,
    sources: Seq<SourceOverrideView>,
    from: int,
) -> Option<MetadataErrorView>
    decreases sources.len() - from,
{
    if from < 0 || from >= sources.len() {
        None
    } else {
        match check_override(flat, package, sources[from]) {
            Some(e) => Some(e),
            None => check_overrides(flat, package, sources, from + 1),
        }
    }
}

/// The first fault in the table from the package at index `from` on.
pub open spec fn check_table(flat: Flat, table: Overrides, from: int) -> Option<MetadataErrorView>
    decreases table.names.len() - from,
{
    if from < 0 || from >= table.names.len() {
        None
    } else {
        match check_overrides(flat, table.names[from], table.items[from], 0) {
            Some(e) => Some(e),
            None => check_table(flat, table, from + 1),
        }
    }
}

/// The verdict on a table: its first fault, package by package in the order
/// of the names and override by override in the order of declaration.
pub open spec fn validate_spec(flat: Flat, table: Overrides) -> Result<(), MetadataErrorView> {
    match check_table(flat, table, 0) {
        Some(e) => Err(e),
        None => Ok(()),
    }
}

/// What a verdict holds.
pub open spec fn verdict_view(r: Result<(), MetadataError>) -> Result<(), MetadataErrorView> {
    match r {
        Ok(()) => Ok(()),
        Err(e) => Err(e.deep_view()),
    }
}

/// Whether the list holds a requirement of the package.
pub fn requires_package(list: &Vec<RequirementSpec>, package: &PackageName) -> (r: bool)
    ensures
        r == has_name(list.deep_view(), package@),
{
    let mut i: usize = 0;
    while i < list.len()
        invariant
            i <= list.len(),
            forall|t: int| 0 <= t < i ==> (#[trigger] list.deep_view()[t]).name != package@,
        decreases list.len() - i,
    {
        if list[i].name.same(package) {
            assert(list.deep_view()[i as int].name == package@);
            return true;
        }
        i += 1;
    }
    false
}

/// Checks one override of a package against the flat groups.
pub fn validate_source(
    package: &PackageName,
    source: &SourceOverride,
    dependency_groups: &FlatGroups,
) -> (r: Result<(), MetadataError>)
    ensures
        verdict_view(r) == (match check_override(
            dependency_groups.deep_view(),
            package@,
            source.deep_view(),
        ) {
            Some(e) => Err(e),
            None => Ok(()),
        }),
{
    proof {
        use_type_invariant(dependency_groups);
    }
    match &source.scope {
        SourceScope::Group(group) => match dependency_groups.get(group) {
            None => Err(MetadataError::MissingSourceGroup(package.clone(), group.clone())),
            Some(list) => {
                if requires_package(list, package) {
                    Ok(())
                } else {
                    Err(MetadataError::IncompleteSourceGroup(package.clone(), group.clone()))
                }
            },
        },
        SourceScope::Extra(extra) => Ok(()),
        SourceScope::Unscoped => Ok(()),
    }
}

impl SourcedDependencyGroups {
    /// Validates the source overrides against the flat groups.
    ///
    /// An override scoped to a group that does not exist gives
    /// `MissingSourceGroup`; one scoped to a group that does not require the
    /// package gives `IncompleteSourceGroup`. Other overrides pass. The first
    /// fault is returned.
    pub fn validate_sources(
        sources: &SourceOverrideTable,
        dependency_groups: &FlatGroups,
    ) -> (r: Result<(), MetadataError>)
        ensures
            verdict_view(r) == validate_spec(dependency_groups.deep_view(), sources.deep_view()),
    {
        proof {
            use_type_invariant(sources);
            use_type_invariant(dependency_groups);
        }
        let ghost flat = dependency_groups.deep_view();
        let ghost table = sources.deep_view();
        let n: usize = sources.len();
        let mut p: usize = 0;
        while p < n
            invariant
                sources.wf(),
                dependency_groups.wf(),
                flat == dependency_groups.deep_view(),
                table == sources.deep_view(),
                n == sources.names().len(),
                p <= n,
                check_table(flat, table, 0) == check_table(flat, table, p as int),
            decreases n - p,
        {
            let package = sources.name_at(p);
            let list = sources.item_at(p);
            assert(table.items[p as int] == list.deep_view());
            let mut k: usize = 0;
            while k < list.len()
                invariant
                    dependency_groups.wf(),
                    flat == dependency_groups.deep_view(),
                    table.items[p as int] == list.deep_view(),
                    table.names[p as int] == package.name_bytes(),
                    k <= list.len(),
                    table == sources.deep_view(),
                    0 <= p < table.names.len(),
                    table.names.len() == table.items.len(),
                    check_table(flat, table, 0) == check_table(flat, table, p as int),
                    check_overrides(flat, table.names[p as int], list.deep_view(), 0)
                        == check_overrides(flat, table.names[p as int], list.deep_view(), k as int),
                decreases list.len() - k,
            {
                match validate_source(package, &list[k], dependency_groups) {
                    Err(e) => {
                        return Err(e);
                    },
                    Ok(()) => {},
                }
                k += 1;
            }
            p += 1;
        }
        Ok(())
    }
}

/// Override `k` of the package at index `p` fails with `e`, and of the
/// packages from index `from` on every override before it passes.
pub open spec fn is_first_fault_from(
    flat: Flat,
    table: Overrides,
    from: int,
    p: int,
    k: int,
    e: MetadataErrorView,
) -> bool {
    &&& from <= p < table.names.len()
    &&& 0 <= k < table.items[p].len()
    &&& check_override(flat, table.names[p], table.items[p][k]) == Some(e)
    &&& forall|t: int|
        0 <= t < k ==> check_override(flat, table.names[p], #[trigger] table.items[p][t]) is None
    &&& forall|q: int, t: int|
        from <= q < p && 0 <= t < table.items[q].len() ==> check_override(
            flat,
            table.names[q],
            #[trigger] table.items[q][t],
        ) is None
}

/// Override `k` of the package at index `p` is the first fault of the table.
pub open spec fn is_first_fault(flat: Flat, table: Overrides, p: int, k: int, e: MetadataErrorView)
    -> bool {
    is_first_fault_from(flat, table, 0, p, k, e)
}

/// Every override of the table passes.
pub open spec fn all_pass(flat: Flat, table: Overrides) -> bool {
    forall|p: int, k: int|
        0 <= p < table.names.len() && 0 <= k < table.items[p].len() ==> check_override(
            flat,
            table.names[p],
            #[trigger] table.items[p][k],
        ) is None
}

/// The overrides of a package from an index on all pass, or one of them is
/// the first that does not.
proof fn lemma_check_overrides(
    flat: Flat,
    package: Seq<u8>,
    sources: Seq<SourceOverrideView>,
    from: int,
)
    requires
        0 <= from,
    ensures
        match check_overrides(flat, package, sources, from) {
            None => forall|t: int|
                from <= t < sources.len() ==> check_override(flat, package, #[trigger] sources[t])
                    is None,
            Some(e) => exists|k: int|
                from <= k < sources.len() && check_override(flat, package, #[trigger] sources[k])
                    == Some(e) && forall|t: int|
                    from <= t < k ==> check_override(flat, package, #[trigger] sources[t]) is None,
        },
    decreases sources.len() - from,
{
    if from < sources.len() {
        lemma_check_overrides(flat, package, sources, from + 1);
        if check_override(flat, package, sources[from]) is None {
            if check_overrides(flat, package, sources, from + 1) is Some {
                let e = check_overrides(flat, package, sources, from + 1)->0;
                let k = choose|k: int|
                    from + 1 <= k < sources.len() && check_override(
                        flat,
                        package,
                        #[trigger] sources[k],
                    ) == Some(e) && forall|t: int|
                        from + 1 <= t < k ==> check_override(flat, package, #[trigger] sources[t])
                            is None;
                assert(check_override(flat, package, sources[k]) == Some(e));
            }
        } else {
            assert(check_override(flat, package, sources[from]) is Some);
        }
    }
}

/// The overrides of the packages from an index on all pass, or one of them
/// is the first that does not.
proof fn lemma_check_table(flat: Flat, table: Overrides, from: int)
    requires
        0 <= from,
        table.names.len() == table.items.len(),
    ensures
        match check_table(flat, table, from) {
            None => forall|q: int, t: int|
                from <= q < table.names.len() && 0 <= t < table.items[q].len() ==> check_override(
                    flat,
                    table.names[q],
                    #[trigger] table.items[q][t],
                ) is None,
            Some(e) => exists|p: int, k: int| is_first_fault_from(flat, table, from, p, k, e),
        },
    decreases table.names.len() - from,
{
    if from < table.names.len() {
        lemma_check_table(flat, table, from + 1);
        lemma_check_overrides(flat, table.names[from], table.items[from], 0);
        match check_overrides(flat, table.names[from], table.items[from], 0) {
            Some(e) => {
                let k = choose|k: int|
                    0 <= k < table.items[from].len() && check_override(
                        flat,
                        table.names[from],
                        #[trigger] table.items[from][k],
                    ) == Some(e) && forall|t: int|
                        0 <= t < k ==> check_override(
                            flat,
                            table.names[from],
                            #[trigger] table.items[from][t],
                        ) is None;
                assert(is_first_fault_from(flat, table, from, from, k, e));
            },
            None => {
                if check_table(flat, table, from + 1) is Some {
                    let e = check_table(flat, table, from + 1)->0;
                    let next = from + 1;
                    let (p, k) = choose|p: int, k: int|
                        #[trigger] is_first_fault_from(flat, table, next, p, k, e);
                    assert(is_first_fault_from(flat, table, from, p, k, e));
                }
            },
        }
    }
}

/// The verdict on a table: it passes exactly when every override passes,
/// and it fails with the fault of the first override that does not.
pub proof fn lemma_validation_verdict(flat: Flat, table: Overrides)
    requires
        table.names.len() == table.items.len(),
    ensures
        match validate_spec(flat, table) {
            Ok(()) => all_pass(flat, table),
            Err(e) => exists|p: int, k: int| is_first_fault(flat, table, p, k, e),
        },
{
    lemma_check_table(flat, table, 0);
    if check_table(flat, table, 0) is Some {
        let e = check_table(flat, table, 0)->0;
        let (p, k) = choose|p: int, k: int| is_first_fault_from(flat, table, 0, p, k, e);
        assert(is_first_fault(flat, table, p, k, e));
    }
}

/// The verdict on one override: scoped to a group that does not exist it
/// fails with `MissingSourceGroup`, scoped to a group that does not require
/// the package with `IncompleteSourceGroup`, and otherwise it passes.
pub proof fn lemma_override_verdict(flat: Flat, package: Seq<u8>, source: SourceOverrideView)
    ensures
        check_override(flat, package, source) == (match source.scope {
            SourceScopeView::Group(group) => if flat.lookup(group) is None {
                Some(MetadataErrorView::MissingSourceGroup(package, group))
            } else if !has_name(flat.lookup(group)->0, package) {
                Some(MetadataErrorView::IncompleteSourceGroup(package, group))
            } else {
                None
            },
            _ => None,
        }),
{
}

} // verus!
