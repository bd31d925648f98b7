//! The legacy bucket of development requirements, folded into the group `dev`.

use crate::flatten::{Flat, FlatGroups};
use crate::model::{RequirementSpec, RequirementSpecView};
use crate::name_map::{lemma_slot_exists, lemma_with_lookup, slot};
use crate::names::{dev_name, GroupName};
use vstd::prelude::*;

verus! {

/// The flat groups with the legacy list, where there is one, at the end of
/// the group `dev`; the group is made where it is missing.
pub open spec fn merge_spec(flat: Flat, legacy: Option<Seq<RequirementSpecView>>) -> Flat {
    match legacy {
        None => flat,
        Some(list) => flat.with(
            dev_name(),
            match flat.lookup(dev_name()) {
                Some(had) => had + list,
                None => list,
            },
        ),
    }
}

/// What an optional list of requirements holds.
pub open spec fn legacy_view(legacy: Option<Vec<RequirementSpec>>) -> Option<
    Seq<RequirementSpecView>,
> {
    match legacy {
        Some(list) => Some(list.deep_view()),
        None => None,
    }
}

/// Folds the legacy development requirements into the group `dev`.
///
/// They come after the requirements that the group holds already, all of
/// them, whatever packages they name. Without a legacy list the groups are
/// returned as they are.
pub fn merge_legacy(flat: FlatGroups, legacy: Option<Vec<RequirementSpec>>) -> (r: FlatGroups)
    ensures
        r.wf(),
        r.deep_view() == merge_spec(flat.deep_view(), legacy_view(legacy)),
{
    proof {
        use_type_invariant(&flat);
    }
    let mut flat = flat;
    let ghost before = flat.deep_view();
    match legacy {
        None => flat,
        Some(list) => {
            let mut list = list;
            let ghost added = list.deep_view();
            let dev = GroupName::dev();
            match flat.find(&dev) {
                Some(i) => {
                    let mut merged = flat.replace_item(i, Vec::new());
                    let ghost had = merged.deep_view();
                    merged.append(&mut list);
                    assert(merged.deep_view() =~= had + added);
                    flat.replace_item(i, merged);
                    assert(flat.deep_view().items =~= before.items.update(
                        i as int,
                        before.items[i as int] + added,
                    ));
                    flat
                },
                None => {
                    proof {
                        lemma_slot_exists(before.names, dev_name());
                    }
                    flat.insert(dev, list);
                    assert(flat.deep_view().items =~= before.items.insert(
                        slot(before.names, dev_name()),
                        added,
                    ));
                    flat
                },
            }
        },
    }
}

/// Merging is additive: every other group stays as it was, and the group
/// `dev` holds what it held, followed by the legacy list.
pub proof fn lemma_merge_is_additive(
    flat: Flat,
    list: Seq<RequirementSpecView>,
    name: Seq<u8>,
)
    requires
        flat.wf(),
    ensures
        merge_spec(flat, None) == flat,
        merge_spec(flat, Some(list)).wf(),
        name != dev_name() ==> merge_spec(flat, Some(list)).lookup(name) == flat.lookup(name),
        merge_spec(flat, Some(list)).lookup(dev_name()) == Some(
            match flat.lookup(dev_name()) {
                Some(had) => had + list,
                None => list,
            },
        ),
{
    let merged = match flat.lookup(dev_name()) {
        Some(had) => had + list,
        None => list,
    };
    lemma_with_lookup(flat, dev_name(), merged, name);
}

} // verus!
