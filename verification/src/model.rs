//! The values that the stages of a resolution pass to each other, each with
//! the mathematical value that the contracts speak of.

use crate::names::{ExtraName, GroupName, PackageName};
use vstd::prelude::*;

verus! {

/// A dependency as a manifest declares it.
#[derive(Debug, PartialEq, Eq)]
pub struct RequirementSpec {
    /// The package that is required.
    pub name: PackageName,
    /// Its version, extra and marker constraints, as declared.
    pub constraints: String,
    /// Where the declaration itself says the package comes from, if it does.
    pub source_hint: Option<String>,
}

/// What a [`RequirementSpec`] holds.
pub struct RequirementSpecView {
    pub name: Seq<u8>,
    pub constraints: Seq<char>,
    pub source_hint: Option<Seq<char>>,
}

impl DeepView for RequirementSpec {
    type V = RequirementSpecView;

    open spec fn deep_view(&self) -> RequirementSpecView {
        RequirementSpecView {
            name: self.name@,
            constraints: self.constraints@,
            source_hint: match self.source_hint {
                Some(hint) => Some(hint@),
                None => None,
            },
        }
    }
}

impl Clone for RequirementSpec {
    fn clone(&self) -> (r: RequirementSpec)
        ensures
            r.deep_view() == self.deep_view(),
    {
        RequirementSpec {
            name: self.name.clone(),
            constraints: self.constraints.clone(),
            source_hint: match &self.source_hint {
                Some(hint) => Some(hint.clone()),
                None => None,
            },
        }
    }
}

/// The kind of place that a requirement is to be taken from.
#[derive(Clone, Copy, Debug, PartialEq, Eq, Structural)]
pub enum SourceKind {
    /// The default package registry.
    Registry,
    /// A named alternate index.
    Index,
    /// A directory or file on this machine.
    Path,
    /// A checkout from version control.
    Vcs,
    /// A direct URL.
    Url,
    /// Another member of the same workspace.
    Workspace,
}

/// A dependency with its source resolved.
#[derive(Debug, PartialEq, Eq)]
pub struct Requirement {
    /// The package that is required.
    pub name: PackageName,
    /// Its version, extra and marker constraints.
    pub constraints: String,
    /// The kind of its source.
    pub source: SourceKind,
    /// The place within that kind: empty for the default registry.
    pub location: String,
}

/// What a [`Requirement`] holds.
pub struct RequirementView {
    pub name: Seq<u8>,
    pub constraints: Seq<char>,
    pub source: SourceKind,
    pub location: Seq<char>,
}

impl DeepView for Requirement {
    type V = RequirementView;

    open spec fn deep_view(&self) -> RequirementView {
        RequirementView {
            name: self.name@,
            constraints: self.constraints@,
            source: self.source,
            location: self.location@,
        }
    }
}

impl Clone for Requirement {
    fn clone(&self) -> (r: Requirement)
        ensures
            r.deep_view() == self.deep_view(),
    {
        Requirement {
            name: self.name.clone(),
            constraints: self.constraints.clone(),
            source: self.source,
            location: self.location.clone(),
        }
    }
}

/// The declared form of a requirement, taken from the default registry and
/// without its source hint.
pub open spec fn plain_form(spec: RequirementSpecView) -> RequirementView {
    RequirementView {
        name: spec.name,
        constraints: spec.constraints,
        source: SourceKind::Registry,
        location: Seq::empty(),
    }
}

impl RequirementSpec {
    /// The requirement as declared, to be taken from the default registry.
    pub fn into_plain(self) -> (r: Requirement)
        ensures
            r.deep_view() == plain_form(self.deep_view()),
    {
        Requirement {
            name: self.name,
            constraints: self.constraints,
            source: SourceKind::Registry,
            location: String::new(),
        }
    }
}

/// One line of a declared group: a requirement, or the inclusion of another group.
#[derive(Debug, PartialEq, Eq)]
pub enum GroupEntry {
    Requirement(RequirementSpec),
    IncludeGroup(GroupName),
}

/// What a [`GroupEntry`] holds.
pub enum GroupEntryView {
    Requirement(RequirementSpecView),
    IncludeGroup(Seq<u8>),
}

impl DeepView for GroupEntry {
    type V = GroupEntryView;

    open spec fn deep_view(&self) -> GroupEntryView {
        match self {
            GroupEntry::Requirement(spec) => GroupEntryView::Requirement(spec.deep_view()),
            GroupEntry::IncludeGroup(group) => GroupEntryView::IncludeGroup(group@),
        }
    }
}

/// The occurrences of a requirement to which a source override applies.
#[derive(Debug, PartialEq, Eq)]
pub enum SourceScope {
    /// Every occurrence.
    Unscoped,
    /// Those under the given extra.
    Extra(ExtraName),
    /// Those in the given group.
    Group(GroupName),
}

/// What a [`SourceScope`] holds.
pub enum SourceScopeView {
    Unscoped,
    Extra(Seq<u8>),
    Group(Seq<u8>),
}

impl DeepView for SourceScope {
    type V = SourceScopeView;

    open spec fn deep_view(&self) -> SourceScopeView {
        match self {
            SourceScope::Unscoped => SourceScopeView::Unscoped,
            SourceScope::Extra(extra) => SourceScopeView::Extra(extra@),
            SourceScope::Group(group) => SourceScopeView::Group(group@),
        }
    }
}

impl Clone for SourceScope {
    fn clone(&self) -> (r: SourceScope)
        ensures
            r.deep_view() == self.deep_view(),
    {
        match self {
            SourceScope::Unscoped => SourceScope::Unscoped,
            SourceScope::Extra(extra) => SourceScope::Extra(extra.clone()),
            SourceScope::Group(group) => SourceScope::Group(group.clone()),
        }
    }
}

/// A directive that sends one package to another source, where its scope applies.
#[derive(Debug, PartialEq, Eq)]
pub struct SourceOverride {
    /// Where the override applies.
    pub scope: SourceScope,
    /// The kind of source that it names.
    pub kind: SourceKind,
    /// The source itself, in the form that its kind is written in.
    pub target: String,
}

/// What a [`SourceOverride`] holds.
pub struct SourceOverrideView {
    pub scope: SourceScopeView,
    pub kind: SourceKind,
    pub target: Seq<char>,
}

impl DeepView for SourceOverride {
    type V = SourceOverrideView;

    open spec fn deep_view(&self) -> SourceOverrideView {
        SourceOverrideView {
            scope: self.scope.deep_view(),
            kind: self.kind,
            target: self.target@,
        }
    }
}

impl Clone for SourceOverride {
    fn clone(&self) -> (r: SourceOverride)
        ensures
            r.deep_view() == self.deep_view(),
    {
        SourceOverride {
            scope: self.scope.clone(),
            kind: self.kind,
            target: self.target.clone(),
        }
    }
}

/// Whether source overrides are applied at all.
#[derive(Clone, Copy, Debug, PartialEq, Eq, Structural)]
pub enum SourceStrategy {
    Enabled,
    Disabled,
}

/// Why a source could not be resolved for one requirement.
#[derive(Debug, PartialEq, Eq)]
pub struct LoweringError {
    /// The resolver's own account of the failure.
    pub message: String,
}

/// Why a resolution of dependency groups failed.
#[derive(Debug, PartialEq, Eq)]
pub enum MetadataError {
    /// The group includes itself, directly or through other groups.
    CyclicGroupInclusion(GroupName),
    /// The first group includes the second, which is not declared.
    UnknownGroupReference(GroupName, GroupName),
    /// A source override of the package is scoped to a group that does not exist.
    MissingSourceGroup(PackageName, GroupName),
    /// A source override of the package is scoped to a group that does not require it.
    IncompleteSourceGroup(PackageName, GroupName),
    /// The source of the package could not be resolved for the group.
    GroupLoweringError(GroupName, PackageName, LoweringError),
    /// The project could not be discovered.
    DiscoveryError(String),
}

/// What a [`MetadataError`] holds.
pub enum MetadataErrorView {
    CyclicGroupInclusion(Seq<u8>),
    UnknownGroupReference(Seq<u8>, Seq<u8>),
    MissingSourceGroup(Seq<u8>, Seq<u8>),
    IncompleteSourceGroup(Seq<u8>, Seq<u8>),
    GroupLoweringError(Seq<u8>, Seq<u8>, Seq<char>),
    DiscoveryError(Seq<char>),
}

impl DeepView for MetadataError {
    type V = MetadataErrorView;

    open spec fn deep_view(&self) -> MetadataErrorView {
        match self {
            MetadataError::CyclicGroupInclusion(group) => MetadataErrorView::CyclicGroupInclusion(
                group@,
            ),
            MetadataError::UnknownGroupReference(referrer, missing) => {
                MetadataErrorView::UnknownGroupReference(referrer@, missing@)
            },
            MetadataError::MissingSourceGroup(package, group) => {
                MetadataErrorView::MissingSourceGroup(package@, group@)
            },
            MetadataError::IncompleteSourceGroup(package, group) => {
                MetadataErrorView::IncompleteSourceGroup(package@, group@)
            },
            MetadataError::GroupLoweringError(group, package, inner) => {
                MetadataErrorView::GroupLoweringError(group@, package@, inner.message@)
            },
            MetadataError::DiscoveryError(message) => MetadataErrorView::DiscoveryError(message@),
        }
    }
}

} // verus!
