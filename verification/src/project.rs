//! The resolution of the dependency groups of one project, stage by stage.

use crate::flatten::{flatten, flatten_spec, Declared, Flat, FlatGroups, RawGroups};
use crate::flatten_laws::{error_is_sound, lemma_flatten_error_sound};
use crate::legacy::{legacy_view, merge_legacy, merge_spec};
use crate::lower::{
    begin, begin_spec, lower, lowered_with, name_view, LoweringRequest, LoweringStep,
    SourcedDependencyGroups,
};
use crate::model::{
    LoweringError, MetadataError, MetadataErrorView, Requirement, RequirementSpec,
    RequirementSpecView, SourceStrategy,
};
use crate::names::PackageName;
use crate::validate::{lemma_validation_verdict, validate_spec, Overrides, SourceOverrideTable};
use vstd::prelude::*;

verus! {

/// What the manifest of a discovered project declares.
#[derive(Debug, PartialEq, Eq)]
pub struct VirtualProject {
    /// The name of the project, if it has one.
    pub name: Option<PackageName>,
    /// The declared dependency groups.
    pub dependency_groups: RawGroups,
    /// The legacy list of development requirements, if there is one.
    pub dev_dependencies: Option<Vec<RequirementSpec>>,
    /// The source overrides, by package.
    pub sources: SourceOverrideTable,
}

/// What a [`VirtualProject`] holds.
pub struct VirtualProjectView {
    pub name: Option<Seq<u8>>,
    pub dependency_groups: Declared,
    pub dev_dependencies: Option<Seq<RequirementSpecView>>,
    pub sources: Overrides,
}

impl DeepView for VirtualProject {
    type V = VirtualProjectView;

    open spec fn deep_view(&self) -> VirtualProjectView {
        VirtualProjectView {
            name: name_view(self.name),
            dependency_groups: self.dependency_groups.deep_view(),
            dev_dependencies: legacy_view(self.dev_dependencies),
            sources: self.sources.deep_view(),
        }
    }
}

/// The groups that are to be lowered, once the stages before lowering are
/// through: the declared groups are flattened, the legacy list is merged
/// and, where the strategy is enabled, the overrides are validated against
/// the result. The first stage that fails gives the error.
pub open spec fn staged(project: VirtualProjectView, strategy: SourceStrategy) -> Result<
    Flat,
    MetadataErrorView,
> {
    match flatten_spec(project.dependency_groups) {
        Err(e) => Err(e),
        Ok(flat) => {
            let merged = merge_spec(flat, project.dev_dependencies);
            match strategy {
                SourceStrategy::Disabled => Ok(merged),
                SourceStrategy::Enabled => match validate_spec(merged, project.sources) {
                    Err(e) => Err(e),
                    Ok(()) => Ok(merged),
                },
            }
        },
    }
}

/// What the resolution of a project comes to before any source is
/// resolved: the error of the stages before lowering, or the first step of
/// the lowering.
pub open spec fn first_step_spec(
    r: Result<LoweringStep, MetadataError>,
    project: VirtualProjectView,
    strategy: SourceStrategy,
) -> bool {
    match staged(project, strategy) {
        Err(e) => r matches Err(err) && err.deep_view() == e,
        Ok(merged) => r matches Ok(step) && begin_spec(
            step,
            project.name,
            merged,
            project.sources,
            strategy,
        ),
    }
}

/// What the resolution of a project comes to with a resolver of sources:
/// the error of the stages before lowering, or what the lowering comes to.
pub open spec fn resolved_with<F: Fn(&LoweringRequest) -> Result<Requirement, LoweringError>>(
    r: Result<SourcedDependencyGroups, MetadataError>,
    project: VirtualProjectView,
    strategy: SourceStrategy,
    resolve: F,
) -> bool {
    match staged(project, strategy) {
        Err(e) => r matches Err(err) && err.deep_view() == e,
        Ok(merged) => lowered_with(r, project.name, merged, project.sources, strategy, resolve),
    }
}

/// Takes a project through the stages before lowering, and returns what is
/// to be lowered.
fn stage(project: VirtualProject, strategy: SourceStrategy) -> (r: Result<
    (Option<PackageName>, FlatGroups, SourceOverrideTable),
    MetadataError,
>)
    ensures
        match staged(project.deep_view(), strategy) {
            Err(e) => r matches Err(err) && err.deep_view() == e,
            Ok(merged) => r matches Ok(parts) && name_view(parts.0) == project.deep_view().name
                && parts.1.deep_view() == merged && parts.2.deep_view()
                == project.deep_view().sources,
        },
{
    let VirtualProject { name, dependency_groups, dev_dependencies, sources } = project;
    let flat = match flatten(&dependency_groups) {
        Ok(flat) => flat,
        Err(e) => {
            return Err(e);
        },
    };
    let merged = merge_legacy(flat, dev_dependencies);
    match strategy {
        SourceStrategy::Disabled => Ok((name, merged, sources)),
        SourceStrategy::Enabled => {
            match SourcedDependencyGroups::validate_sources(&sources, &merged) {
                Ok(()) => Ok((name, merged, sources)),
                Err(e) => Err(e),
            }
        },
    }
}

impl SourcedDependencyGroups {
    /// Resolves the dependency groups of a discovered project.
    ///
    /// The groups are flattened, the legacy list is merged into the group
    /// `dev`, the source overrides are validated, and every requirement is
    /// lowered; `lower_requirement` resolves the source of each requirement
    /// to which an override applies. The first failure ends the work.
    ///
    /// With the strategy disabled the source overrides are left aside: they
    /// are neither validated nor applied, and `lower_requirement` is not
    /// called.
    pub fn from_virtual_project<F>(
        project: VirtualProject,
        source_strategy: SourceStrategy,
        lower_requirement: F,
    ) -> (r: Result<SourcedDependencyGroups, MetadataError>) where
        F: Fn(&LoweringRequest) -> Result<Requirement, LoweringError>,

        requires
            forall|request: &LoweringRequest| call_requires(lower_requirement, (request,)),
        ensures
            resolved_with(r, project.deep_view(), source_strategy, lower_requirement),
    {
        match stage(project, source_strategy) {
            Ok((name, groups, sources)) => lower(
                name,
                groups,
                sources,
                source_strategy,
                lower_requirement,
            ),
            Err(e) => Err(e),
        }
    }

    /// Resolves the dependency groups of a discovered project as far as
    /// that can be done without resolving a source, and returns the first
    /// step of the lowering.
    ///
    /// This is for a caller whose resolver of sources cannot be called from
    /// within the library: it resolves what each step asks for and hands it
    /// to [`PendingLowering::supply`](crate::lower::PendingLowering::supply).
    pub fn begin_virtual_project(project: VirtualProject, source_strategy: SourceStrategy) -> (r:
        Result<LoweringStep, MetadataError>)
        ensures
            first_step_spec(r, project.deep_view(), source_strategy),
    {
        match stage(project, source_strategy) {
            Ok((name, groups, sources)) => Ok(begin(name, groups, sources, source_strategy)),
            Err(e) => Err(e),
        }
    }
}

/// With the strategy disabled the source overrides play no part: the
/// stages before lowering come to the same whatever the overrides are, only
/// the declaration of the groups can make them fail, and the lowering is
/// finished at its first step.
pub proof fn lemma_disabled_leaves_overrides_aside(
    r: Result<LoweringStep, MetadataError>,
    project: VirtualProjectView,
    other: Overrides,
)
    ensures
        staged(project, SourceStrategy::Disabled) == staged(
            VirtualProjectView { sources: other, ..project },
            SourceStrategy::Disabled,
        ),
        staged(project, SourceStrategy::Disabled) is Err <==> flatten_spec(
            project.dependency_groups,
        ) is Err,
        first_step_spec(r, project, SourceStrategy::Disabled) == first_step_spec(
            r,
            VirtualProjectView { sources: other, ..project },
            SourceStrategy::Disabled,
        ),
        first_step_spec(r, project, SourceStrategy::Disabled) ==> (r matches Ok(step)
            ==> step is Done),
{
}

/// With the strategy disabled the resolution of a project is the same
/// whatever the overrides and whatever the resolver: it fails only where
/// flattening fails, and otherwise gives every requirement its plain form.
pub proof fn lemma_disabled_resolution<F, G>(
    r: Result<SourcedDependencyGroups, MetadataError>,
    project: VirtualProjectView,
    other: Overrides,
    resolve: F,
    another: G,
) where
    F: Fn(&LoweringRequest) -> Result<Requirement, LoweringError>,
    G: Fn(&LoweringRequest) -> Result<Requirement, LoweringError>,

    ensures
        resolved_with(r, project, SourceStrategy::Disabled, resolve) == resolved_with(
            r,
            VirtualProjectView { sources: other, ..project },
            SourceStrategy::Disabled,
            another,
        ),
        resolved_with(r, project, SourceStrategy::Disabled, resolve) ==> (r is Err
            <==> flatten_spec(project.dependency_groups) is Err),
{
}

/// The errors of the stages before lowering are those of the stages: a
/// cycle or an undeclared group from flattening, and, with the strategy
/// enabled, a missing or an incomplete group from validation.
pub proof fn lemma_stage_errors(project: VirtualProjectView, strategy: SourceStrategy)
    requires
        project.dependency_groups.wf(),
        project.sources.wf(),
    ensures
        staged(project, strategy) matches Err(e) ==> match e {
            MetadataErrorView::CyclicGroupInclusion(group) => error_is_sound(
                project.dependency_groups,
                e,
            ),
            MetadataErrorView::UnknownGroupReference(referrer, missing) => error_is_sound(
                project.dependency_groups,
                e,
            ),
            MetadataErrorView::MissingSourceGroup(package, group) => strategy
                == SourceStrategy::Enabled && flatten_spec(project.dependency_groups) is Ok,
            MetadataErrorView::IncompleteSourceGroup(package, group) => strategy
                == SourceStrategy::Enabled && flatten_spec(project.dependency_groups) is Ok,
            _ => false,
        },
{
    lemma_flatten_error_sound(project.dependency_groups);
    match flatten_spec(project.dependency_groups) {
        Err(e) => {},
        Ok(flat) => {
            let merged = merge_spec(flat, project.dev_dependencies);
            lemma_validation_verdict(merged, project.sources);
        },
    }
}

} // verus!
