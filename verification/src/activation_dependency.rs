//! Resolution of the assemblies that a manifest depends on, within fixed limits.
//!
//! Where manifests come from is up to a catalog. The resolver asks it for one assembly after the
//! other in breadth-first order, and checks every manifest that it gets before the assembly is
//! admitted.

use vstd::prelude::*;

use crate::activation::{
    MAX_MANIFEST_BYTES, STATUS_SXS_CANT_GEN_ACTCTX, STATUS_SXS_INVALID_ACTCTXDATA_FORMAT,
};
use crate::activation_manifest::xml::{find_ascii, find_unit, first_occurrence, first_unit, occurs};
use crate::activation_manifest::{
    dependency_models, details_of, extend_ascii, is_part, parse_manifest_details, text_of, wide,
    AssemblyIdentity, DependencyModel, DetailsModel, IdentityModel, ManifestDependency,
    ParsedManifestDetails,
};
use crate::bytes::{copy_units, push_units};
use crate::decimal::{decimal, digits_value, parse_digits, push_decimal_u16, version_text};
use crate::strings::{equal_unicode_string, upcase_all};
use crate::NtStatus;

pub mod laws;

verus! {

/// Memory ran out.
pub const STATUS_NO_MEMORY: NtStatus = 0xC000_0017;

/// A manifest and the paths that belong to it.
#[derive(Clone, Debug, Default, PartialEq, Eq)]
pub struct ActivationManifestSource {
    /// What the activation context was made from, such as an executable or manifest path.
    pub source: Vec<u16>,
    /// The path of the manifest itself.
    pub manifest_path: Vec<u16>,
    /// The directory from which private assembly files are loaded.
    pub assembly_directory: Vec<u16>,
    /// The bytes of the manifest.
    pub manifest: Vec<u8>,
    /// Shared assemblies may have a newer build or revision than was asked for; private ones must
    /// have the very version.
    pub shared: bool,
}

/// A manifest and the paths that belong to it.
#[verifier::ext_equal]
pub struct SourceModel {
    pub source: Seq<u16>,
    pub manifest_path: Seq<u16>,
    pub assembly_directory: Seq<u16>,
    pub manifest: Seq<u8>,
    pub shared: bool,
}

impl View for ActivationManifestSource {
    type V = SourceModel;

    open spec fn view(&self) -> SourceModel {
        SourceModel {
            source: self.source@,
            manifest_path: self.manifest_path@,
            assembly_directory: self.assembly_directory@,
            manifest: self.manifest@,
            shared: self.shared,
        }
    }
}

/// An assembly that is asked for.
#[derive(Clone, Debug, Default, PartialEq, Eq)]
pub struct AssemblyRequest {
    pub identity: AssemblyIdentity,
    pub language: Option<Vec<u16>>,
}

/// An assembly that is asked for.
#[verifier::ext_equal]
pub struct RequestModel {
    pub identity: IdentityModel,
    pub language: Option<Seq<u16>>,
}

impl View for AssemblyRequest {
    type V = RequestModel;

    open spec fn view(&self) -> RequestModel {
        RequestModel { identity: self.identity@, language: text_of(self.language) }
    }
}

/// What a catalog answers: a manifest, nothing, or a failure.
pub type AnswerModel = Result<Option<SourceModel>, NtStatus>;

/// The answer that a result stands for.
pub open spec fn answer_of(r: Result<Option<ActivationManifestSource>, NtStatus>) -> AnswerModel {
    match r {
        Ok(Some(source)) => Ok(Some(source@)),
        Ok(None) => Ok(None),
        Err(status) => Err(status),
    }
}

/// Where manifests come from. What is returned is not trusted: its identity is checked before the
/// assembly is admitted.
///
/// An impl defines `history` along with `resolve`: the body that stands in for it says that nothing
/// was ever asked, which no impl of `resolve` can keep up.
pub trait ActivationManifestCatalog {
    /// What was asked so far, and what was answered.
    open spec fn history(&self) -> Seq<(RequestModel, AnswerModel)> {
        Seq::empty()
    }

    fn resolve(&mut self, request: &AssemblyRequest) -> (r: Result<
        Option<ActivationManifestSource>,
        NtStatus,
    >)
        ensures
            final(self).history() == old(self).history().push((request@, answer_of(r))),
    ;
}

/// The limits of one resolution.
#[derive(Clone, Copy, Debug, PartialEq, Eq)]
pub struct ActivationResolverLimits {
    /// The root and all assemblies that are admitted.
    pub max_assemblies: usize,
    /// All requests that are queued.
    pub max_dependency_requests: usize,
    /// How deep dependencies go. The root is at depth zero.
    pub max_depth: usize,
    /// The bytes of all manifests, the root among them.
    pub max_manifest_bytes: usize,
}

impl Default for ActivationResolverLimits {
    fn default() -> (limits: Self)
        ensures
            limits == (ActivationResolverLimits {
                max_assemblies: 256,
                max_dependency_requests: 1_024,
                max_depth: 32,
                max_manifest_bytes: MAX_MANIFEST_BYTES,
            }),
    {
        ActivationResolverLimits {
            max_assemblies: 256,
            max_dependency_requests: 1_024,
            max_depth: 32,
            max_manifest_bytes: MAX_MANIFEST_BYTES,
        }
    }
}

/// One assembly in roster order.
#[derive(Clone, Debug, PartialEq, Eq)]
pub struct ResolvedActivationAssembly {
    /// Roster indices start at one, which is the root.
    pub roster_index: u32,
    pub source: ActivationManifestSource,
    pub details: ParsedManifestDetails,
}

/// One assembly in roster order.
#[verifier::ext_equal]
pub struct AssemblyModel {
    pub roster_index: u32,
    pub source: SourceModel,
    pub details: DetailsModel,
}

impl View for ResolvedActivationAssembly {
    type V = AssemblyModel;

    open spec fn view(&self) -> AssemblyModel {
        AssemblyModel {
            roster_index: self.roster_index,
            source: self.source@,
            details: self.details@,
        }
    }
}

/// The models of assemblies.
pub open spec fn assembly_models(assemblies: Seq<ResolvedActivationAssembly>) -> Seq<
    AssemblyModel,
> {
    assemblies.map_values(|a: ResolvedActivationAssembly| a@)
}

/// A resolved roster of assemblies.
#[derive(Clone, Debug, Default, PartialEq, Eq)]
pub struct ResolvedActivationContext {
    pub assemblies: Vec<ResolvedActivationAssembly>,
    pub manifest_bytes: usize,
}

// ---------------------------------------------------------------------------------------------
// Matching
// ---------------------------------------------------------------------------------------------

/// Whether two texts are both absent, or both there and equal but for case.
pub open spec fn same_optional_text(left: Option<Seq<u16>>, right: Option<Seq<u16>>) -> bool {
    match (left, right) {
        (Some(left), Some(right)) => upcase_all(left) == upcase_all(right),
        (None, None) => true,
        _ => false,
    }
}

/// Whether a pair of numbers is at least another, the first number deciding.
pub open spec fn pair_at_least(a: (u16, u16), b: (u16, u16)) -> bool {
    a.0 > b.0 || (a.0 == b.0 && a.1 >= b.1)
}

/// Whether a version serves a request: the first two parts are equal, the last two at least as
/// large.
pub open spec fn version_serves(request: Seq<u16>, candidate: Seq<u16>) -> bool {
    request[0] == candidate[0] && request[1] == candidate[1] && pair_at_least(
        (candidate[2], candidate[3]),
        (request[2], request[3]),
    )
}

/// Whether a text is an asterisk.
pub open spec fn is_star(w: Seq<u16>) -> bool {
    w.len() == 1 && w[0] == 0x2a
}

/// Whether two languages agree: one is absent or an asterisk, or they are equal but for case.
pub open spec fn languages_agree(left: Option<Seq<u16>>, right: Option<Seq<u16>>) -> bool {
    match (left, right) {
        (Some(left), Some(right)) => is_star(left) || is_star(right) || upcase_all(left)
            == upcase_all(right),
        _ => true,
    }
}

/// Whether an assembly serves a request. The kind of assembly does not count.
pub open spec fn serves(
    request: RequestModel,
    identity: IdentityModel,
    language: Option<Seq<u16>>,
) -> bool {
    &&& same_optional_text(request.identity.name, identity.name)
    &&& same_optional_text(
        request.identity.processor_architecture,
        identity.processor_architecture,
    )
    &&& same_optional_text(request.identity.public_key_token, identity.public_key_token)
    &&& version_serves(request.identity.version, identity.version)
    &&& languages_agree(request.language, language)
}

/// An assembly serves a request for itself.
pub proof fn assemblies_serve_themselves(request: RequestModel)
    ensures
        serves(request, request.identity, request.language),
{
}

fn optional_units_equal_ci(left: &Option<Vec<u16>>, right: &Option<Vec<u16>>) -> (equal: bool)
    ensures
        equal == same_optional_text(text_of(*left), text_of(*right)),
{
    match (left, right) {
        (Some(left), Some(right)) => equal_unicode_string(left, right, true),
        (None, None) => true,
        _ => false,
    }
}

fn version_matches(request: [u16; 4], candidate: [u16; 4]) -> (ok: bool)
    ensures
        ok == version_serves(request@, candidate@),
{
    request[0] == candidate[0] && request[1] == candidate[1] && (candidate[2] > request[2] || (
    candidate[2] == request[2] && candidate[3] >= request[3]))
}

fn is_wildcard(value: &[u16]) -> (yes: bool)
    ensures
        yes == is_star(value@),
{
    value.len() == 1 && value[0] == 0x2a
}

fn language_matches(left: &Option<Vec<u16>>, right: Option<&[u16]>) -> (ok: bool)
    ensures
        ok == languages_agree(text_of(*left), slice_text(right)),
{
    match (left, right) {
        (Some(left), Some(right)) => is_wildcard(left) || is_wildcard(right)
            || equal_unicode_string(left, right, true),
        _ => true,
    }
}

/// A borrowed text that may be absent.
pub open spec fn slice_text(text: Option<&[u16]>) -> Option<Seq<u16>> {
    match text {
        Some(text) => Some(text@),
        None => None,
    }
}

/// Whether an assembly with an identity and a language serves a request.
pub fn assembly_request_matches(
    request: &AssemblyRequest,
    candidate_identity: &AssemblyIdentity,
    candidate_language: Option<&[u16]>,
) -> (ok: bool)
    ensures
        ok == serves(request@, candidate_identity@, slice_text(candidate_language)),
{
    optional_units_equal_ci(&request.identity.name, &candidate_identity.name)
        && optional_units_equal_ci(
        &request.identity.processor_architecture,
        &candidate_identity.processor_architecture,
    ) && optional_units_equal_ci(
        &request.identity.public_key_token,
        &candidate_identity.public_key_token,
    ) && version_matches(request.identity.version, candidate_identity.version) && language_matches(
        &request.language,
        candidate_language,
    )
}

/// A borrowed text that may be absent.
fn borrow_text(text: &Option<Vec<u16>>) -> (r: Option<&[u16]>)
    ensures
        slice_text(r) == text_of(*text),
{
    match text {
        Some(text) => Some(text.as_slice()),
        None => None,
    }
}

/// Whether an assembly that was found serves a request: a private one must have the very version.
pub open spec fn source_serves(
    request: RequestModel,
    identity: IdentityModel,
    language: Option<Seq<u16>>,
    shared: bool,
) -> bool {
    serves(request, identity, language) && (shared || request.identity.version
        == identity.version)
}

fn assembly_request_matches_source(
    request: &AssemblyRequest,
    details: &ParsedManifestDetails,
    shared: bool,
) -> (ok: bool)
    ensures
        ok == source_serves(
            request@,
            details@.root.identity,
            details@.root_language,
            shared,
        ),
{
    let asked: [u16; 4] = request.identity.version;
    let found: [u16; 4] = details.root.assembly_identity.version;
    let same: bool = asked[0] == found[0] && asked[1] == found[1] && asked[2] == found[2]
        && asked[3] == found[3];
    assert(same == (asked@ == found@)) by {
        if same {
            assert(asked@ =~= found@);
        }
    }
    assembly_request_matches(
        request,
        &details.root.assembly_identity,
        borrow_text(&details.root_language),
    ) && (shared || same)
}

// ---------------------------------------------------------------------------------------------
// The queue
// ---------------------------------------------------------------------------------------------

/// A request that waits.
struct PendingDependency {
    request: AssemblyRequest,
    depth: usize,
    required: bool,
}

/// A request that waits.
#[verifier::ext_equal]
pub struct PendingModel {
    pub request: RequestModel,
    pub depth: int,
    pub required: bool,
}

impl View for PendingDependency {
    type V = PendingModel;

    closed spec fn view(&self) -> PendingModel {
        PendingModel {
            request: self.request@,
            depth: self.depth as int,
            required: self.required,
        }
    }
}

/// The models of waiting requests.
spec fn pending_models(queue: Seq<PendingDependency>) -> Seq<PendingModel> {
    queue.map_values(|p: PendingDependency| p@)
}

/// The request for a dependency: an architecture of an asterisk is the current one, where that is
/// known.
pub open spec fn normalized(d: DependencyModel, current: Option<Seq<u16>>) -> RequestModel {
    let architecture = match (d.identity.processor_architecture, current) {
        (Some(asked), Some(current)) => if is_star(asked) {
            Some(current)
        } else {
            Some(asked)
        },
        (asked, _) => asked,
    };
    RequestModel {
        identity: IdentityModel { processor_architecture: architecture, ..d.identity },
        language: d.language,
    }
}

/// Whether an assembly of the roster serves a request.
pub open spec fn in_roster(assemblies: Seq<AssemblyModel>, request: RequestModel) -> bool {
    exists|i: int|
        0 <= i < assemblies.len() && serves(
            request,
            (#[trigger] assemblies[i]).details.root.identity,
            assemblies[i].details.root_language,
        )
}

/// The first request at or behind `at` whose answer would serve a request too.
pub open spec fn first_serving(queue: Seq<PendingModel>, at: int, request: RequestModel) -> Option<
    int,
>
    decreases queue.len() - at,
{
    if at >= queue.len() {
        None
    } else if serves(request, queue[at].request.identity, queue[at].request.language) {
        Some(at)
    } else {
        first_serving(queue, at + 1, request)
    }
}

/// The queue with one dependency of an assembly added. One that the roster serves adds nothing; one
/// that a waiting request serves makes that one required if it is required itself.
pub open spec fn with_dependency(
    assemblies: Seq<AssemblyModel>,
    queue: Seq<PendingModel>,
    cursor: int,
    limits: ActivationResolverLimits,
    current: Option<Seq<u16>>,
    depth: int,
    d: DependencyModel,
) -> Result<Seq<PendingModel>, NtStatus> {
    let request = normalized(d, current);
    let required = !d.optional && !d.delayed;
    if in_roster(assemblies, request) {
        Ok(queue)
    } else {
        match first_serving(queue, cursor, request) {
            Some(i) => Ok(
                queue.update(i, PendingModel { required: queue[i].required || required, ..queue[i] }),
            ),
            None => if depth > limits.max_depth || queue.len() >= limits.max_dependency_requests {
                Err(STATUS_SXS_CANT_GEN_ACTCTX)
            } else {
                Ok(queue.push(PendingModel { request, depth, required }))
            },
        }
    }
}

/// The queue with the dependencies from `k` on added.
pub open spec fn with_dependencies(
    assemblies: Seq<AssemblyModel>,
    queue: Seq<PendingModel>,
    cursor: int,
    limits: ActivationResolverLimits,
    current: Option<Seq<u16>>,
    depth: int,
    dependencies: Seq<DependencyModel>,
    k: int,
) -> Result<Seq<PendingModel>, NtStatus>
    decreases dependencies.len() - k,
{
    if k >= dependencies.len() {
        Ok(queue)
    } else {
        match with_dependency(assemblies, queue, cursor, limits, current, depth, dependencies[k]) {
            Ok(next) => with_dependencies(
                assemblies,
                next,
                cursor,
                limits,
                current,
                depth,
                dependencies,
                k + 1,
            ),
            Err(status) => Err(status),
        }
    }
}

fn clone_optional_units(value: &Option<Vec<u16>>) -> (copy: Option<Vec<u16>>)
    ensures
        text_of(copy) == text_of(*value),
{
    match value {
        Some(value) => Some(copy_units(value)),
        None => None,
    }
}

fn clone_identity(identity: &AssemblyIdentity) -> (copy: AssemblyIdentity)
    ensures
        copy@ == identity@,
{
    AssemblyIdentity {
        name: clone_optional_units(&identity.name),
        processor_architecture: clone_optional_units(&identity.processor_architecture),
        public_key_token: clone_optional_units(&identity.public_key_token),
        kind: clone_optional_units(&identity.kind),
        version: identity.version,
    }
}

/// The request for a dependency.
fn normalize_dependency(dependency: &ManifestDependency, current: Option<&[u16]>) -> (request:
    AssemblyRequest)
    ensures
        request@ == normalized(dependency@, slice_text(current)),
{
    let mut identity = clone_identity(&dependency.identity);
    let starred: bool = match &identity.processor_architecture {
        Some(architecture) => is_wildcard(architecture),
        None => false,
    };
    if starred {
        match current {
            Some(architecture) => {
                identity.processor_architecture = Some(copy_units(architecture));
            },
            None => {},
        }
    }
    let language = clone_optional_units(&dependency.language);
    AssemblyRequest { identity, language }
}

fn roster_serves(assemblies: &Vec<ResolvedActivationAssembly>, request: &AssemblyRequest) -> (found:
    bool)
    ensures
        found == in_roster(assembly_models(assemblies@), request@),
{
    let ghost models = assembly_models(assemblies@);
    let mut i: usize = 0;
    while i < assemblies.len()
        invariant
            i <= assemblies@.len(),
            models == assembly_models(assemblies@),
            forall|j: int|
                0 <= j < i ==> !serves(
                    request@,
                    (#[trigger] models[j]).details.root.identity,
                    models[j].details.root_language,
                ),
        decreases assemblies@.len() - i,
    {
        assert(models[i as int] == assemblies@[i as int]@);
        let details = &assemblies[i].details;
        if assembly_request_matches(
            request,
            &details.root.assembly_identity,
            borrow_text(&details.root_language),
        ) {
            return true;
        }
        i += 1;
    }
    false
}

fn find_serving(queue: &Vec<PendingDependency>, cursor: usize, request: &AssemblyRequest) -> (r:
    Option<usize>)
    ensures
        match r {
            Some(i) => first_serving(pending_models(queue@), cursor as int, request@) == Some(
                i as int,
            ) && cursor <= i < queue@.len(),
            None => first_serving(pending_models(queue@), cursor as int, request@) is None,
        },
{
    let ghost models = pending_models(queue@);
    let mut i: usize = cursor;
    while i < queue.len()
        invariant
            cursor <= i,
            models == pending_models(queue@),
            first_serving(models, cursor as int, request@) == first_serving(
                models,
                i as int,
                request@,
            ),
        decreases queue@.len() - i,
    {
        assert(models[i as int] == queue@[i as int]@);
        let waiting = &queue[i].request;
        if assembly_request_matches(request, &waiting.identity, borrow_text(&waiting.language)) {
            return Some(i);
        }
        i += 1;
    }
    None
}

/// Add the dependencies of the last assembly to the queue. Nothing is promised of the queue where
/// that fails.
fn enqueue_assembly_dependencies(
    depth: usize,
    current: Option<&[u16]>,
    limits: &ActivationResolverLimits,
    assemblies: &Vec<ResolvedActivationAssembly>,
    queue: &mut Vec<PendingDependency>,
    cursor: usize,
) -> (r: Result<(), NtStatus>)
    requires
        assemblies@.len() > 0,
        old(queue)@.len() <= limits.max_dependency_requests,
    ensures
        final(queue)@.len() <= limits.max_dependency_requests,
        final(queue)@.len() >= old(queue)@.len(),
        match with_dependencies(
            assembly_models(assemblies@),
            pending_models(old(queue)@),
            cursor as int,
            *limits,
            slice_text(current),
            depth as int,
            assembly_models(assemblies@).last().details.dependencies,
            0,
        ) {
            Ok(after) => r is Ok && pending_models(final(queue)@) == after,
            Err(status) => r == Err::<(), NtStatus>(status),
        },
{
    let last: usize = assemblies.len() - 1;
    let dependencies = &assemblies[last].details.dependencies;
    let ghost models = assembly_models(assemblies@);
    let ghost all = models.last().details.dependencies;
    let ghost start = pending_models(queue@);
    assert(models.last() == assemblies@[last as int]@);
    let mut k: usize = 0;
    while k < dependencies.len()
        invariant
            k <= dependencies@.len(),
            all == dependency_models(dependencies@),
            models == assembly_models(assemblies@),
            queue@.len() <= limits.max_dependency_requests,
            queue@.len() >= old(queue)@.len(),
            start == pending_models(old(queue)@),
            with_dependencies(
                models,
                start,
                cursor as int,
                *limits,
                slice_text(current),
                depth as int,
                all,
                0,
            ) == with_dependencies(
                models,
                pending_models(queue@),
                cursor as int,
                *limits,
                slice_text(current),
                depth as int,
                all,
                k as int,
            ),
            all == models.last().details.dependencies,
        decreases dependencies@.len() - k,
    {
        let ghost before = queue@;
        let dependency = &dependencies[k];
        assert(all[k as int] == dependency@);
        let request = normalize_dependency(dependency, current);
        let required: bool = !dependency.optional && !dependency.delayed;
        if !roster_serves(assemblies, &request) {
            match find_serving(queue, cursor, &request) {
                Some(i) => {
                    let was: bool = queue[i].required;
                    queue[i].required = was || required;
                    assert(pending_models(queue@) =~= pending_models(before).update(
                        i as int,
                        PendingModel {
                            required: before[i as int]@.required || required,
                            ..before[i as int]@
                        },
                    ));
                },
                None => {
                    if depth > limits.max_depth || queue.len() >= limits.max_dependency_requests {
                        return Err(STATUS_SXS_CANT_GEN_ACTCTX);
                    }
                    let pending = PendingDependency { request, depth, required };
                    queue.push(pending);
                    assert(pending_models(queue@) =~= pending_models(before).push(pending@));
                },
            }
        }
        k += 1;
    }
    Ok(())
}

// ---------------------------------------------------------------------------------------------
// Resolution
// ---------------------------------------------------------------------------------------------

/// How far a resolution has come.
#[verifier::ext_equal]
pub struct Progress {
    pub assemblies: Seq<AssemblyModel>,
    pub queue: Seq<PendingModel>,
    /// How many requests were answered.
    pub cursor: int,
    /// The bytes of all admitted manifests.
    pub manifest_bytes: int,
}

/// The start of a resolution: the roster holds the root, and its dependencies wait.
pub open spec fn started(
    root: SourceModel,
    current: Option<Seq<u16>>,
    limits: ActivationResolverLimits,
) -> Result<Progress, NtStatus> {
    if limits.max_assemblies == 0 || root.manifest.len() > limits.max_manifest_bytes {
        Err(STATUS_SXS_CANT_GEN_ACTCTX)
    } else {
        match details_of(root.manifest) {
            Ok(details) => {
                let assemblies = seq![AssemblyModel { roster_index: 1, source: root, details }];
                match with_dependencies(
                    assemblies,
                    Seq::empty(),
                    0,
                    limits,
                    current,
                    1,
                    details.dependencies,
                    0,
                ) {
                    Ok(queue) => Ok(
                        Progress {
                            assemblies,
                            queue,
                            cursor: 0,
                            manifest_bytes: root.manifest.len() as int,
                        },
                    ),
                    Err(status) => Err(status),
                }
            },
            Err(status) => Err(status),
        }
    }
}

/// What a manifest that was found says, or why it is not admitted.
pub open spec fn candidate(
    p: Progress,
    limits: ActivationResolverLimits,
    source: SourceModel,
) -> Result<DetailsModel, NtStatus> {
    if p.assemblies.len() >= limits.max_assemblies || p.manifest_bytes + source.manifest.len()
        > limits.max_manifest_bytes {
        Err(STATUS_SXS_CANT_GEN_ACTCTX)
    } else {
        match details_of(source.manifest) {
            Ok(details) => if source_serves(
                p.queue[p.cursor].request,
                details.root.identity,
                details.root_language,
                source.shared,
            ) {
                Ok(details)
            } else {
                Err(STATUS_SXS_CANT_GEN_ACTCTX)
            },
            Err(status) => Err(status),
        }
    }
}

/// The resolution with an assembly admitted and its dependencies queued.
pub open spec fn admitted(
    p: Progress,
    current: Option<Seq<u16>>,
    limits: ActivationResolverLimits,
    source: SourceModel,
    details: DetailsModel,
) -> Result<Progress, NtStatus> {
    let depth = p.queue[p.cursor].depth + 1;
    if p.assemblies.len() + 1 > u32::MAX || depth > usize::MAX {
        Err(STATUS_SXS_CANT_GEN_ACTCTX)
    } else {
        let assemblies = p.assemblies.push(
            AssemblyModel { roster_index: (p.assemblies.len() + 1) as u32, source, details },
        );
        match with_dependencies(
            assemblies,
            p.queue,
            p.cursor + 1,
            limits,
            current,
            depth,
            details.dependencies,
            0,
        ) {
            Ok(queue) => Ok(
                Progress {
                    assemblies,
                    queue,
                    cursor: p.cursor + 1,
                    manifest_bytes: p.manifest_bytes + source.manifest.len(),
                },
            ),
            Err(status) => Err(status),
        }
    }
}

/// The resolution after the answer to the request at its cursor. What is wrong with an answer to a
/// request that is not required is passed over.
pub open spec fn answered(
    p: Progress,
    current: Option<Seq<u16>>,
    limits: ActivationResolverLimits,
    answer: AnswerModel,
) -> Result<Progress, NtStatus> {
    let refused = |status: NtStatus|
        if p.queue[p.cursor].required {
            Err(status)
        } else {
            Ok::<Progress, NtStatus>(Progress { cursor: p.cursor + 1, ..p })
        };
    match answer {
        Ok(Some(source)) => match candidate(p, limits, source) {
            Ok(details) => admitted(p, current, limits, source, details),
            Err(status) => refused(status),
        },
        Ok(None) => refused(STATUS_SXS_CANT_GEN_ACTCTX),
        Err(status) => refused(status),
    }
}

/// The sum of the lengths of the manifests of a roster.
pub open spec fn total_bytes(assemblies: Seq<AssemblyModel>) -> int
    decreases assemblies.len(),
{
    if assemblies.len() == 0 {
        0
    } else {
        total_bytes(assemblies.drop_last()) + assemblies.last().source.manifest.len()
    }
}

/// Whether a roster counts from one, holds what its manifests say, and keeps to the limits.
pub open spec fn roster_ok(assemblies: Seq<AssemblyModel>, limits: ActivationResolverLimits) -> bool {
    &&& 1 <= assemblies.len() <= limits.max_assemblies
    &&& total_bytes(assemblies) <= limits.max_manifest_bytes
    &&& forall|i: int|
        0 <= i < assemblies.len() ==> (#[trigger] assemblies[i]).roster_index == i + 1
            && details_of(assemblies[i].source.manifest) == Ok::<DetailsModel, NtStatus>(
            assemblies[i].details,
        )
}

/// Whether a resolution is in order.
pub open spec fn progress_ok(p: Progress, limits: ActivationResolverLimits) -> bool {
    &&& roster_ok(p.assemblies, limits)
    &&& p.manifest_bytes == total_bytes(p.assemblies)
    &&& 0 <= p.cursor <= p.queue.len() <= limits.max_dependency_requests
    &&& forall|i: int| 0 <= i < p.queue.len() ==> 0 <= (#[trigger] p.queue[i]).depth
        <= limits.max_depth
}

proof fn lemma_with_dependencies_ok(
    assemblies: Seq<AssemblyModel>,
    queue: Seq<PendingModel>,
    cursor: int,
    limits: ActivationResolverLimits,
    current: Option<Seq<u16>>,
    depth: int,
    dependencies: Seq<DependencyModel>,
    k: int,
)
    requires
        0 <= depth,
        0 <= cursor,
        queue.len() <= limits.max_dependency_requests,
        forall|i: int| 0 <= i < queue.len() ==> 0 <= (#[trigger] queue[i]).depth
            <= limits.max_depth,
    ensures
        with_dependencies(assemblies, queue, cursor, limits, current, depth, dependencies, k)
            matches Ok(after) ==> {
            &&& queue.len() <= after.len() <= limits.max_dependency_requests
            &&& forall|i: int| 0 <= i < after.len() ==> 0 <= (#[trigger] after[i]).depth
                <= limits.max_depth
        },
    decreases dependencies.len() - k,
{
    if k < dependencies.len() {
        let d = dependencies[k];
        if let Ok(next) = with_dependency(
            assemblies,
            queue,
            cursor,
            limits,
            current,
            depth,
            d,
        ) {
            lemma_first_serving(queue, cursor, normalized(d, current));
            assert forall|i: int| 0 <= i < next.len() implies 0 <= (#[trigger] next[i]).depth
                <= limits.max_depth by {
                if i < queue.len() {
                    assert(next[i].depth == queue[i].depth);
                }
            }
            lemma_with_dependencies_ok(
                assemblies,
                next,
                cursor,
                limits,
                current,
                depth,
                dependencies,
                k + 1,
            );
        }
    }
}

proof fn lemma_first_serving(queue: Seq<PendingModel>, at: int, request: RequestModel)
    requires
        0 <= at,
    ensures
        first_serving(queue, at, request) matches Some(i) ==> at <= i < queue.len(),
    decreases queue.len() - at,
{
    if at < queue.len() {
        lemma_first_serving(queue, at + 1, request);
    }
}

/// A resolution starts in order.
pub proof fn start_is_in_order(
    root: SourceModel,
    current: Option<Seq<u16>>,
    limits: ActivationResolverLimits,
)
    ensures
        started(root, current, limits) matches Ok(p) ==> progress_ok(p, limits),
{
    if let Ok(p) = started(root, current, limits) {
        lemma_with_dependencies_ok(
            p.assemblies,
            Seq::empty(),
            0,
            limits,
            current,
            1,
            p.assemblies[0].details.dependencies,
            0,
        );
        assert(p.assemblies.drop_last() =~= Seq::empty());
        reveal_with_fuel(total_bytes, 2);
    }
}

/// Every answer, whatever it is, keeps a resolution in order.
pub proof fn answers_keep_order(
    p: Progress,
    current: Option<Seq<u16>>,
    limits: ActivationResolverLimits,
    answer: AnswerModel,
)
    requires
        progress_ok(p, limits),
        p.cursor < p.queue.len(),
    ensures
        answered(p, current, limits, answer) matches Ok(after) ==> progress_ok(after, limits)
            && after.cursor == p.cursor + 1,
{
    if let Ok(Some(source)) = answer {
        if let Ok(details) = candidate(p, limits, source) {
            if let Ok(after) = admitted(p, current, limits, source, details) {
                lemma_with_dependencies_ok(
                    after.assemblies,
                    p.queue,
                    p.cursor + 1,
                    limits,
                    current,
                    p.queue[p.cursor].depth + 1,
                    details.dependencies,
                    0,
                );
                assert(after.assemblies.drop_last() =~= p.assemblies);
            }
        }
    }
}

/// The outcome of a resolution that is answered by `history`. `None` if the history asks for other
/// assemblies, or for fewer or more.
pub open spec fn outcome_from(
    p: Progress,
    current: Option<Seq<u16>>,
    limits: ActivationResolverLimits,
    history: Seq<(RequestModel, AnswerModel)>,
) -> Option<Result<Progress, NtStatus>>
    decreases history.len(),
{
    if p.cursor >= p.queue.len() {
        if history.len() == 0 {
            Some(Ok(p))
        } else {
            None
        }
    } else if history.len() == 0 || history[0].0 != p.queue[p.cursor].request {
        None
    } else {
        match answered(p, current, limits, history[0].1) {
            Ok(next) => outcome_from(next, current, limits, history.skip(1)),
            Err(status) => if history.len() == 1 {
                Some(Err(status))
            } else {
                None
            },
        }
    }
}

/// The outcome of the resolution of `root` that is answered by `history`.
pub open spec fn outcome(
    root: SourceModel,
    current: Option<Seq<u16>>,
    limits: ActivationResolverLimits,
    history: Seq<(RequestModel, AnswerModel)>,
) -> Option<Result<Progress, NtStatus>> {
    match started(root, current, limits) {
        Ok(p) => outcome_from(p, current, limits, history),
        Err(status) => if history.len() == 0 {
            Some(Err(status))
        } else {
            None
        },
    }
}

/// A roster that a resolution gives is in order, whatever the catalog answered.
pub proof fn resolved_roster_is_in_order(
    root: SourceModel,
    current: Option<Seq<u16>>,
    limits: ActivationResolverLimits,
    history: Seq<(RequestModel, AnswerModel)>,
)
    ensures
        outcome(root, current, limits, history) matches Some(Ok(p)) ==> roster_ok(
            p.assemblies,
            limits,
        ) && p.manifest_bytes == total_bytes(p.assemblies) && p.assemblies[0].source == root,
{
    if let Ok(p) = started(root, current, limits) {
        start_is_in_order(root, current, limits);
        lemma_outcome_in_order(p, current, limits, history);
    }
}

proof fn lemma_outcome_in_order(
    p: Progress,
    current: Option<Seq<u16>>,
    limits: ActivationResolverLimits,
    history: Seq<(RequestModel, AnswerModel)>,
)
    requires
        progress_ok(p, limits),
    ensures
        outcome_from(p, current, limits, history) matches Some(Ok(after)) ==> progress_ok(
            after,
            limits,
        ) && after.assemblies[0] == p.assemblies[0],
    decreases history.len(),
{
    if p.cursor < p.queue.len() && history.len() > 0 {
        if let Ok(next) = answered(p, current, limits, history[0].1) {
            answers_keep_order(p, current, limits, history[0].1);
            lemma_outcome_in_order(next, current, limits, history.skip(1));
        }
    }
}

/// A resolution that takes one answer after the other.
pub struct ActivationResolution {
    assemblies: Vec<ResolvedActivationAssembly>,
    queue: Vec<PendingDependency>,
    cursor: usize,
    manifest_bytes: usize,
    limits: ActivationResolverLimits,
    architecture: Option<Vec<u16>>,
}

impl View for ActivationResolution {
    type V = Progress;

    closed spec fn view(&self) -> Progress {
        Progress {
            assemblies: assembly_models(self.assemblies@),
            queue: pending_models(self.queue@),
            cursor: self.cursor as int,
            manifest_bytes: self.manifest_bytes as int,
        }
    }
}

impl ActivationResolution {
    /// The limits of the resolution.
    pub closed spec fn bounds(self) -> ActivationResolverLimits {
        self.limits
    }

    /// The architecture that stands for an asterisk.
    pub closed spec fn current(self) -> Option<Seq<u16>> {
        text_of(self.architecture)
    }

    /// Whether the resolution is in order.
    pub open spec fn well_formed(self) -> bool {
        progress_ok(self@, self.bounds())
    }

    /// Start the resolution of `root`.
    pub fn begin(
        root: ActivationManifestSource,
        current_processor_architecture: Option<&[u16]>,
        limits: ActivationResolverLimits,
    ) -> (r: Result<Self, NtStatus>)
        ensures
            match r {
                Ok(resolution) => {
                    &&& started(root@, slice_text(current_processor_architecture), limits) == Ok::<
                        Progress,
                        NtStatus,
                    >(resolution@)
                    &&& resolution.bounds() == limits
                    &&& resolution.current() == slice_text(current_processor_architecture)
                    &&& resolution.well_formed()
                },
                Err(status) => started(root@, slice_text(current_processor_architecture), limits)
                    == Err::<Progress, NtStatus>(status),
            },
    {
        if limits.max_assemblies == 0 || root.manifest.len() > limits.max_manifest_bytes {
            return Err(STATUS_SXS_CANT_GEN_ACTCTX);
        }
        let details = match parse_manifest_details(&root.manifest) {
            Ok(details) => details,
            Err(status) => {
                return Err(status);
            },
        };
        let manifest_bytes: usize = root.manifest.len();
        let ghost first = AssemblyModel { roster_index: 1, source: root@, details: details@ };
        let mut assemblies: Vec<ResolvedActivationAssembly> = Vec::new();
        assemblies.push(ResolvedActivationAssembly { roster_index: 1, source: root, details });
        assert(assembly_models(assemblies@) =~= seq![first]);
        let mut queue: Vec<PendingDependency> = Vec::new();
        assert(pending_models(queue@) =~= Seq::empty());
        match enqueue_assembly_dependencies(
            1,
            current_processor_architecture,
            &limits,
            &assemblies,
            &mut queue,
            0,
        ) {
            Ok(()) => {},
            Err(status) => {
                return Err(status);
            },
        }
        let architecture: Option<Vec<u16>> = match current_processor_architecture {
            Some(architecture) => Some(copy_units(architecture)),
            None => None,
        };
        let resolution = ActivationResolution {
            assemblies,
            queue,
            cursor: 0,
            manifest_bytes,
            limits,
            architecture,
        };
        proof {
            start_is_in_order(root@, slice_text(current_processor_architecture), limits);
        }
        Ok(resolution)
    }

    /// The request that waits for an answer, if one does.
    pub fn pending(&self) -> (r: Option<&AssemblyRequest>)
        requires
            self.well_formed(),
        ensures
            match r {
                Some(request) => self@.cursor < self@.queue.len() && request@
                    == self@.queue[self@.cursor].request,
                None => self@.cursor == self@.queue.len(),
            },
    {
        if self.cursor < self.queue.len() {
            assert(pending_models(self.queue@)[self.cursor as int]
                == self.queue@[self.cursor as int]@);
            Some(&self.queue[self.cursor].request)
        } else {
            None
        }
    }

    /// What a manifest that was found says, or why it is not admitted.
    fn check_candidate(&self, source: &ActivationManifestSource) -> (r: Result<
        ParsedManifestDetails,
        NtStatus,
    >)
        requires
            self.well_formed(),
            self@.cursor < self@.queue.len(),
        ensures
            match r {
                Ok(details) => candidate(self@, self.bounds(), source@) == Ok::<
                    DetailsModel,
                    NtStatus,
                >(details@),
                Err(status) => candidate(self@, self.bounds(), source@) == Err::<
                    DetailsModel,
                    NtStatus,
                >(status),
            },
    {
        if self.assemblies.len() >= self.limits.max_assemblies {
            return Err(STATUS_SXS_CANT_GEN_ACTCTX);
        }
        match self.manifest_bytes.checked_add(source.manifest.len()) {
            Some(total) => if total > self.limits.max_manifest_bytes {
                return Err(STATUS_SXS_CANT_GEN_ACTCTX);
            },
            None => {
                return Err(STATUS_SXS_CANT_GEN_ACTCTX);
            },
        }
        assert(pending_models(self.queue@)[self.cursor as int] == self.queue@[self.cursor as int]@);
        match parse_manifest_details(&source.manifest) {
            Ok(details) => if assembly_request_matches_source(
                &self.queue[self.cursor].request,
                &details,
                source.shared,
            ) {
                Ok(details)
            } else {
                Err(STATUS_SXS_CANT_GEN_ACTCTX)
            },
            Err(status) => Err(status),
        }
    }

    /// Take in an assembly and queue its dependencies.
    fn take_in(&mut self, source: ActivationManifestSource, details: ParsedManifestDetails) -> (r:
        Result<(), NtStatus>)
        requires
            old(self).well_formed(),
            old(self)@.cursor < old(self)@.queue.len(),
            candidate(old(self)@, old(self).bounds(), source@) == Ok::<DetailsModel, NtStatus>(
                details@,
            ),
        ensures
            final(self).bounds() == old(self).bounds(),
            final(self).current() == old(self).current(),
            match admitted(
                old(self)@,
                old(self).current(),
                old(self).bounds(),
                source@,
                details@,
            ) {
                Ok(after) => r is Ok && final(self)@ == after,
                Err(status) => r == Err::<(), NtStatus>(status),
            },
    {
        let ghost before = self.assemblies@;
        assert(pending_models(self.queue@)[self.cursor as int] == self.queue@[self.cursor as int]@);
        let depth: usize = match self.queue[self.cursor].depth.checked_add(1) {
            Some(depth) => depth,
            None => {
                return Err(STATUS_SXS_CANT_GEN_ACTCTX);
            },
        };
        if self.assemblies.len() >= 0xffff_ffff {
            return Err(STATUS_SXS_CANT_GEN_ACTCTX);
        }
        let roster_index: u32 = self.assemblies.len() as u32 + 1;
        let next_bytes: usize = self.manifest_bytes + source.manifest.len();
        let assembly = ResolvedActivationAssembly { roster_index, source, details };
        self.cursor = self.cursor + 1;
        self.manifest_bytes = next_bytes;
        self.assemblies.push(assembly);
        assert(assembly_models(self.assemblies@) =~= assembly_models(before).push(assembly@));
        let current: Option<&[u16]> = borrow_text(&self.architecture);
        match enqueue_assembly_dependencies(
            depth,
            current,
            &self.limits,
            &self.assemblies,
            &mut self.queue,
            self.cursor,
        ) {
            Ok(()) => Ok(()),
            Err(status) => Err(status),
        }
    }

    /// Take the answer to the request that waits. Where this fails the resolution has failed.
    pub fn accept(&mut self, answer: Result<Option<ActivationManifestSource>, NtStatus>) -> (r:
        Result<(), NtStatus>)
        requires
            old(self).well_formed(),
            old(self)@.cursor < old(self)@.queue.len(),
        ensures
            final(self).bounds() == old(self).bounds(),
            final(self).current() == old(self).current(),
            r is Ok ==> final(self).well_formed() && final(self)@.cursor == old(self)@.cursor + 1,
            match answered(
                old(self)@,
                old(self).current(),
                old(self).bounds(),
                answer_of(answer),
            ) {
                Ok(after) => r is Ok && final(self)@ == after,
                Err(status) => r == Err::<(), NtStatus>(status),
            },
    {
        proof {
            answers_keep_order(self@, self.current(), self.bounds(), answer_of(answer));
        }
        assert(pending_models(self.queue@)[self.cursor as int] == self.queue@[self.cursor as int]@);
        let required: bool = self.queue[self.cursor].required;
        let refused: NtStatus = match answer {
            Ok(Some(source)) => match self.check_candidate(&source) {
                Ok(details) => {
                    return self.take_in(source, details);
                },
                Err(status) => status,
            },
            Ok(None) => STATUS_SXS_CANT_GEN_ACTCTX,
            Err(status) => status,
        };
        if required {
            return Err(refused);
        }
        self.cursor = self.cursor + 1;
        Ok(())
    }

    /// The roster as it stands.
    pub fn finish(self) -> (context: ResolvedActivationContext)
        ensures
            assembly_models(context.assemblies@) == self@.assemblies,
            context.manifest_bytes == self@.manifest_bytes,
    {
        ResolvedActivationContext {
            assemblies: self.assemblies,
            manifest_bytes: self.manifest_bytes,
        }
    }
}

/// Whether what was asked and answered so far leads from the start to `p`.
#[verifier::opaque]
spec fn leads_to(
    root: SourceModel,
    current: Option<Seq<u16>>,
    limits: ActivationResolverLimits,
    asked: Seq<(RequestModel, AnswerModel)>,
    p: Progress,
) -> bool {
    forall|rest: Seq<(RequestModel, AnswerModel)>| #[trigger]
        outcome(root, current, limits, asked + rest) == outcome_from(p, current, limits, rest)
}

proof fn lemma_leads_start(
    root: SourceModel,
    current: Option<Seq<u16>>,
    limits: ActivationResolverLimits,
    p: Progress,
)
    requires
        started(root, current, limits) == Ok::<Progress, NtStatus>(p),
    ensures
        leads_to(root, current, limits, Seq::empty(), p),
{
    reveal(leads_to);
    assert forall|rest: Seq<(RequestModel, AnswerModel)>|
        #[trigger] outcome(root, current, limits, Seq::empty() + rest) == outcome_from(
            p,
            current,
            limits,
            rest,
        ) by {
        assert(Seq::empty() + rest =~= rest);
    }
}

proof fn lemma_leads_step(
    root: SourceModel,
    current: Option<Seq<u16>>,
    limits: ActivationResolverLimits,
    asked: Seq<(RequestModel, AnswerModel)>,
    p: Progress,
    answer: AnswerModel,
    next: Progress,
)
    requires
        leads_to(root, current, limits, asked, p),
        p.cursor < p.queue.len(),
        answered(p, current, limits, answer) == Ok::<Progress, NtStatus>(next),
    ensures
        leads_to(root, current, limits, asked.push((p.queue[p.cursor].request, answer)), next),
{
    reveal(leads_to);
    let entry = (p.queue[p.cursor].request, answer);
    let longer = asked.push(entry);
    assert forall|rest: Seq<(RequestModel, AnswerModel)>|
        #[trigger] outcome(root, current, limits, longer + rest) == outcome_from(
            next,
            current,
            limits,
            rest,
        ) by {
        let more = seq![entry] + rest;
        assert(more.skip(1) =~= rest);
        assert(longer + rest =~= asked + more);
        assert(outcome(root, current, limits, asked + more) == outcome_from(
            p,
            current,
            limits,
            more,
        ));
    }
}

proof fn lemma_leads_end(
    root: SourceModel,
    current: Option<Seq<u16>>,
    limits: ActivationResolverLimits,
    asked: Seq<(RequestModel, AnswerModel)>,
    p: Progress,
)
    requires
        leads_to(root, current, limits, asked, p),
        p.cursor >= p.queue.len(),
    ensures
        outcome(root, current, limits, asked) == Some(Ok::<Progress, NtStatus>(p)),
{
    reveal(leads_to);
    let none: Seq<(RequestModel, AnswerModel)> = Seq::empty();
    assert(asked + none =~= asked);
    assert(outcome(root, current, limits, asked + none) == outcome_from(p, current, limits, none));
}

proof fn lemma_leads_fail(
    root: SourceModel,
    current: Option<Seq<u16>>,
    limits: ActivationResolverLimits,
    asked: Seq<(RequestModel, AnswerModel)>,
    p: Progress,
    answer: AnswerModel,
    status: NtStatus,
)
    requires
        leads_to(root, current, limits, asked, p),
        p.cursor < p.queue.len(),
        answered(p, current, limits, answer) == Err::<Progress, NtStatus>(status),
    ensures
        outcome(root, current, limits, asked.push((p.queue[p.cursor].request, answer))) == Some(
            Err::<Progress, NtStatus>(status),
        ),
{
    reveal(leads_to);
    let last = seq![(p.queue[p.cursor].request, answer)];
    assert(asked.push(last[0]) =~= asked + last);
    assert(outcome(root, current, limits, asked + last) == outcome_from(p, current, limits, last));
}

/// Resolve `root` and all that it depends on, breadth first. The catalog is asked for each waiting
/// request once, in order; the result is the outcome of what it answered.
pub fn resolve_activation_dependencies<C: ActivationManifestCatalog>(
    root: ActivationManifestSource,
    current_processor_architecture: Option<&[u16]>,
    limits: ActivationResolverLimits,
    catalog: &mut C,
) -> (r: Result<ResolvedActivationContext, NtStatus>)
    ensures
        old(catalog).history().is_prefix_of(final(catalog).history()),
        match outcome(
            root@,
            slice_text(current_processor_architecture),
            limits,
            final(catalog).history().skip(old(catalog).history().len() as int),
        ) {
            Some(Ok(p)) => r matches Ok(context) && assembly_models(context.assemblies@)
                == p.assemblies && context.manifest_bytes == p.manifest_bytes,
            Some(Err(status)) => r == Err::<ResolvedActivationContext, NtStatus>(status),
            None => false,
        },
{
    let ghost past = catalog.history();
    let ghost model = root@;
    let ghost current = slice_text(current_processor_architecture);
    assert(past.skip(past.len() as int) =~= Seq::empty());
    let mut resolution = match ActivationResolution::begin(
        root,
        current_processor_architecture,
        limits,
    ) {
        Ok(resolution) => resolution,
        Err(status) => {
            return Err(status);
        },
    };
    let ghost mut asked: Seq<(RequestModel, AnswerModel)> = Seq::empty();
    assert(past + asked =~= past);
    proof {
        lemma_leads_start(model, current, limits, resolution@);
    }
    loop
        invariant
            resolution.well_formed(),
            resolution.bounds() == limits,
            resolution.current() == current,
            past == old(catalog).history(),
            catalog.history() == past + asked,
            model == root@,
            current == slice_text(current_processor_architecture),
            leads_to(model, current, limits, asked, resolution@),
        decreases limits.max_dependency_requests - resolution@.cursor,
    {
        let ghost before = resolution@;
        let answer = match resolution.pending() {
            Some(request) => catalog.resolve(request),
            None => {
                proof {
                    lemma_leads_end(model, current, limits, asked, before);
                    assert((past + asked).skip(past.len() as int) =~= asked);
                }
                return Ok(resolution.finish());
            },
        };
        let ghost reply = answer_of(answer);
        let ghost longer = asked.push((before.queue[before.cursor].request, reply));
        assert(catalog.history() =~= past + longer);
        assert((past + longer).skip(past.len() as int) =~= longer);
        match resolution.accept(answer) {
            Ok(()) => {
                proof {
                    lemma_leads_step(model, current, limits, asked, before, reply, resolution@);
                    asked = longer;
                }
            },
            Err(status) => {
                proof {
                    lemma_leads_fail(model, current, limits, asked, before, reply, status);
                }
                return Err(status);
            },
        }
    }
}

// ---------------------------------------------------------------------------------------------
// File names
// ---------------------------------------------------------------------------------------------

/// How good a manifest file is: files that are not built in come before those that are, then
/// higher builds and revisions.
#[derive(Clone, Copy, Debug, PartialEq, Eq, PartialOrd, Ord)]
pub struct WinsxsManifestCandidateRank {
    pub non_builtin: bool,
    pub build: u16,
    pub revision: u16,
}

/// Whether a language is the neutral one.
pub open spec fn is_neutral(language: Seq<u16>) -> bool {
    upcase_all(language) == upcase_all(wide("neutral"@))
}

/// The language part of a file pattern: an asterisk where no language is asked for.
pub open spec fn pattern_language(language: Option<Seq<u16>>) -> Seq<u16> {
    match language {
        Some(language) => if language.len() > 0 && !is_neutral(language) {
            language
        } else {
            seq![0x2au16]
        },
        None => seq![0x2au16],
    }
}

/// What stands in a file name in front of the build: architecture, name, token and the first two
/// parts of the version.
pub open spec fn pattern_head(
    architecture: Seq<u16>,
    name: Seq<u16>,
    token: Seq<u16>,
    version: Seq<u16>,
) -> Seq<u16> {
    architecture + seq![0x5fu16] + name + seq![0x5fu16] + token + seq![0x5fu16] + decimal(
        version[0] as int,
    ) + seq![0x2eu16] + decimal(version[1] as int)
}

/// The pattern of the manifest files of a shared assembly. `None` where the request lacks a field
/// that such files are named by.
pub open spec fn manifest_pattern(request: RequestModel) -> Option<Seq<u16>> {
    match (
        request.identity.processor_architecture,
        request.identity.name,
        request.identity.public_key_token,
    ) {
        (Some(architecture), Some(name), Some(token)) => if architecture.len() > 0 && name.len() > 0
            && token.len() > 0 {
            Some(
                pattern_head(architecture, name, token, request.identity.version) + wide(".*.*_"@)
                    + pattern_language(request.language) + wide("_*.manifest"@),
            )
        } else {
            None
        },
        _ => None,
    }
}

/// Whether the names in a pattern are too long to be put together.
pub open spec fn pattern_too_long(request: RequestModel) -> bool {
    manifest_pattern(request) is Some && request.identity.processor_architecture->Some_0.len()
        + request.identity.name->Some_0.len() + request.identity.public_key_token->Some_0.len()
        + pattern_language(request.language).len() + 48 > usize::MAX
}

fn ascii_units(value: &str) -> (units: Vec<u16>)
    requires
        forall|i: int| 0 <= i < value@.len() ==> (#[trigger] value@[i]) as int <= 0x7f,
    ensures
        units@ == wide(value@),
{
    let mut units: Vec<u16> = Vec::new();
    extend_ascii(&mut units, value);
    assert(units@ =~= wide(value@));
    units
}

/// Whether a text is a text of ASCII characters but for case.
fn equals_ascii_ci(value: &[u16], expected: &str) -> (equal: bool)
    requires
        forall|i: int| 0 <= i < expected@.len() ==> (#[trigger] expected@[i]) as int <= 0x7f,
    ensures
        equal == (upcase_all(value@) == upcase_all(wide(expected@))),
{
    let expected = ascii_units(expected);
    equal_unicode_string(value, &expected, true)
}

fn is_neutral_language(language: &[u16]) -> (yes: bool)
    ensures
        yes == is_neutral(language@),
{
    proof {
        reveal_strlit("neutral");
    }
    equals_ascii_ci(language, "neutral")
}

/// Whether four lengths and some room for what stands between them can be summed up.
fn lengths_fit(a: usize, b: usize, c: usize, d: usize) -> (fit: bool)
    ensures
        fit == (a + b + c + d + 48 <= usize::MAX),
{
    a as u128 + b as u128 + c as u128 + d as u128 + 48 <= usize::MAX as u128
}

/// The pattern of the manifest files of a shared assembly.
pub fn winsxs_manifest_pattern(request: &AssemblyRequest) -> (r: Result<Option<Vec<u16>>, NtStatus>)
    ensures
        match r {
            Ok(Some(pattern)) => !pattern_too_long(request@) && manifest_pattern(request@) == Some(
                pattern@,
            ),
            Ok(None) => manifest_pattern(request@) is None,
            Err(status) => pattern_too_long(request@) && status == STATUS_NO_MEMORY,
        },
{
    proof {
        reveal_strlit(".*.*_");
        reveal_strlit("_*.manifest");
    }
    let identity = &request.identity;
    let (architecture, name, token) = match (
        &identity.processor_architecture,
        &identity.name,
        &identity.public_key_token,
    ) {
        (Some(architecture), Some(name), Some(token)) => (architecture, name, token),
        _ => {
            return Ok(None);
        },
    };
    if architecture.len() == 0 || name.len() == 0 || token.len() == 0 {
        return Ok(None);
    }
    let mut language: Vec<u16> = Vec::new();
    match &request.language {
        Some(asked) => if asked.len() > 0 && !is_neutral_language(asked) {
            push_units(&mut language, asked);
            assert(language@ =~= asked@);
        },
        None => {},
    }
    if language.len() == 0 {
        language.push(0x2a);
        assert(language@ =~= seq![0x2au16]);
    }
    assert(language@ == pattern_language(request@.language));
    if !lengths_fit(architecture.len(), name.len(), token.len(), language.len()) {
        return Err(STATUS_NO_MEMORY);
    }
    let mut pattern: Vec<u16> = Vec::new();
    push_units(&mut pattern, architecture);
    pattern.push(0x5f);
    push_units(&mut pattern, name);
    pattern.push(0x5f);
    push_units(&mut pattern, token);
    pattern.push(0x5f);
    push_decimal_u16(&mut pattern, identity.version[0]);
    pattern.push(0x2e);
    push_decimal_u16(&mut pattern, identity.version[1]);
    assert(pattern@ =~= pattern_head(architecture@, name@, token@, identity.version@));
    extend_ascii(&mut pattern, ".*.*_");
    push_units(&mut pattern, &language);
    extend_ascii(&mut pattern, "_*.manifest");
    Ok(Some(pattern))
}

/// A text, or the word for none.
pub open spec fn or_none(text: Option<Seq<u16>>) -> Seq<u16> {
    match text {
        Some(text) => text,
        None => wide("none"@),
    }
}

/// The directory name of a private assembly.
pub open spec fn directory_name(request: RequestModel) -> Seq<u16> {
    let identity = request.identity;
    let v = identity.version;
    or_none(identity.processor_architecture) + seq![0x5fu16] + or_none(identity.name) + seq![
        0x5fu16,
    ] + or_none(identity.public_key_token) + seq![0x5fu16] + version_text(
        v[0] as int,
        v[1] as int,
        v[2] as int,
        v[3] as int,
    ) + seq![0x5fu16] + or_none(request.language) + wide("_deadbeef"@)
}

/// Whether the names in a directory name are too long to be put together.
pub open spec fn directory_too_long(request: RequestModel) -> bool {
    or_none(request.identity.processor_architecture).len() + or_none(request.identity.name).len()
        + or_none(request.identity.public_key_token).len() + or_none(request.language).len() + 48
        > usize::MAX
}

fn units_or_none(text: &Option<Vec<u16>>) -> (units: Vec<u16>)
    ensures
        units@ == or_none(text_of(*text)),
{
    proof {
        reveal_strlit("none");
    }
    match text {
        Some(text) => copy_units(text),
        None => ascii_units("none"),
    }
}

/// The directory name of a private assembly.
pub fn private_assembly_directory_name(request: &AssemblyRequest) -> (r: Result<Vec<u16>, NtStatus>)
    ensures
        match r {
            Ok(directory) => !directory_too_long(request@) && directory@ == directory_name(
                request@,
            ),
            Err(status) => directory_too_long(request@) && status == STATUS_NO_MEMORY,
        },
{
    proof {
        reveal_strlit("_deadbeef");
    }
    let identity = &request.identity;
    let architecture = units_or_none(&identity.processor_architecture);
    let name = units_or_none(&identity.name);
    let token = units_or_none(&identity.public_key_token);
    let language = units_or_none(&request.language);
    if !lengths_fit(architecture.len(), name.len(), token.len(), language.len()) {
        return Err(STATUS_NO_MEMORY);
    }
    let mut directory: Vec<u16> = Vec::new();
    push_units(&mut directory, &architecture);
    directory.push(0x5f);
    push_units(&mut directory, &name);
    directory.push(0x5f);
    push_units(&mut directory, &token);
    directory.push(0x5f);
    let ghost head = directory@;
    push_decimal_u16(&mut directory, identity.version[0]);
    directory.push(0x2e);
    push_decimal_u16(&mut directory, identity.version[1]);
    directory.push(0x2e);
    push_decimal_u16(&mut directory, identity.version[2]);
    directory.push(0x2e);
    push_decimal_u16(&mut directory, identity.version[3]);
    assert(directory@ =~= head + version_text(
        identity.version@[0] as int,
        identity.version@[1] as int,
        identity.version@[2] as int,
        identity.version@[3] as int,
    ));
    directory.push(0x5f);
    push_units(&mut directory, &language);
    extend_ascii(&mut directory, "_deadbeef");
    assert(directory@ =~= directory_name(request@));
    Ok(directory)
}

/// The 16-bit number from `at` up to the next `delimiter`, and the place behind that.
pub open spec fn component_at(w: Seq<u16>, at: int, delimiter: u16) -> Option<(u16, int)> {
    match first_unit(w, at, delimiter) {
        Some(end) => if is_part(w.subrange(at, end)) {
            Some((digits_value(w.subrange(at, end)) as u16, end + 1))
        } else {
            None
        },
        None => None,
    }
}

fn parse_decimal_component(input: &[u16], at: usize, delimiter: u16) -> (r: Option<(u16, usize)>)
    requires
        at <= input@.len(),
    ensures
        match r {
            Some((v, next)) => component_at(input@, at as int, delimiter) == Some((v, next as int))
                && at < next <= input@.len(),
            None => component_at(input@, at as int, delimiter) is None,
        },
{
    assert(input.len() <= usize::MAX);
    match find_unit(input, at, delimiter) {
        Some(end) => {
            let digits = vstd::slice::slice_subrange(input, at, end);
            if digits.len() == 0 {
                return None;
            }
            match parse_digits(digits, 0xffff) {
                Some(value) => Some((value as u16, end + 1)),
                None => None,
            }
        },
        None => None,
    }
}

/// Whether a text ends in another but for case.
pub open spec fn ends_in(w: Seq<u16>, suffix: Seq<u16>) -> bool {
    w.len() >= suffix.len() && upcase_all(w.subrange(w.len() - suffix.len(), w.len() as int))
        == upcase_all(suffix)
}

/// The language that a request insists on.
pub open spec fn insisted_language(request: RequestModel) -> Option<Seq<u16>> {
    match request.language {
        Some(language) => if language.len() > 0 && !is_star(language) && !is_neutral(language) {
            Some(language)
        } else {
            None
        },
        None => None,
    }
}

/// The rank that the rest of a file name behind its version gives.
pub open spec fn rank_of_rest(
    request: RequestModel,
    filename: Seq<u16>,
    at: int,
    build: u16,
    revision: u16,
) -> Option<WinsxsManifestCandidateRank> {
    match first_unit(filename, at, 0x5f) {
        Some(end) => {
            let language = filename.subrange(at, end);
            let trailer = filename.subrange(end + 1, filename.len() as int);
            if language.len() == 0 || trailer.len() == 0 {
                None
            } else if insisted_language(request) matches Some(asked) && upcase_all(language)
                != upcase_all(asked) {
                None
            } else {
                Some(
                    WinsxsManifestCandidateRank {
                        non_builtin: upcase_all(trailer) != upcase_all(
                            wide("deadbeef.manifest"@),
                        ),
                        build,
                        revision,
                    },
                )
            }
        },
        None => None,
    }
}

/// The rank of a file name, given what stands in front of the build. It has to start with that and
/// end like a manifest; the build and revision must be at least those asked for.
pub open spec fn rank_behind(request: RequestModel, prefix: Seq<u16>, filename: Seq<u16>) -> Option<
    WinsxsManifestCandidateRank,
> {
    if filename.len() <= prefix.len() || upcase_all(filename.take(prefix.len() as int))
        != upcase_all(prefix) || !ends_in(filename, wide(".manifest"@)) {
        None
    } else {
        match component_at(filename, prefix.len() as int, 0x2e) {
            Some((build, middle)) => match component_at(filename, middle, 0x5f) {
                Some((revision, at)) => if pair_at_least(
                    (build, revision),
                    (request.identity.version[2], request.identity.version[3]),
                ) {
                    rank_of_rest(request, filename, at, build, revision)
                } else {
                    None
                },
                None => None,
            },
            None => None,
        }
    }
}

/// The rank of a file name for a request: what stands in front of the first version wildcard of
/// the pattern, and a dot, is the fixed part of the name.
pub open spec fn candidate_rank(request: RequestModel, filename: Seq<u16>) -> Option<
    WinsxsManifestCandidateRank,
> {
    match manifest_pattern(request) {
        Some(pattern) => match first_occurrence(pattern, 0, ".*.*_"@) {
            Some(wildcard) => rank_behind(
                request,
                pattern.take(wildcard).push(0x2e),
                filename,
            ),
            None => None,
        },
        None => None,
    }
}

proof fn lemma_occurrence_found(s: Seq<u16>, at: int, k: int, text: Seq<char>)
    requires
        0 <= at <= k,
        occurs(s, k, text),
        text.len() > 0,
    ensures
        first_occurrence(s, at, text) is Some,
    decreases k - at,
{
    if at < k && !occurs(s, at, text) {
        lemma_occurrence_found(s, at + 1, k, text);
    }
}

/// The pattern of a request holds its version wildcard.
proof fn lemma_pattern_has_wildcard(request: RequestModel)
    requires
        manifest_pattern(request) is Some,
    ensures
        first_occurrence(manifest_pattern(request)->Some_0, 0, ".*.*_"@) is Some,
{
    reveal_strlit(".*.*_");
    let pattern = manifest_pattern(request)->Some_0;
    let head = pattern_head(
        request.identity.processor_architecture->Some_0,
        request.identity.name->Some_0,
        request.identity.public_key_token->Some_0,
        request.identity.version,
    );
    let k = head.len() as int;
    assert(pattern.subrange(k, k + 5) =~= wide(".*.*_"@));
    assert(occurs(pattern, k, ".*.*_"@));
    lemma_occurrence_found(pattern, 0, k, ".*.*_"@);
}

fn ends_with_ascii_ci(value: &[u16], suffix: &str) -> (yes: bool)
    requires
        forall|i: int| 0 <= i < suffix@.len() ==> (#[trigger] suffix@[i]) as int <= 0x7f,
    ensures
        yes == ends_in(value@, wide(suffix@)),
{
    let length: usize = suffix.unicode_len();
    if value.len() < length {
        return false;
    }
    equals_ascii_ci(
        vstd::slice::slice_subrange(value, value.len() - length, value.len()),
        suffix,
    )
}

/// Whether a file name starts with `prefix` but for case and goes on behind it.
fn starts_with_ci(filename: &[u16], prefix: &[u16]) -> (yes: bool)
    ensures
        yes == (filename@.len() > prefix@.len() && upcase_all(
            filename@.take(prefix@.len() as int),
        ) == upcase_all(prefix@)),
{
    if filename.len() <= prefix.len() {
        return false;
    }
    let head = vstd::slice::slice_subrange(filename, 0, prefix.len());
    assert(head@ =~= filename@.take(prefix@.len() as int));
    equal_unicode_string(head, prefix, true)
}

fn rank_rest(request: &AssemblyRequest, filename: &[u16], at: usize, build: u16, revision: u16) -> (r:
    Option<WinsxsManifestCandidateRank>)
    requires
        at <= filename@.len(),
    ensures
        r == rank_of_rest(request@, filename@, at as int, build, revision),
{
    proof {
        reveal_strlit("deadbeef.manifest");
    }
    assert(filename.len() <= usize::MAX);
    let end: usize = match find_unit(filename, at, 0x5f) {
        Some(end) => end,
        None => {
            return None;
        },
    };
    let language = vstd::slice::slice_subrange(filename, at, end);
    let trailer = vstd::slice::slice_subrange(filename, end + 1, filename.len());
    if language.len() == 0 || trailer.len() == 0 {
        return None;
    }
    match &request.language {
        Some(asked) => if asked.len() > 0 && !is_wildcard(asked) && !is_neutral_language(asked)
            && !equal_unicode_string(language, asked, true) {
            return None;
        },
        None => {},
    }
    let builtin: bool = equals_ascii_ci(trailer, "deadbeef.manifest");
    Some(WinsxsManifestCandidateRank { non_builtin: !builtin, build, revision })
}

/// The rank of a file name that was found for the pattern of a request. `None` where the file does
/// not serve the request.
pub fn rank_winsxs_manifest_candidate(request: &AssemblyRequest, filename: &[u16]) -> (r: Result<
    Option<WinsxsManifestCandidateRank>,
    NtStatus,
>)
    ensures
        r == if pattern_too_long(request@) {
            Err::<Option<WinsxsManifestCandidateRank>, NtStatus>(STATUS_NO_MEMORY)
        } else {
            Ok(candidate_rank(request@, filename@))
        },
{
    proof {
        reveal_strlit(".manifest");
    }
    let pattern = match winsxs_manifest_pattern(request) {
        Ok(Some(pattern)) => pattern,
        Ok(None) => {
            return Ok(None);
        },
        Err(status) => {
            return Err(status);
        },
    };
    let wildcard: usize = match find_ascii(&pattern, 0, ".*.*_") {
        Some(wildcard) => wildcard,
        None => {
            proof {
                lemma_pattern_has_wildcard(request@);
            }
            return Err(STATUS_SXS_INVALID_ACTCTXDATA_FORMAT);
        },
    };
    let mut prefix = copy_units(vstd::slice::slice_subrange(pattern.as_slice(), 0, wildcard));
    assert(prefix@ =~= pattern@.take(wildcard as int));
    prefix.push(0x2e);
    if !starts_with_ci(filename, &prefix) || !ends_with_ascii_ci(filename, ".manifest") {
        return Ok(None);
    }
    let (build, middle): (u16, usize) = match parse_decimal_component(
        filename,
        prefix.len(),
        0x2e,
    ) {
        Some(found) => found,
        None => {
            return Ok(None);
        },
    };
    let (revision, at): (u16, usize) = match parse_decimal_component(filename, middle, 0x5f) {
        Some(found) => found,
        None => {
            return Ok(None);
        },
    };
    let asked: [u16; 4] = request.identity.version;
    if build < asked[2] || (build == asked[2] && revision < asked[3]) {
        return Ok(None);
    }
    Ok(rank_rest(request, filename, at, build, revision))
}

} // verus!
