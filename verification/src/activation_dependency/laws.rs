//! Which assemblies serve a request, what waits, and which files are candidates.

use vstd::prelude::*;

use super::{
    answered, candidate_rank, component_at, directory_name, ends_in, first_serving, in_roster,
    insisted_language, is_star, languages_agree, lemma_first_serving, manifest_pattern, normalized,
    pattern_head, pattern_language, rank_behind, rank_of_rest, serves, source_serves,
    version_serves, with_dependency, ActivationResolverLimits, AnswerModel, AssemblyModel,
    PendingModel, Progress, RequestModel, WinsxsManifestCandidateRank,
};
use crate::activation_manifest::xml::{first_occurrence, first_unit, occurs};
use crate::activation_manifest::{is_part, wide, DependencyModel, IdentityModel};
use crate::decimal::{decimal, decimal_round_trip, is_digit};
use crate::strings::upcase_all;
use crate::NtStatus;

verus! {

// ---------------------------------------------------------------------------------------------
// Serving
// ---------------------------------------------------------------------------------------------

/// A version serves a request for the same major and minor part where its build and revision, as one
/// number of thirty-two bits, are not below those asked for.
pub proof fn versions_serve_upwards(request: Seq<u16>, candidate: Seq<u16>)
    requires
        request.len() == 4,
        candidate.len() == 4,
    ensures
        version_serves(request, candidate) <==> request.take(2) == candidate.take(2) && request[2]
            * 0x1_0000 + request[3] <= candidate[2] * 0x1_0000 + candidate[3],
{
    if request.take(2) == candidate.take(2) {
        assert(request.take(2)[0] == candidate.take(2)[0]);
        assert(request.take(2)[1] == candidate.take(2)[1]);
    }
    if request[0] == candidate[0] && request[1] == candidate[1] {
        assert(request.take(2) =~= candidate.take(2));
    }
}

/// An assembly that serves a request has the name, the architecture and the token that are asked for,
/// but for case, or lacks them where they are not asked for.
pub proof fn serving_assemblies_have_the_names(
    request: RequestModel,
    identity: IdentityModel,
    language: Option<Seq<u16>>,
)
    requires
        serves(request, identity, language),
    ensures
        request.identity.name is Some <==> identity.name is Some,
        request.identity.name is Some ==> upcase_all(request.identity.name->Some_0) == upcase_all(
            identity.name->Some_0,
        ),
        request.identity.processor_architecture is Some <==> identity.processor_architecture is Some,
        request.identity.processor_architecture is Some ==> upcase_all(
            request.identity.processor_architecture->Some_0,
        ) == upcase_all(identity.processor_architecture->Some_0),
        request.identity.public_key_token is Some <==> identity.public_key_token is Some,
        request.identity.public_key_token is Some ==> upcase_all(
            request.identity.public_key_token->Some_0,
        ) == upcase_all(identity.public_key_token->Some_0),
        request.identity.version[0] == identity.version[0],
        request.identity.version[1] == identity.version[1],
{
}

/// A language agrees with its absence and with an asterisk, and with another one just where they are
/// equal but for case. It does not count which of the two is asked for.
pub proof fn languages_agree_both_ways(a: Seq<u16>, b: Seq<u16>)
    ensures
        languages_agree(None, Some(a)) && languages_agree(Some(a), None) && languages_agree(None, None),
        languages_agree(Some(a), Some(wide("*"@))) && languages_agree(Some(wide("*"@)), Some(a)),
        languages_agree(Some(a), Some(b)) == languages_agree(Some(b), Some(a)),
        a != wide("*"@) && b != wide("*"@) ==> (languages_agree(Some(a), Some(b)) <==> upcase_all(a)
            == upcase_all(b)),
{
    reveal_strlit("*");
    assert(is_star(wide("*"@)));
    if is_star(a) {
        assert(a =~= wide("*"@));
    }
    if is_star(b) {
        assert(b =~= wide("*"@));
    }
}

/// A private assembly serves only with the very version; a shared one with later builds as well.
pub proof fn private_assemblies_have_the_version(
    request: RequestModel,
    identity: IdentityModel,
    language: Option<Seq<u16>>,
)
    ensures
        source_serves(request, identity, language, false) <==> serves(request, identity, language)
            && request.identity.version == identity.version,
        source_serves(request, identity, language, true) <==> serves(request, identity, language),
{
}

/// An asterisk asks for the current architecture; nothing else of a dependency changes.
pub proof fn asterisks_ask_for_the_current_architecture(
    d: DependencyModel,
    current: Seq<u16>,
    asked: Seq<u16>,
)
    requires
        d.identity.processor_architecture == Some(asked),
    ensures
        asked == wide("*"@) ==> normalized(d, Some(current)).identity.processor_architecture == Some(
            current,
        ),
        asked != wide("*"@) ==> normalized(d, Some(current)).identity == d.identity,
        normalized(d, None).identity == d.identity,
        normalized(d, Some(current)).language == d.language,
        normalized(d, Some(current)).identity.name == d.identity.name,
        normalized(d, Some(current)).identity.version == d.identity.version,
        normalized(d, Some(current)).identity.public_key_token == d.identity.public_key_token,
{
    reveal_strlit("*");
    if is_star(asked) {
        assert(asked =~= wide("*"@));
    }
}

// ---------------------------------------------------------------------------------------------
// Waiting
// ---------------------------------------------------------------------------------------------

/// What waits stays in its place: a dependency adds one request at the end or none, and a request
/// that waits can only become required.
pub proof fn waiting_requests_stay(
    assemblies: Seq<AssemblyModel>,
    queue: Seq<PendingModel>,
    cursor: int,
    limits: ActivationResolverLimits,
    current: Option<Seq<u16>>,
    depth: int,
    d: DependencyModel,
    i: int,
)
    requires
        0 <= cursor <= queue.len(),
        0 <= i < queue.len(),
        with_dependency(assemblies, queue, cursor, limits, current, depth, d) is Ok,
    ensures
        ({
            let after = with_dependency(assemblies, queue, cursor, limits, current, depth, d)->Ok_0;
            &&& queue.len() <= after.len() <= queue.len() + 1
            &&& after[i].request == queue[i].request
            &&& after[i].depth == queue[i].depth
            &&& queue[i].required ==> after[i].required
            &&& i < cursor ==> after[i] == queue[i]
            &&& after[i].required && !queue[i].required ==> !d.optional && !d.delayed
        }),
{
    lemma_first_serving(queue, cursor, normalized(d, current));
}

/// A dependency that nothing serves yet waits behind all others. It is required unless it is optional
/// or delayed.
pub proof fn new_requests_wait_last(
    assemblies: Seq<AssemblyModel>,
    queue: Seq<PendingModel>,
    cursor: int,
    limits: ActivationResolverLimits,
    current: Option<Seq<u16>>,
    depth: int,
    d: DependencyModel,
)
    requires
        0 <= cursor <= queue.len(),
        forall|i: int|
            0 <= i < assemblies.len() ==> !serves(
                normalized(d, current),
                (#[trigger] assemblies[i]).details.root.identity,
                assemblies[i].details.root_language,
            ),
        forall|i: int|
            cursor <= i < queue.len() ==> !serves(
                normalized(d, current),
                (#[trigger] queue[i]).request.identity,
                queue[i].request.language,
            ),
    ensures
        depth <= limits.max_depth && queue.len() < limits.max_dependency_requests ==> (
        with_dependency(assemblies, queue, cursor, limits, current, depth, d) matches Ok(after) && {
            &&& after.len() == queue.len() + 1
            &&& after.last().request == normalized(d, current)
            &&& after.last().depth == depth
            &&& after.last().required == !(d.optional || d.delayed)
        }),
        depth > limits.max_depth || queue.len() >= limits.max_dependency_requests
            ==> with_dependency(assemblies, queue, cursor, limits, current, depth, d) == Err::<
            Seq<PendingModel>,
            NtStatus,
        >(0xC015_0002),
{
    lemma_first_serving(queue, cursor, normalized(d, current));
    if let Some(k) = first_serving(queue, cursor, normalized(d, current)) {
        lemma_serving(queue, cursor, normalized(d, current));
        assert(serves(normalized(d, current), queue[k].request.identity, queue[k].request.language));
    }
    assert(!in_roster(assemblies, normalized(d, current)));
}

proof fn lemma_serving(queue: Seq<PendingModel>, at: int, request: RequestModel)
    requires
        0 <= at <= queue.len(),
    ensures
        first_serving(queue, at, request) matches Some(k) ==> at <= k < queue.len() && serves(
            request,
            queue[k].request.identity,
            queue[k].request.language,
        ),
    decreases queue.len() - at,
{
    if at < queue.len() && !serves(
        request,
        queue[at].request.identity,
        queue[at].request.language,
    ) {
        lemma_serving(queue, at + 1, request);
    }
}

/// A request that gets no manifest fails the resolution where it is required, with the failure that
/// was answered; else it is passed over and nothing else changes.
pub proof fn missing_assemblies_count_where_required(
    p: Progress,
    current: Option<Seq<u16>>,
    limits: ActivationResolverLimits,
    status: NtStatus,
)
    requires
        0 <= p.cursor < p.queue.len(),
    ensures
        p.queue[p.cursor].required ==> answered(p, current, limits, Ok(None)) == Err::<
            Progress,
            NtStatus,
        >(0xC015_0002),
        p.queue[p.cursor].required ==> answered(p, current, limits, Err(status)) == Err::<
            Progress,
            NtStatus,
        >(status),
        forall|answer: AnswerModel|
            !p.queue[p.cursor].required && (answer == Ok::<Option<super::SourceModel>, NtStatus>(
                None,
            ) || answer is Err) ==> (#[trigger] answered(p, current, limits, answer)) == Ok::<
                Progress,
                NtStatus,
            >((Progress { cursor: p.cursor + 1, ..p })),
{
}

// ---------------------------------------------------------------------------------------------
// Files
// ---------------------------------------------------------------------------------------------

/// The name of the manifest file of an assembly: architecture, name, token, version, language and a
/// trailer, with underscores between them.
pub open spec fn file_name(
    architecture: Seq<u16>,
    name: Seq<u16>,
    token: Seq<u16>,
    version: Seq<u16>,
    language: Seq<u16>,
    trailer: Seq<u16>,
) -> Seq<u16> {
    architecture + wide("_"@) + name + wide("_"@) + token + wide("_"@) + decimal(version[0] as int)
        + wide("."@) + decimal(version[1] as int) + wide("."@) + decimal(version[2] as int) + wide(
        "."@,
    ) + decimal(version[3] as int) + wide("_"@) + language + wide("_"@) + trailer
}

/// A language is insisted on unless it is empty, an asterisk, or `neutral` in any case. Patterns hold
/// an asterisk in its place.
pub proof fn neutral_languages_are_not_insisted_on(request: RequestModel, language: Seq<u16>)
    ensures
        request.language is None ==> insisted_language(request) is None,
        request.language == Some(language) && (language.len() == 0 || language == wide("*"@)
            || upcase_all(language) == wide("NEUTRAL"@)) ==> insisted_language(request) is None
            && pattern_language(request.language) == wide("*"@),
        request.language == Some(language) && language.len() > 0 && language != wide("*"@)
            && upcase_all(language) != wide("NEUTRAL"@) ==> insisted_language(request) == Some(
            language,
        ) && pattern_language(request.language) == language,
        pattern_language(None) == wide("*"@),
{
    reveal_strlit("neutral");
    reveal_strlit("NEUTRAL");
    reveal_strlit("*");
    assert(upcase_all(wide("neutral"@)) =~= wide("NEUTRAL"@));
    assert(wide("*"@) =~= seq![0x2au16]);
    if is_star(language) {
        assert(language =~= wide("*"@));
    }
}

/// The pattern of the files of a shared assembly leaves the build, the revision and the trailer open.
pub proof fn patterns_leave_the_build_open(
    request: RequestModel,
    architecture: Seq<u16>,
    name: Seq<u16>,
    token: Seq<u16>,
)
    requires
        request.identity.processor_architecture == Some(architecture),
        request.identity.name == Some(name),
        request.identity.public_key_token == Some(token),
        architecture.len() > 0 && name.len() > 0 && token.len() > 0,
    ensures
        manifest_pattern(request) == Some(
            architecture + wide("_"@) + name + wide("_"@) + token + wide("_"@) + decimal(
                request.identity.version[0] as int,
            ) + wide("."@) + decimal(request.identity.version[1] as int) + wide(".*.*_"@)
                + pattern_language(request.language) + wide("_*.manifest"@),
        ),
{
    reveal_strlit("_");
    reveal_strlit(".");
    assert(wide("_"@) =~= seq![0x5fu16]);
    assert(wide("."@) =~= seq![0x2eu16]);
}

proof fn lemma_first(s: Seq<u16>, at: int, end: int, unit: u16)
    requires
        0 <= at <= end < s.len(),
        forall|i: int| at <= i < end ==> #[trigger] s[i] != unit,
        s[end] == unit,
    ensures
        first_unit(s, at, unit) == Some(end),
    decreases end - at,
{
    if at < end {
        lemma_first(s, at + 1, end, unit);
    }
}

proof fn lemma_component(s: Seq<u16>, front: Seq<u16>, v: u16, delimiter: u16, rest: Seq<u16>)
    requires
        s == front + decimal(v as int) + seq![delimiter] + rest,
        !is_digit(delimiter),
    ensures
        component_at(s, front.len() as int, delimiter) == Some(
            (v, (front.len() + decimal(v as int).len() + 1) as int),
        ),
{
    decimal_round_trip(v as int);
    let digits = decimal(v as int);
    let at = front.len() as int;
    let end = at + digits.len();
    assert forall|i: int| at <= i < end implies #[trigger] s[i] != delimiter by {
        assert(s[i] == digits[i - at]);
        assert(is_digit(digits[i - at]));
    }
    assert(s[end] == delimiter);
    lemma_first(s, at, end, delimiter);
    assert(s.subrange(at, end) =~= digits);
    assert(is_part(digits));
}

proof fn lemma_rest(
    request: RequestModel,
    s: Seq<u16>,
    front: Seq<u16>,
    language: Seq<u16>,
    trailer: Seq<u16>,
    build: u16,
    revision: u16,
)
    requires
        s == front + language + seq![0x5fu16] + trailer,
        language.len() > 0,
        trailer.len() > 0,
        !language.contains(0x5f),
    ensures
        rank_of_rest(request, s, front.len() as int, build, revision) == if (
        insisted_language(request) matches Some(asked) && upcase_all(language) != upcase_all(
            asked,
        )) {
            None
        } else {
            Some(
                (WinsxsManifestCandidateRank {
                    non_builtin: upcase_all(trailer) != upcase_all(wide("deadbeef.manifest"@)),
                    build,
                    revision,
                }),
            )
        },
{
    let at = front.len() as int;
    let end = at + language.len();
    assert forall|i: int| at <= i < end implies #[trigger] s[i] != 0x5f by {
        assert(s[i] == language[i - at]);
        assert(language.contains(language[i - at]));
    }
    assert(s[end] == 0x5f);
    lemma_first(s, at, end, 0x5f);
    assert(s.subrange(at, end) =~= language);
    assert(s.subrange(end + 1, s.len() as int) =~= trailer);
}

proof fn lemma_not_earlier(s: Seq<u16>, at: int, k: int)
    requires
        0 <= at <= k,
        occurs(s, k, ".*.*_"@),
        forall|i: int| 0 <= i < k ==> #[trigger] s[i] != 0x2a,
        s[k] != 0x2a,
    ensures
        first_occurrence(s, at, ".*.*_"@) == Some(k),
    decreases k - at,
{
    reveal_strlit(".*.*_");
    let text = ".*.*_"@;
    if at < k {
        assert(!occurs(s, at, text)) by {
            if occurs(s, at, text) {
                assert(s.subrange(at, at + 5)[1] as int == text[1] as int);
                assert(s[at + 1] == 0x2a);
            }
        }
        lemma_not_earlier(s, at + 1, k);
    }
}

proof fn lemma_prefix(request: RequestModel, head: Seq<u16>)
    requires
        manifest_pattern(request) is Some,
        head == pattern_head(
            request.identity.processor_architecture->Some_0,
            request.identity.name->Some_0,
            request.identity.public_key_token->Some_0,
            request.identity.version,
        ),
        !head.contains(0x2a),
    ensures
        first_occurrence(manifest_pattern(request)->Some_0, 0, ".*.*_"@) == Some(
            head.len() as int,
        ),
        manifest_pattern(request)->Some_0.take(head.len() as int) == head,
{
    reveal_strlit(".*.*_");
    let pattern = manifest_pattern(request)->Some_0;
    let k = head.len() as int;
    assert(pattern == head + wide(".*.*_"@) + pattern_language(request.language) + wide(
        "_*.manifest"@,
    ));
    assert(pattern.subrange(k, k + 5) =~= wide(".*.*_"@));
    assert(occurs(pattern, k, ".*.*_"@));
    assert forall|i: int| 0 <= i < k implies #[trigger] pattern[i] != 0x2a by {
        assert(pattern[i] == head[i]);
        assert(head.contains(head[i]));
    }
    assert(pattern[k] == 0x2e);
    lemma_not_earlier(pattern, 0, k);
    assert(pattern.take(k) =~= head);
}

proof fn lemma_no_star(a: Seq<u16>, n: Seq<u16>, t: Seq<u16>, version: Seq<u16>)
    requires
        !a.contains(0x2a),
        !n.contains(0x2a),
        !t.contains(0x2a),
    ensures
        !pattern_head(a, n, t, version).contains(0x2a),
{
    decimal_round_trip(version[0] as int);
    decimal_round_trip(version[1] as int);
    let head = pattern_head(a, n, t, version);
    let (x, y) = (decimal(version[0] as int), decimal(version[1] as int));
    assert forall|i: int| 0 <= i < head.len() implies head[i] != 0x2a by {
        let j1 = i - a.len() - 1;
        let j2 = j1 - n.len() - 1;
        let j3 = j2 - t.len() - 1;
        let j4 = j3 - x.len() - 1;
        if i < a.len() {
            assert(head[i] == a[i]);
            assert(a.contains(a[i]));
        } else if 0 <= j1 < n.len() {
            assert(head[i] == n[j1]);
            assert(n.contains(n[j1]));
        } else if 0 <= j2 < t.len() {
            assert(head[i] == t[j2]);
            assert(t.contains(t[j2]));
        } else if 0 <= j3 < x.len() {
            assert(head[i] == x[j3]);
            assert(is_digit(x[j3]));
        } else if 0 <= j4 < y.len() {
            assert(head[i] == y[j4]);
            assert(is_digit(y[j4]));
        }
    }
}

/// The file of an assembly with the architecture, name, token, major and minor version that are asked
/// for is a candidate just where its build and revision are not below those asked for and it has the
/// language that is insisted on. It ranks by its build and revision; the trailer `deadbeef` tells
/// files that are built in.
#[verifier::rlimit(40)]
pub proof fn files_are_ranked(
    request: RequestModel,
    version: Seq<u16>,
    language: Seq<u16>,
    trailer: Seq<u16>,
)
    requires
        manifest_pattern(request) is Some,
        !request.identity.processor_architecture->Some_0.contains(0x2a),
        !request.identity.name->Some_0.contains(0x2a),
        !request.identity.public_key_token->Some_0.contains(0x2a),
        version.len() == 4,
        version[0] == request.identity.version[0],
        version[1] == request.identity.version[1],
        language.len() > 0,
        !language.contains(0x5f),
    ensures
        candidate_rank(
            request,
            file_name(
                request.identity.processor_architecture->Some_0,
                request.identity.name->Some_0,
                request.identity.public_key_token->Some_0,
                version,
                language,
                trailer + wide(".manifest"@),
            ),
        ) == if version[2] * 0x1_0000 + version[3] < request.identity.version[2] * 0x1_0000
            + request.identity.version[3] || (insisted_language(request) matches Some(asked)
            && upcase_all(language) != upcase_all(asked)) {
            None
        } else {
            Some(
                (WinsxsManifestCandidateRank {
                    non_builtin: upcase_all(trailer + wide(".manifest"@)) != upcase_all(
                        wide("deadbeef.manifest"@),
                    ),
                    build: version[2],
                    revision: version[3],
                }),
            )
        },
{
    reveal_strlit("_");
    reveal_strlit(".");
    reveal_strlit(".manifest");
    let a = request.identity.processor_architecture->Some_0;
    let n = request.identity.name->Some_0;
    let t = request.identity.public_key_token->Some_0;
    let suffix = wide(".manifest"@);
    let end = trailer + suffix;
    let s = file_name(a, n, t, version, language, end);
    let head = pattern_head(a, n, t, request.identity.version);
    assert(wide("_"@) =~= seq![0x5fu16]);
    assert(wide("."@) =~= seq![0x2eu16]);
    lemma_no_star(a, n, t, request.identity.version);
    lemma_prefix(request, head);
    let prefix = head.push(0x2e);
    let build = decimal(version[2] as int);
    let revision = decimal(version[3] as int);
    let tail = language + seq![0x5fu16] + end;
    let behind = revision + seq![0x5fu16] + tail;
    assert(s =~= prefix + build + seq![0x2eu16] + behind);
    lemma_component(s, prefix, version[2], 0x2e, behind);
    let front = prefix + build + seq![0x2eu16];
    assert(s =~= front + revision + seq![0x5fu16] + tail);
    lemma_component(s, front, version[3], 0x5f, tail);
    let all = front + revision + seq![0x5fu16];
    assert(s =~= all + language + seq![0x5fu16] + end);
    lemma_rest(request, s, all, language, end, version[2], version[3]);
    assert(s.take(prefix.len() as int) =~= prefix);
    assert(s.subrange(s.len() - suffix.len(), s.len() as int) =~= suffix);
    assert(ends_in(s, suffix));
    assert(front.len() == prefix.len() + build.len() + 1);
    assert(all.len() == front.len() + revision.len() + 1);
    assert(rank_behind(request, prefix, s) == candidate_rank(request, s));
}

/// The directory of a private assembly is named like its file would be; `none` stands for what is not
/// known.
pub proof fn directories_are_named_like_files(request: RequestModel, none: Seq<u16>)
    requires
        none == wide("none"@),
    ensures
        directory_name(request) == file_name(
            if request.identity.processor_architecture is Some {
                request.identity.processor_architecture->Some_0
            } else {
                none
            },
            if request.identity.name is Some {
                request.identity.name->Some_0
            } else {
                none
            },
            if request.identity.public_key_token is Some {
                request.identity.public_key_token->Some_0
            } else {
                none
            },
            request.identity.version,
            if request.language is Some {
                request.language->Some_0
            } else {
                none
            },
            wide("deadbeef"@),
        ),
{
    reveal_strlit("_");
    reveal_strlit(".");
    reveal_strlit("deadbeef");
    reveal_strlit("_deadbeef");
    assert(wide("_"@) =~= seq![0x5fu16]);
    assert(wide("."@) =~= seq![0x2eu16]);
    assert(wide("_deadbeef"@) =~= seq![0x5fu16] + wide("deadbeef"@));
    let v = request.identity.version;
    assert(directory_name(request) =~= file_name(
        super::or_none(request.identity.processor_architecture),
        super::or_none(request.identity.name),
        super::or_none(request.identity.public_key_token),
        v,
        super::or_none(request.language),
        wide("deadbeef"@),
    ));
}

} // verus!
