//! Assembly manifests: the subset that activation contexts are built from.
//!
//! The window classes and CLR surrogates that a manifest declares are not read: an element that
//! declares one is accepted and left out of the details. A caller that has them hands them to the
//! sections as [`ManifestWindowClass`] and [`ManifestClrSurrogate`] values.

use vstd::prelude::*;

use crate::activation::{
    CompatibilityElement, DllRedirect, COMPATIBILITY_ELEMENT_TYPE_MAX_VERSION_TESTED,
    COMPATIBILITY_ELEMENT_TYPE_OS, RUN_LEVEL_AS_INVOKER, RUN_LEVEL_HIGHEST_AVAILABLE,
    RUN_LEVEL_REQUIRE_ADMIN, RUN_LEVEL_UNSPECIFIED, STATUS_SXS_CANT_GEN_ACTCTX,
    STATUS_SXS_INVALID_ACTCTXDATA_FORMAT,
};
use crate::bytes::{copy_units, push_units, same_units, zero_bytes};
use crate::decimal::{
    all_digits, digits_value, parse_digits, push_decimal_u16, version_text,
};
use crate::guid::{guid_from_string, guid_of_text, text_reads_as_one_value, Guid};
use crate::NtStatus;

pub mod characters;
pub mod encoding;
pub mod markup;
pub mod skipped;
pub mod written;
pub mod xml;

use encoding::{bytes_of, decode_manifest, manifest_text, texts_read_back, Encoding};
use xml::{
    ascii_slice_eq, ascii_slice_eq_ci, attribute_models, content_at, find_unit,
    first_unit, local_eq, local_part, misc_end, parse_content, parse_start_tag,
    skip_document_misc, spells, spells_ci, start_tag, Attribute,
    AttributeModel, Content, ContentModel, Tag, TagModel,
};

verus! {

// ---------------------------------------------------------------------------------------------
// Data
// ---------------------------------------------------------------------------------------------

/// A window class declared by a manifest file element, as the sections take it.
#[derive(Clone, Debug, PartialEq, Eq)]
pub struct ManifestWindowClass {
    /// Which file of the assembly declares the class.
    pub file_index: usize,
    /// The class name.
    pub name: Vec<u16>,
    /// Whether the class name carries the assembly version.
    pub versioned: bool,
}

/// A CLR surrogate declared by a manifest, as the sections take it.
#[derive(Clone, Debug, PartialEq, Eq)]
pub struct ManifestClrSurrogate {
    /// The class identifier.
    pub clsid: Guid,
    /// The class name.
    pub name: Vec<u16>,
    /// The runtime version, where the manifest gives one.
    pub runtime_version: Option<Vec<u16>>,
}

/// The identity of an assembly.
#[derive(Clone, Debug, PartialEq, Eq)]
pub struct AssemblyIdentity {
    pub name: Option<Vec<u16>>,
    pub processor_architecture: Option<Vec<u16>>,
    pub public_key_token: Option<Vec<u16>>,
    pub kind: Option<Vec<u16>>,
    pub version: [u16; 4],
}

/// What a manifest says of its own assembly.
#[derive(Clone, Debug, PartialEq, Eq)]
pub struct ParsedManifest {
    pub dll_redirects: Vec<DllRedirect>,
    pub assembly_identity: AssemblyIdentity,
    pub compatibility: Vec<CompatibilityElement>,
    pub run_level: u32,
    pub ui_access: u32,
}

/// An assembly that a manifest depends on.
#[derive(Clone, Debug, PartialEq, Eq)]
pub struct ManifestDependency {
    pub identity: AssemblyIdentity,
    pub language: Option<Vec<u16>>,
    /// Whether the assembly may be missing.
    pub optional: bool,
    /// Whether the assembly may be bound later.
    pub delayed: bool,
}

/// A setting that a manifest makes for its application.
#[derive(Clone, Debug, PartialEq, Eq)]
pub struct ManifestApplicationSetting {
    pub namespace: Vec<u16>,
    pub name: Vec<u16>,
    pub value: Vec<u16>,
}

/// What a manifest says of its own assembly, and what it depends on. Window classes and CLR
/// surrogates are left out.
#[derive(Clone, Debug, PartialEq, Eq)]
pub struct ParsedManifestDetails {
    pub root: ParsedManifest,
    pub root_language: Option<Vec<u16>>,
    pub dependencies: Vec<ManifestDependency>,
}

// ---------------------------------------------------------------------------------------------
// Models
// ---------------------------------------------------------------------------------------------

/// A text that may be absent.
pub open spec fn text_of(text: Option<Vec<u16>>) -> Option<Seq<u16>> {
    match text {
        Some(text) => Some(text@),
        None => None,
    }
}

/// The identity of an assembly.
#[verifier::ext_equal]
pub struct IdentityModel {
    pub name: Option<Seq<u16>>,
    pub processor_architecture: Option<Seq<u16>>,
    pub public_key_token: Option<Seq<u16>>,
    pub kind: Option<Seq<u16>>,
    pub version: Seq<u16>,
}

/// The identity that says nothing.
pub open spec fn no_identity() -> IdentityModel {
    IdentityModel {
        name: None,
        processor_architecture: None,
        public_key_token: None,
        kind: None,
        version: seq![0u16, 0, 0, 0],
    }
}

impl View for AssemblyIdentity {
    type V = IdentityModel;

    open spec fn view(&self) -> IdentityModel {
        IdentityModel {
            name: text_of(self.name),
            processor_architecture: text_of(self.processor_architecture),
            public_key_token: text_of(self.public_key_token),
            kind: text_of(self.kind),
            version: self.version@,
        }
    }
}

impl Default for AssemblyIdentity {
    fn default() -> (identity: Self)
        ensures
            identity@ == no_identity(),
    {
        let identity = AssemblyIdentity {
            name: None,
            processor_architecture: None,
            public_key_token: None,
            kind: None,
            version: [0, 0, 0, 0],
        };
        assert(identity.version@ =~= seq![0u16, 0, 0, 0]);
        identity
    }
}

/// A redirected file: its name and where it is loaded from.
#[verifier::ext_equal]
pub struct RedirectModel {
    pub name: Seq<u16>,
    pub load_from: Option<Seq<u16>>,
}

/// The models of redirected files.
pub open spec fn redirect_models(redirects: Seq<DllRedirect>) -> Seq<RedirectModel> {
    redirects.map_values(|r: DllRedirect| RedirectModel { name: r.name@, load_from: r.path() })
}

/// A compatibility statement, with its identifier as native bytes.
#[verifier::ext_equal]
pub struct CompatibilityModel {
    pub id: Seq<u8>,
    pub kind: u32,
    pub max_version_tested: u64,
}

/// The models of compatibility statements.
pub open spec fn compatibility_models(elements: Seq<CompatibilityElement>) -> Seq<
    CompatibilityModel,
> {
    elements.map_values(
        |e: CompatibilityElement|
            CompatibilityModel {
                id: e.id.windows_bytes(),
                kind: e.kind,
                max_version_tested: e.max_version_tested,
            },
    )
}

/// A dependency.
#[verifier::ext_equal]
pub struct DependencyModel {
    pub identity: IdentityModel,
    pub language: Option<Seq<u16>>,
    pub optional: bool,
    pub delayed: bool,
}

impl View for ManifestDependency {
    type V = DependencyModel;

    open spec fn view(&self) -> DependencyModel {
        DependencyModel {
            identity: self.identity@,
            language: text_of(self.language),
            optional: self.optional,
            delayed: self.delayed,
        }
    }
}

/// The models of dependencies.
pub open spec fn dependency_models(dependencies: Seq<ManifestDependency>) -> Seq<DependencyModel> {
    dependencies.map_values(|d: ManifestDependency| d@)
}

/// What a manifest says of its own assembly.
#[verifier::ext_equal]
pub struct ManifestModel {
    pub redirects: Seq<RedirectModel>,
    pub identity: IdentityModel,
    pub compatibility: Seq<CompatibilityModel>,
    pub run_level: u32,
    pub ui_access: u32,
}

impl View for ParsedManifest {
    type V = ManifestModel;

    open spec fn view(&self) -> ManifestModel {
        ManifestModel {
            redirects: redirect_models(self.dll_redirects@),
            identity: self.assembly_identity@,
            compatibility: compatibility_models(self.compatibility@),
            run_level: self.run_level,
            ui_access: self.ui_access,
        }
    }
}

/// What a manifest says of its own assembly, and what it depends on.
#[verifier::ext_equal]
pub struct DetailsModel {
    pub root: ManifestModel,
    pub root_language: Option<Seq<u16>>,
    pub dependencies: Seq<DependencyModel>,
}

impl View for ParsedManifestDetails {
    type V = DetailsModel;

    open spec fn view(&self) -> DetailsModel {
        DetailsModel {
            root: self.root@,
            root_language: text_of(self.root_language),
            dependencies: dependency_models(self.dependencies@),
        }
    }
}

// ---------------------------------------------------------------------------------------------
// Attributes
// ---------------------------------------------------------------------------------------------

/// The values of the attributes with a local name, in order.
pub open spec fn values_of(attributes: Seq<AttributeModel>, name: Seq<char>) -> Seq<Seq<u16>>
    decreases attributes.len(),
{
    if attributes.len() == 0 {
        Seq::empty()
    } else if spells(local_part(attributes.last().name), name) {
        values_of(attributes.drop_last(), name).push(attributes.last().value)
    } else {
        values_of(attributes.drop_last(), name)
    }
}

/// The last value, where there is one.
pub open spec fn last_value(values: Seq<Seq<u16>>) -> Option<Seq<u16>> {
    if values.len() == 0 {
        None
    } else {
        Some(values.last())
    }
}

/// The texts of owned texts.
pub open spec fn texts(values: Seq<Vec<u16>>) -> Seq<Seq<u16>> {
    values.map_values(|v: Vec<u16>| v@)
}

/// The values of the attributes with a local name, in order.
fn attribute_values(attributes: &Vec<Attribute>, name: &str) -> (values: Vec<Vec<u16>>)
    ensures
        texts(values@) == values_of(attribute_models(attributes@), name@),
{
    let mut values: Vec<Vec<u16>> = Vec::new();
    let ghost models = attribute_models(attributes@);
    let mut i: usize = 0;
    assert(texts(values@) =~= values_of(models.take(0), name@));
    while i < attributes.len()
        invariant
            i <= attributes@.len(),
            models == attribute_models(attributes@),
            texts(values@) == values_of(models.take(i as int), name@),
        decreases attributes@.len() - i,
    {
        let ghost before = values@;
        assert(models.take(i + 1).drop_last() =~= models.take(i as int));
        assert(models.take(i + 1).last() == attributes@[i as int]@);
        if local_eq(&attributes[i].name, name) {
            let value = copy_units(&attributes[i].value);
            values.push(value);
            assert(texts(values@) =~= texts(before).push(value@));
        }
        i += 1;
    }
    assert(models.take(i as int) =~= models);
    values
}

/// The last value, where there is one.
fn take_last(values: Vec<Vec<u16>>) -> (last: Option<Vec<u16>>)
    ensures
        text_of(last) == last_value(texts(values@)),
{
    let mut values = values;
    assert(values@.len() > 0 ==> texts(values@).last() == values@.last()@);
    values.pop()
}

// ---------------------------------------------------------------------------------------------
// Versions
// ---------------------------------------------------------------------------------------------

/// The parts between the dots of a text from `at` on.
pub open spec fn dotted_from(w: Seq<u16>, at: int) -> Seq<Seq<u16>>
    decreases w.len() - at,
{
    match first_unit(w, at, 0x2e) {
        Some(i) => if at <= i < w.len() {
            seq![w.subrange(at, i)] + dotted_from(w, i + 1)
        } else {
            Seq::empty()
        },
        None => seq![w.subrange(at, w.len() as int)],
    }
}

/// Whether a text is a 16-bit number.
pub open spec fn is_part(w: Seq<u16>) -> bool {
    w.len() > 0 && all_digits(w) && digits_value(w) <= 0xffff
}

/// The four parts of a version text: one to four numbers between dots; those left out are zero.
pub open spec fn version_of(w: Seq<u16>) -> Option<Seq<u16>> {
    let parts = dotted_from(w, 0);
    if parts.len() <= 4 && forall|i: int| 0 <= i < parts.len() ==> is_part(#[trigger] parts[i]) {
        Some(
            Seq::new(
                4,
                |i: int|
                    if i < parts.len() {
                        digits_value(parts[i]) as u16
                    } else {
                        0
                    },
            ),
        )
    } else {
        None
    }
}

/// Read a version text.
fn parse_assembly_version(input: &[u16]) -> (r: Option<[u16; 4]>)
    ensures
        match r {
            Some(v) => version_of(input@) == Some(v@),
            None => version_of(input@) is None,
        },
{
    let ghost parts = dotted_from(input@, 0);
    let total: usize = input.len();
    let mut result: [u16; 4] = [0, 0, 0, 0];
    let mut start: usize = 0;
    let mut index: usize = 0;
    let ghost mut done: Seq<Seq<u16>> = Seq::empty();
    assert(done + dotted_from(input@, 0) =~= parts);
    loop
        invariant
            index <= 4,
            start <= total == input@.len(),
            result@.len() == 4,
            parts == dotted_from(input@, 0),
            done.len() == index,
            parts == done + dotted_from(input@, start as int),
            forall|i: int|
                0 <= i < index ==> is_part(#[trigger] parts[i]) && result@[i] == digits_value(
                    parts[i],
                ),
            forall|i: int| index <= i < 4 ==> #[trigger] result@[i] == 0,
        decreases total - start, 4 - index,
    {
        let found: Option<usize> = find_unit(input, start, 0x2e);
        let end: usize = match found {
            Some(at) => at,
            None => total,
        };
        let part = vstd::slice::slice_subrange(input, start, end);
        assert(parts[index as int] == part@);
        if index == 4 {
            return None;
        }
        if start == end {
            assert(!is_part(parts[index as int]));
            return None;
        }
        let value: u32 = match parse_digits(part, 0xffff) {
            Some(value) => value,
            None => {
                assert(!is_part(parts[index as int]));
                return None;
            },
        };
        result[index] = value as u16;
        index += 1;
        match found {
            Some(_) => {
                start = end + 1;
                proof {
                    assert(done + (seq![part@] + dotted_from(input@, start as int)) =~= done.push(
                        part@,
                    ) + dotted_from(input@, start as int));
                    done = done.push(part@);
                }
            },
            None => {
                assert(parts.len() == index);
                assert(version_of(input@)->Some_0 =~= result@);
                return Some(result);
            },
        }
    }
}

// ---------------------------------------------------------------------------------------------
// Elements
// ---------------------------------------------------------------------------------------------

/// Whether the attributes of the root element are those of a manifest: exactly one names the
/// manifest version, which is 1.0.
pub open spec fn root_version_ok(attributes: Seq<AttributeModel>) -> bool {
    let values = values_of(attributes, "manifestVersion"@);
    values.len() == 1 && spells(values[0], "1.0"@)
}

/// The file that a file element redirects. It has a name, and at most one place to load from.
pub open spec fn redirect_of(attributes: Seq<AttributeModel>) -> Option<RedirectModel> {
    let names = values_of(attributes, "name"@);
    let places = values_of(attributes, "loadFrom"@);
    if names.len() == 1 && names[0].len() > 0 && places.len() <= 1 {
        Some(RedirectModel { name: names[0], load_from: last_value(places) })
    } else {
        None
    }
}

/// Whether all values are versions.
pub open spec fn all_versions(values: Seq<Seq<u16>>) -> bool {
    forall|i: int| 0 <= i < values.len() ==> version_of(#[trigger] values[i]) is Some
}

/// The identity that an identity element states.
pub open spec fn identity_of(attributes: Seq<AttributeModel>) -> Option<IdentityModel> {
    let versions = values_of(attributes, "version"@);
    if all_versions(versions) {
        Some(
            IdentityModel {
                name: last_value(values_of(attributes, "name"@)),
                processor_architecture: last_value(
                    values_of(attributes, "processorArchitecture"@),
                ),
                public_key_token: last_value(values_of(attributes, "publicKeyToken"@)),
                kind: last_value(values_of(attributes, "type"@)),
                version: match last_value(versions) {
                    Some(version) => version_of(version)->Some_0,
                    None => seq![0u16, 0, 0, 0],
                },
            },
        )
    } else {
        None
    }
}

/// The language that an identity element states.
pub open spec fn language_of(attributes: Seq<AttributeModel>) -> Option<Seq<u16>> {
    last_value(values_of(attributes, "language"@))
}

/// The statements for the identifiers of supported systems. One that is no identifier says nothing.
pub open spec fn supported_of(values: Seq<Seq<u16>>) -> Seq<CompatibilityModel>
    decreases values.len(),
{
    if values.len() == 0 {
        Seq::empty()
    } else {
        let before = supported_of(values.drop_last());
        match guid_of_text(values.last()) {
            Some(id) => before.push(
                CompatibilityModel {
                    id,
                    kind: COMPATIBILITY_ELEMENT_TYPE_OS,
                    max_version_tested: 0,
                },
            ),
            None => before,
        }
    }
}

/// Four 16-bit parts as one number.
pub open spec fn packed_version(v: Seq<u16>) -> u64 {
    (v[0] * 0x1_0000_0000_0000 + v[1] * 0x1_0000_0000 + v[2] * 0x1_0000 + v[3]) as u64
}

/// The statement for the highest version that was tested.
pub open spec fn tested_statement(value: Seq<u16>) -> CompatibilityModel {
    CompatibilityModel {
        id: zero_bytes(16),
        kind: COMPATIBILITY_ELEMENT_TYPE_MAX_VERSION_TESTED,
        max_version_tested: packed_version(version_of(value)->Some_0),
    }
}

/// The run level that a value names; a value that names none leaves it unspecified.
pub open spec fn run_level_of(value: Seq<u16>) -> u32 {
    if spells_ci(value, "asInvoker"@) {
        RUN_LEVEL_AS_INVOKER
    } else if spells_ci(value, "highestAvailable"@) {
        RUN_LEVEL_HIGHEST_AVAILABLE
    } else if spells_ci(value, "requireAdministrator"@) {
        RUN_LEVEL_REQUIRE_ADMIN
    } else {
        RUN_LEVEL_UNSPECIFIED
    }
}

/// The user interface access after the values; a value that is no truth value changes nothing.
pub open spec fn ui_access_of(before: u32, values: Seq<Seq<u16>>) -> u32
    decreases values.len(),
{
    if values.len() == 0 {
        before
    } else if spells_ci(values.last(), "true"@) {
        1
    } else if spells_ci(values.last(), "false"@) {
        0
    } else {
        ui_access_of(before, values.drop_last())
    }
}

/// Whether the last value says `expected`, where there is a value.
pub open spec fn says(values: Seq<Seq<u16>>, expected: Seq<char>) -> bool {
    match last_value(values) {
        Some(value) => spells_ci(value, expected),
        None => false,
    }
}

/// What was gathered of a manifest.
#[verifier::ext_equal]
pub struct Gathered {
    pub redirects: Seq<RedirectModel>,
    pub identity: Option<IdentityModel>,
    pub language: Option<Seq<u16>>,
    pub compatibility: Seq<CompatibilityModel>,
    pub run_level: u32,
    pub ui_access: u32,
    /// Whether an element speaks of a dependency.
    pub dependency_seen: bool,
    /// Whether an element binds assemblies.
    pub binding_seen: bool,
    /// Whether the dependency that is open is optional.
    pub optional: bool,
    /// Whether the dependent assembly that is open is delayed.
    pub delayed: bool,
    pub dependencies: Seq<DependencyModel>,
    /// Whether an identity of a dependent assembly makes no sense.
    pub dependency_bad: bool,
}

/// What is known at the start of a manifest.
pub open spec fn nothing_gathered() -> Gathered {
    Gathered {
        redirects: Seq::empty(),
        identity: None,
        language: None,
        compatibility: Seq::empty(),
        run_level: RUN_LEVEL_UNSPECIFIED,
        ui_access: 0,
        dependency_seen: false,
        binding_seen: false,
        optional: false,
        delayed: false,
        dependencies: Seq::empty(),
        dependency_bad: false,
    }
}

/// Whether the open elements are the root, `first` and `second`.
pub open spec fn inside_two(stack: Seq<Seq<u16>>, first: Seq<char>, second: Seq<char>) -> bool {
    &&& stack.len() == 3
    &&& spells(local_part(stack[0]), "assembly"@)
    &&& spells(local_part(stack[1]), first)
    &&& spells(local_part(stack[2]), second)
}

/// Whether the open elements are the root, `first`, `second` and `third`.
pub open spec fn inside_three(
    stack: Seq<Seq<u16>>,
    first: Seq<char>,
    second: Seq<char>,
    third: Seq<char>,
) -> bool {
    &&& stack.len() == 4
    &&& spells(local_part(stack[0]), "assembly"@)
    &&& spells(local_part(stack[1]), first)
    &&& spells(local_part(stack[2]), second)
    &&& spells(local_part(stack[3]), third)
}

/// What a dependency element adds.
pub open spec fn with_dependency(g: Gathered, depth: int, attributes: Seq<AttributeModel>) -> Gathered {
    Gathered {
        dependency_seen: true,
        optional: if depth == 1 {
            says(values_of(attributes, "optional"@), "yes"@)
        } else {
            g.optional
        },
        ..g
    }
}

/// What a dependent assembly element adds.
pub open spec fn with_dependent_assembly(
    g: Gathered,
    stack: Seq<Seq<u16>>,
    attributes: Seq<AttributeModel>,
) -> Gathered {
    Gathered {
        dependency_seen: true,
        delayed: if stack.len() == 2 && spells(local_part(stack[1]), "dependency"@) {
            says(values_of(attributes, "allowDelayedBinding"@), "true"@)
        } else {
            g.delayed
        },
        ..g
    }
}

/// What an identity element inside a dependent assembly adds.
pub open spec fn with_dependency_identity(g: Gathered, attributes: Seq<AttributeModel>) -> Gathered {
    match identity_of(attributes) {
        Some(identity) => Gathered {
            dependencies: g.dependencies.push(
                DependencyModel {
                    identity,
                    language: language_of(attributes),
                    optional: g.optional,
                    delayed: g.delayed,
                },
            ),
            ..g
        },
        None => Gathered { dependency_bad: true, ..g },
    }
}

/// What a start tag adds, given the names of the open elements. `None` if it makes no sense.
pub open spec fn with_tag(g: Gathered, stack: Seq<Seq<u16>>, tag: TagModel) -> Option<Gathered> {
    let name = local_part(tag.name);
    if spells(name, "dependency"@) {
        Some(with_dependency(g, stack.len() as int, tag.attributes))
    } else if spells(name, "dependentAssembly"@) {
        Some(with_dependent_assembly(g, stack, tag.attributes))
    } else if spells(name, "assemblyBinding"@) {
        Some(Gathered { binding_seen: true, ..g })
    } else if spells(name, "file"@) && stack.len() == 1 {
        match redirect_of(tag.attributes) {
            Some(redirect) => Some(Gathered { redirects: g.redirects.push(redirect), ..g }),
            None => None,
        }
    } else if spells(name, "assemblyIdentity"@) && stack.len() == 1 {
        match (g.identity, identity_of(tag.attributes)) {
            (None, Some(identity)) => Some(
                Gathered { identity: Some(identity), language: language_of(tag.attributes), ..g },
            ),
            _ => None,
        }
    } else if spells(name, "assemblyIdentity"@) && inside_two(
        stack,
        "dependency"@,
        "dependentAssembly"@,
    ) {
        Some(with_dependency_identity(g, tag.attributes))
    } else if spells(name, "supportedOS"@) && inside_two(stack, "compatibility"@, "application"@) {
        Some(
            Gathered {
                compatibility: g.compatibility + supported_of(values_of(tag.attributes, "Id"@)),
                ..g
            },
        )
    } else if spells(name, "maxversiontested"@) && inside_two(
        stack,
        "compatibility"@,
        "application"@,
    ) {
        let values = values_of(tag.attributes, "Id"@);
        if all_versions(values) {
            Some(
                Gathered {
                    compatibility: g.compatibility + values.map_values(
                        |v: Seq<u16>| tested_statement(v),
                    ),
                    ..g
                },
            )
        } else {
            None
        }
    } else if spells(name, "requestedExecutionLevel"@) && inside_three(
        stack,
        "trustInfo"@,
        "security"@,
        "requestedPrivileges"@,
    ) {
        if g.run_level != RUN_LEVEL_UNSPECIFIED {
            None
        } else {
            Some(
                Gathered {
                    run_level: match last_value(values_of(tag.attributes, "level"@)) {
                        Some(value) => run_level_of(value),
                        None => g.run_level,
                    },
                    ui_access: ui_access_of(
                        g.ui_access,
                        values_of(tag.attributes, "uiAccess"@),
                    ),
                    ..g
                },
            )
        }
    } else {
        Some(g)
    }
}

/// What is gathered, and the place behind the last open element, from `at` on with the open
/// elements `stack`.
pub open spec fn body_from(s: Seq<u16>, at: int, stack: Seq<Seq<u16>>, g: Gathered) -> Option<
    (Gathered, int),
>
    decreases s.len() - at,
{
    if stack.len() == 0 {
        Some((g, at))
    } else {
        match content_at(s, at) {
            Some((content, next)) => if at < next <= s.len() {
                match content {
                    ContentModel::Skipped => body_from(s, next, stack, g),
                    ContentModel::End(name) => if stack.last() == name {
                        body_from(s, next, stack.drop_last(), g)
                    } else {
                        None
                    },
                    ContentModel::Start(tag) => match with_tag(g, stack, tag) {
                        Some(after) => body_from(
                            s,
                            next,
                            if tag.self_closing {
                                stack
                            } else {
                                stack.push(tag.name)
                            },
                            after,
                        ),
                        None => None,
                    },
                }
            } else {
                None
            },
            None => None,
        }
    }
}

/// What is gathered of a text, which holds one root element and nothing else but comments,
/// processing instructions and white space.
pub open spec fn gathered_of(s: Seq<u16>) -> Option<Gathered> {
    match misc_end(s, 0) {
        Some(open) => match start_tag(s, open) {
            Some((root, inside)) => if spells(local_part(root.name), "assembly"@)
                && root_version_ok(root.attributes) {
                let body = if root.self_closing {
                    Some((nothing_gathered(), inside))
                } else {
                    body_from(s, inside, seq![root.name], nothing_gathered())
                };
                match body {
                    Some((g, close)) => if misc_end(s, close) == Some(s.len() as int) {
                        Some(g)
                    } else {
                        None
                    },
                    None => None,
                }
            } else {
                None
            },
            None => None,
        },
        None => None,
    }
}

/// What is gathered of a manifest.
pub open spec fn gathered(bytes: Seq<u8>) -> Option<Gathered> {
    match manifest_text(bytes) {
        Some(text) => gathered_of(text),
        None => None,
    }
}

/// What a manifest says of its own assembly.
pub open spec fn own_part(g: Gathered) -> ManifestModel {
    ManifestModel {
        redirects: g.redirects,
        identity: match g.identity {
            Some(identity) => identity,
            None => no_identity(),
        },
        compatibility: g.compatibility,
        run_level: g.run_level,
        ui_access: g.ui_access,
    }
}

/// What the manifest of an assembly without dependencies says, or why it is refused.
pub open spec fn manifest_of(bytes: Seq<u8>) -> Result<ManifestModel, NtStatus> {
    match gathered(bytes) {
        Some(g) => if g.dependency_seen || g.binding_seen {
            Err(STATUS_SXS_CANT_GEN_ACTCTX)
        } else {
            Ok(own_part(g))
        },
        None => Err(STATUS_SXS_INVALID_ACTCTXDATA_FORMAT),
    }
}

/// What a manifest says, its dependencies among it, or why it is refused.
pub open spec fn details_of(bytes: Seq<u8>) -> Result<DetailsModel, NtStatus> {
    match gathered(bytes) {
        Some(g) => if g.dependency_bad {
            Err(STATUS_SXS_INVALID_ACTCTXDATA_FORMAT)
        } else if g.binding_seen {
            Err(STATUS_SXS_CANT_GEN_ACTCTX)
        } else {
            Ok(
                DetailsModel {
                    root: own_part(g),
                    root_language: g.language,
                    dependencies: g.dependencies,
                },
            )
        },
        None => Err(STATUS_SXS_INVALID_ACTCTXDATA_FORMAT),
    }
}

// ---------------------------------------------------------------------------------------------
// Reading
// ---------------------------------------------------------------------------------------------

/// What was gathered of a manifest.
struct Parser {
    redirects: Vec<DllRedirect>,
    identity: Option<AssemblyIdentity>,
    language: Option<Vec<u16>>,
    compatibility: Vec<CompatibilityElement>,
    run_level: u32,
    ui_access: u32,
    dependency_seen: bool,
    binding_seen: bool,
    optional: bool,
    delayed: bool,
    dependencies: Vec<ManifestDependency>,
    dependency_bad: bool,
}

impl View for Parser {
    type V = Gathered;

    closed spec fn view(&self) -> Gathered {
        Gathered {
            redirects: redirect_models(self.redirects@),
            identity: match self.identity {
                Some(identity) => Some(identity@),
                None => None,
            },
            language: text_of(self.language),
            compatibility: compatibility_models(self.compatibility@),
            run_level: self.run_level,
            ui_access: self.ui_access,
            dependency_seen: self.dependency_seen,
            binding_seen: self.binding_seen,
            optional: self.optional,
            delayed: self.delayed,
            dependencies: dependency_models(self.dependencies@),
            dependency_bad: self.dependency_bad,
        }
    }
}

/// Whether the attributes of the root element are those of a manifest.
fn root_has_version(attributes: &Vec<Attribute>) -> (ok: bool)
    ensures
        ok == root_version_ok(attribute_models(attributes@)),
{
    let values = attribute_values(attributes, "manifestVersion");
    assert(values@.len() > 0 ==> texts(values@)[0] == values@[0]@);
    values.len() == 1 && ascii_slice_eq(&values[0], "1.0")
}

/// The file that a file element redirects.
fn parse_redirect(attributes: &Vec<Attribute>) -> (r: Option<DllRedirect>)
    ensures
        match r {
            Some(d) => redirect_of(attribute_models(attributes@)) == Some(
                RedirectModel { name: d.name@, load_from: d.path() },
            ),
            None => redirect_of(attribute_models(attributes@)) is None,
        },
{
    let names = attribute_values(attributes, "name");
    let places = attribute_values(attributes, "loadFrom");
    assert(names@.len() > 0 ==> texts(names@)[0] == names@[0]@);
    if names.len() != 1 || names[0].len() == 0 || places.len() > 1 {
        return None;
    }
    let name = copy_units(&names[0]);
    let load_from = take_last(places);
    Some(DllRedirect { name, load_from })
}

/// The identity that an identity element states.
fn parse_identity(attributes: &Vec<Attribute>) -> (r: Option<AssemblyIdentity>)
    ensures
        match r {
            Some(identity) => identity_of(attribute_models(attributes@)) == Some(identity@),
            None => identity_of(attribute_models(attributes@)) is None,
        },
{
    let versions = attribute_values(attributes, "version");
    let mut version: [u16; 4] = [0, 0, 0, 0];
    assert(version@ =~= seq![0u16, 0, 0, 0]);
    let mut i: usize = 0;
    while i < versions.len()
        invariant
            i <= versions@.len(),
            texts(versions@) == values_of(attribute_models(attributes@), "version"@),
            all_versions(texts(versions@).take(i as int)),
            i == 0 ==> version@ == seq![0u16, 0, 0, 0],
            i > 0 ==> version_of(texts(versions@)[i - 1]) == Some(version@),
        decreases versions@.len() - i,
    {
        assert(texts(versions@)[i as int] == versions@[i as int]@);
        match parse_assembly_version(&versions[i]) {
            Some(parsed) => {
                version = parsed;
            },
            None => {
                assert(!all_versions(texts(versions@)));
                return None;
            },
        }
        i += 1;
        proof {
            let now = texts(versions@).take(i as int);
            assert forall|j: int| 0 <= j < now.len() implies version_of(#[trigger] now[j])
                is Some by {
                if j < i - 1 {
                    assert(now[j] == texts(versions@).take(i - 1)[j]);
                }
            }
        }
    }
    assert(texts(versions@).take(i as int) =~= texts(versions@));
    let name = take_last(attribute_values(attributes, "name"));
    let processor_architecture = take_last(attribute_values(attributes, "processorArchitecture"));
    let public_key_token = take_last(attribute_values(attributes, "publicKeyToken"));
    let kind = take_last(attribute_values(attributes, "type"));
    Some(
        AssemblyIdentity { name, processor_architecture, public_key_token, kind, version },
    )
}

/// Add the statements for the identifiers of supported systems.
fn push_supported(elements: &mut Vec<CompatibilityElement>, values: &Vec<Vec<u16>>)
    ensures
        compatibility_models(final(elements)@) == compatibility_models(old(elements)@)
            + supported_of(texts(values@)),
{
    let ghost all = texts(values@);
    let mut i: usize = 0;
    assert(supported_of(all.take(0)) =~= Seq::empty());
    assert(compatibility_models(elements@) =~= compatibility_models(old(elements)@)
        + supported_of(all.take(0)));
    while i < values.len()
        invariant
            i <= values@.len(),
            all == texts(values@),
            compatibility_models(elements@) == compatibility_models(old(elements)@) + supported_of(
                all.take(i as int),
            ),
        decreases values@.len() - i,
    {
        let ghost before = elements@;
        assert(all.take(i + 1).drop_last() =~= all.take(i as int));
        assert(all.take(i + 1).last() == values@[i as int]@);
        match guid_from_string(&values[i]) {
            Some(id) => {
                proof {
                    text_reads_as_one_value(values@[i as int]@, id);
                }
                elements.push(
                    CompatibilityElement {
                        id,
                        kind: COMPATIBILITY_ELEMENT_TYPE_OS,
                        max_version_tested: 0,
                    },
                );
                assert(compatibility_models(elements@) =~= compatibility_models(before).push(
                    compatibility_models(elements@).last(),
                ));
                assert(compatibility_models(elements@) =~= compatibility_models(old(elements)@)
                    + supported_of(all.take(i + 1)));
            },
            None => {
                assert(guid_of_text(values@[i as int]@) is None);
            },
        }
        i += 1;
    }
    assert(all.take(i as int) =~= all);
}

/// Add the statements for the versions that were tested. Nothing is promised of the elements where
/// a value is no version.
fn push_tested(elements: &mut Vec<CompatibilityElement>, values: &Vec<Vec<u16>>) -> (ok: bool)
    ensures
        ok == all_versions(texts(values@)),
        ok ==> compatibility_models(final(elements)@) == compatibility_models(old(elements)@)
            + texts(values@).map_values(|v: Seq<u16>| tested_statement(v)),
{
    let ghost all = texts(values@).map_values(|v: Seq<u16>| tested_statement(v));
    let mut i: usize = 0;
    assert(compatibility_models(elements@) =~= compatibility_models(old(elements)@) + all.take(0));
    while i < values.len()
        invariant
            i <= values@.len(),
            all == texts(values@).map_values(|v: Seq<u16>| tested_statement(v)),
            all_versions(texts(values@).take(i as int)),
            compatibility_models(elements@) == compatibility_models(old(elements)@) + all.take(
                i as int,
            ),
        decreases values@.len() - i,
    {
        let ghost before = elements@;
        assert(texts(values@)[i as int] == values@[i as int]@);
        match parse_assembly_version(&values[i]) {
            Some(v) => {
                let id = Guid { data1: 0, data2: 0, data3: 0, data4: [0, 0, 0, 0, 0, 0, 0, 0] };
                let max_version_tested: u64 = v[0] as u64 * 0x1_0000_0000_0000 + v[1] as u64
                    * 0x1_0000_0000 + v[2] as u64 * 0x1_0000 + v[3] as u64;
                assert(id.windows_bytes() =~= zero_bytes(16));
                elements.push(
                    CompatibilityElement {
                        id,
                        kind: COMPATIBILITY_ELEMENT_TYPE_MAX_VERSION_TESTED,
                        max_version_tested,
                    },
                );
                assert(compatibility_models(elements@).last() == all[i as int]);
                assert(compatibility_models(elements@) =~= compatibility_models(before).push(
                    all[i as int],
                ));
                assert(compatibility_models(elements@) =~= compatibility_models(old(elements)@)
                    + all.take(i + 1));
            },
            None => {
                assert(!all_versions(texts(values@)));
                return false;
            },
        }
        i += 1;
        proof {
            let now = texts(values@).take(i as int);
            assert forall|j: int| 0 <= j < now.len() implies version_of(#[trigger] now[j])
                is Some by {
                if j < i - 1 {
                    assert(now[j] == texts(values@).take(i - 1)[j]);
                }
            }
        }
    }
    assert(all.take(i as int) =~= all);
    assert(texts(values@).take(i as int) =~= texts(values@));
    true
}

/// The user interface access after the values.
fn parse_ui_access(before: u32, values: &Vec<Vec<u16>>) -> (access: u32)
    ensures
        access == ui_access_of(before, texts(values@)),
{
    let ghost all = texts(values@);
    let mut access: u32 = before;
    let mut i: usize = 0;
    while i < values.len()
        invariant
            i <= values@.len(),
            all == texts(values@),
            access == ui_access_of(before, all.take(i as int)),
        decreases values@.len() - i,
    {
        assert(all.take(i + 1).drop_last() =~= all.take(i as int));
        assert(all.take(i + 1).last() == values@[i as int]@);
        if ascii_slice_eq_ci(&values[i], "true") {
            access = 1;
        } else if ascii_slice_eq_ci(&values[i], "false") {
            access = 0;
        }
        i += 1;
    }
    assert(all.take(i as int) =~= all);
    access
}

/// The run level that a value names.
fn parse_run_level(value: &[u16]) -> (level: u32)
    ensures
        level == run_level_of(value@),
{
    if ascii_slice_eq_ci(value, "asInvoker") {
        RUN_LEVEL_AS_INVOKER
    } else if ascii_slice_eq_ci(value, "highestAvailable") {
        RUN_LEVEL_HIGHEST_AVAILABLE
    } else if ascii_slice_eq_ci(value, "requireAdministrator") {
        RUN_LEVEL_REQUIRE_ADMIN
    } else {
        RUN_LEVEL_UNSPECIFIED
    }
}

/// Whether the last value of an attribute says `expected`.
fn attribute_says(attributes: &Vec<Attribute>, name: &str, expected: &str) -> (yes: bool)
    ensures
        yes == says(values_of(attribute_models(attributes@), name@), expected@),
{
    match take_last(attribute_values(attributes, name)) {
        Some(value) => ascii_slice_eq_ci(&value, expected),
        None => false,
    }
}

/// Whether the open elements are the root and the elements named.
fn local_stack_suffix_two(stack: &Vec<Vec<u16>>, first: &str, second: &str) -> (yes: bool)
    ensures
        yes == inside_two(texts(stack@), first@, second@),
{
    if stack.len() != 3 {
        return false;
    }
    assert(forall|i: int| 0 <= i < 3 ==> #[trigger] texts(stack@)[i] == stack@[i]@);
    local_eq(&stack[0], "assembly") && local_eq(&stack[1], first) && local_eq(&stack[2], second)
}

/// Whether the open elements are the root and the elements named.
fn local_stack_suffix_three(
    stack: &Vec<Vec<u16>>,
    first: &str,
    second: &str,
    third: &str,
) -> (yes: bool)
    ensures
        yes == inside_three(texts(stack@), first@, second@, third@),
{
    if stack.len() != 4 {
        return false;
    }
    assert(forall|i: int| 0 <= i < 4 ==> #[trigger] texts(stack@)[i] == stack@[i]@);
    local_eq(&stack[0], "assembly") && local_eq(&stack[1], first) && local_eq(&stack[2], second)
        && local_eq(&stack[3], third)
}

impl Parser {
    fn new() -> (parser: Self)
        ensures
            parser@ == nothing_gathered(),
    {
        let parser = Parser {
            redirects: Vec::new(),
            identity: None,
            language: None,
            compatibility: Vec::new(),
            run_level: RUN_LEVEL_UNSPECIFIED,
            ui_access: 0,
            dependency_seen: false,
            binding_seen: false,
            optional: false,
            delayed: false,
            dependencies: Vec::new(),
            dependency_bad: false,
        };
        assert(parser@ =~= nothing_gathered());
        parser
    }

    /// Take an identity element inside a dependent assembly.
    fn add_dependency(&mut self, attributes: &Vec<Attribute>)
        ensures
            final(self)@ == with_dependency_identity(old(self)@, attribute_models(attributes@)),
    {
        match parse_identity(attributes) {
            Some(identity) => {
                let language = take_last(attribute_values(attributes, "language"));
                let dependency = ManifestDependency {
                    identity,
                    language,
                    optional: self.optional,
                    delayed: self.delayed,
                };
                let ghost before = self.dependencies@;
                self.dependencies.push(dependency);
                assert(dependency_models(self.dependencies@) =~= dependency_models(before).push(
                    dependency@,
                ));
            },
            None => {
                self.dependency_bad = true;
            },
        }
        assert(self@ =~= with_dependency_identity(old(self)@, attribute_models(attributes@)));
    }

    /// Take a start tag. Nothing is promised of the parser where the tag makes no sense.
    fn add_tag(&mut self, stack: &Vec<Vec<u16>>, tag: &Tag) -> (ok: bool)
        ensures
            ok == with_tag(old(self)@, texts(stack@), tag@) is Some,
            ok ==> with_tag(old(self)@, texts(stack@), tag@) == Some(final(self)@),
    {
        assert(stack@.len() > 1 ==> texts(stack@)[1] == stack@[1]@);
        let depth: usize = stack.len();
        if local_eq(&tag.name, "dependency") {
            self.dependency_seen = true;
            if depth == 1 {
                self.optional = attribute_says(&tag.attributes, "optional", "yes");
            }
            assert(self@ =~= with_dependency(old(self)@, depth as int, tag@.attributes));
            true
        } else if local_eq(&tag.name, "dependentAssembly") {
            self.dependency_seen = true;
            if depth == 2 && local_eq(&stack[1], "dependency") {
                self.delayed = attribute_says(&tag.attributes, "allowDelayedBinding", "true");
            }
            assert(self@ =~= with_dependent_assembly(old(self)@, texts(stack@), tag@.attributes));
            true
        } else if local_eq(&tag.name, "assemblyBinding") {
            self.binding_seen = true;
            assert(self@ =~= Gathered { binding_seen: true, ..old(self)@ });
            true
        } else if local_eq(&tag.name, "file") && depth == 1 {
            match parse_redirect(&tag.attributes) {
                Some(redirect) => {
                    let ghost before = self.redirects@;
                    let ghost model = RedirectModel {
                        name: redirect.name@,
                        load_from: redirect.path(),
                    };
                    self.redirects.push(redirect);
                    assert(redirect_models(self.redirects@) =~= redirect_models(before).push(model));
                    assert(self@ =~= Gathered {
                        redirects: old(self)@.redirects.push(model),
                        ..old(self)@
                    });
                    true
                },
                None => false,
            }
        } else if local_eq(&tag.name, "assemblyIdentity") && depth == 1 {
            if self.identity.is_some() {
                return false;
            }
            match parse_identity(&tag.attributes) {
                Some(identity) => {
                    let ghost model = identity@;
                    self.identity = Some(identity);
                    self.language = take_last(attribute_values(&tag.attributes, "language"));
                    assert(self@ =~= Gathered {
                        identity: Some(model),
                        language: language_of(tag@.attributes),
                        ..old(self)@
                    });
                    true
                },
                None => false,
            }
        } else if local_eq(&tag.name, "assemblyIdentity") && local_stack_suffix_two(
            stack,
            "dependency",
            "dependentAssembly",
        ) {
            self.add_dependency(&tag.attributes);
            true
        } else if local_eq(&tag.name, "supportedOS") && local_stack_suffix_two(
            stack,
            "compatibility",
            "application",
        ) {
            let values = attribute_values(&tag.attributes, "Id");
            push_supported(&mut self.compatibility, &values);
            assert(self@ =~= Gathered {
                compatibility: old(self)@.compatibility + supported_of(
                    values_of(tag@.attributes, "Id"@),
                ),
                ..old(self)@
            });
            true
        } else if local_eq(&tag.name, "maxversiontested") && local_stack_suffix_two(
            stack,
            "compatibility",
            "application",
        ) {
            let values = attribute_values(&tag.attributes, "Id");
            let ok: bool = push_tested(&mut self.compatibility, &values);
            assert(ok ==> self@ =~= Gathered {
                compatibility: old(self)@.compatibility + values_of(
                    tag@.attributes,
                    "Id"@,
                ).map_values(|v: Seq<u16>| tested_statement(v)),
                ..old(self)@
            });
            ok
        } else if local_eq(&tag.name, "requestedExecutionLevel") && local_stack_suffix_three(
            stack,
            "trustInfo",
            "security",
            "requestedPrivileges",
        ) {
            if self.run_level != RUN_LEVEL_UNSPECIFIED {
                return false;
            }
            match take_last(attribute_values(&tag.attributes, "level")) {
                Some(value) => {
                    self.run_level = parse_run_level(&value);
                },
                None => {},
            }
            let access = attribute_values(&tag.attributes, "uiAccess");
            self.ui_access = parse_ui_access(self.ui_access, &access);
            assert(self@ =~= with_tag(old(self)@, texts(stack@), tag@)->Some_0);
            true
        } else {
            true
        }
    }
}

/// Read the content of the root element from `start` on.
fn parse_body(input: &[u16], start: usize, root: &Vec<u16>, parser: &mut Parser) -> (r: Option<
    usize,
>)
    requires
        start <= input@.len(),
    ensures
        match r {
            Some(end) => body_from(input@, start as int, seq![root@], old(parser)@) == Some(
                (final(parser)@, end as int),
            ) && start <= end <= input@.len(),
            None => body_from(input@, start as int, seq![root@], old(parser)@) is None,
        },
{
    let mut stack: Vec<Vec<u16>> = Vec::new();
    let mut position: usize = start;
    stack.push(copy_units(root));
    assert(texts(stack@) =~= seq![root@]);
    while stack.len() > 0
        invariant
            start <= position <= input@.len(),
            body_from(input@, start as int, seq![root@], old(parser)@) == body_from(
                input@,
                position as int,
                texts(stack@),
                parser@,
            ),
        decreases input@.len() - position,
    {
        let ghost before = stack@;
        match parse_content(input, position) {
            Some((content, next)) => {
                position = next;
                match content {
                    Content::Skipped => {},
                    Content::End(name) => {
                        let last: usize = stack.len() - 1;
                        assert(texts(stack@).last() == stack@[last as int]@);
                        if !same_units(&stack[last], &name) {
                            return None;
                        }
                        stack.pop();
                        assert(texts(stack@) =~= texts(before).drop_last());
                    },
                    Content::Start(tag) => {
                        if !parser.add_tag(&stack, &tag) {
                            return None;
                        }
                        if !tag.self_closing {
                            let ghost name = tag.name@;
                            stack.push(tag.name);
                            assert(texts(stack@) =~= texts(before).push(name));
                        }
                    },
                }
            },
            None => {
                return None;
            },
        }
    }
    Some(position)
}

/// Gather what a text says.
fn parse_text(input: &[u16]) -> (r: Option<Parser>)
    ensures
        match r {
            Some(parser) => gathered_of(input@) == Some(parser@),
            None => gathered_of(input@) is None,
        },
{
    let open: usize = match skip_document_misc(input, 0) {
        Some(open) => open,
        None => {
            return None;
        },
    };
    let (root, inside): (Tag, usize) = match parse_start_tag(input, open) {
        Some(found) => found,
        None => {
            return None;
        },
    };
    if !local_eq(&root.name, "assembly") || !root_has_version(&root.attributes) {
        return None;
    }
    let mut parser = Parser::new();
    let close: usize = if root.self_closing {
        inside
    } else {
        match parse_body(input, inside, &root.name, &mut parser) {
            Some(close) => close,
            None => {
                return None;
            },
        }
    };
    match skip_document_misc(input, close) {
        Some(end) => if end == input.len() {
            Some(parser)
        } else {
            None
        },
        None => None,
    }
}

/// Gather what a manifest says.
fn gather(bytes: &[u8]) -> (r: Option<Parser>)
    ensures
        match r {
            Some(parser) => gathered(bytes@) == Some(parser@),
            None => gathered(bytes@) is None,
        },
{
    match decode_manifest(bytes) {
        Some(text) => parse_text(&text),
        None => None,
    }
}

/// Read the manifest of an assembly without dependencies. One that depends on other assemblies or
/// binds them is refused with `STATUS_SXS_CANT_GEN_ACTCTX`, one that makes no sense with
/// `STATUS_SXS_INVALID_ACTCTXDATA_FORMAT`.
pub fn parse_manifest(bytes: &[u8]) -> (r: Result<ParsedManifest, NtStatus>)
    ensures
        match r {
            Ok(manifest) => manifest_of(bytes@) == Ok::<ManifestModel, NtStatus>(manifest@),
            Err(status) => manifest_of(bytes@) == Err::<ManifestModel, NtStatus>(status),
        },
{
    let parser: Parser = match gather(bytes) {
        Some(parser) => parser,
        None => {
            return Err(STATUS_SXS_INVALID_ACTCTXDATA_FORMAT);
        },
    };
    if parser.dependency_seen || parser.binding_seen {
        return Err(STATUS_SXS_CANT_GEN_ACTCTX);
    }
    let assembly_identity = match parser.identity {
        Some(identity) => identity,
        None => AssemblyIdentity::default(),
    };
    Ok(
        ParsedManifest {
            dll_redirects: parser.redirects,
            assembly_identity,
            compatibility: parser.compatibility,
            run_level: parser.run_level,
            ui_access: parser.ui_access,
        },
    )
}

/// Read a manifest with its dependencies. One that binds assemblies is refused with
/// `STATUS_SXS_CANT_GEN_ACTCTX`, one that makes no sense with
/// `STATUS_SXS_INVALID_ACTCTXDATA_FORMAT`.
pub fn parse_manifest_details(bytes: &[u8]) -> (r: Result<ParsedManifestDetails, NtStatus>)
    ensures
        match r {
            Ok(details) => details_of(bytes@) == Ok::<DetailsModel, NtStatus>(details@),
            Err(status) => details_of(bytes@) == Err::<DetailsModel, NtStatus>(status),
        },
{
    let parser: Parser = match gather(bytes) {
        Some(parser) => parser,
        None => {
            return Err(STATUS_SXS_INVALID_ACTCTXDATA_FORMAT);
        },
    };
    if parser.dependency_bad {
        return Err(STATUS_SXS_INVALID_ACTCTXDATA_FORMAT);
    }
    if parser.binding_seen {
        return Err(STATUS_SXS_CANT_GEN_ACTCTX);
    }
    let assembly_identity = match parser.identity {
        Some(identity) => identity,
        None => AssemblyIdentity::default(),
    };
    let root = ParsedManifest {
        dll_redirects: parser.redirects,
        assembly_identity,
        compatibility: parser.compatibility,
        run_level: parser.run_level,
        ui_access: parser.ui_access,
    };
    Ok(
        ParsedManifestDetails {
            root,
            root_language: parser.language,
            dependencies: parser.dependencies,
        },
    )
}

// ---------------------------------------------------------------------------------------------
// Laws
// ---------------------------------------------------------------------------------------------

/// A text that starts with a less-than sign and holds no zero is read alike in all encodings: UTF-8
/// and UTF-16 of both byte orders, each with and without a byte order mark.
pub proof fn encodings_are_read_alike(
    text: Seq<char>,
    encoding: Encoding,
    marked: bool,
    other: Encoding,
    other_marked: bool,
)
    requires
        text.len() > 0,
        text[0] == '<',
        !text.contains('\0'),
    ensures
        manifest_of(bytes_of(text, encoding, marked)) == manifest_of(
            bytes_of(text, other, other_marked),
        ),
        details_of(bytes_of(text, encoding, marked)) == details_of(
            bytes_of(text, other, other_marked),
        ),
{
    texts_read_back(text, encoding, marked);
    texts_read_back(text, other, other_marked);
}

/// Whether no dependency was met: none is gathered and none is open.
spec fn dependency_free(g: Gathered, stack: Seq<Seq<u16>>) -> bool {
    g.dependencies.len() == 0 && !g.dependency_bad && forall|i: int|
        1 <= i < stack.len() ==> !spells(local_part(#[trigger] stack[i]), "dependency"@)
}

proof fn lemma_body_dependency_free(s: Seq<u16>, at: int, stack: Seq<Seq<u16>>, g: Gathered)
    requires
        !g.dependency_seen ==> dependency_free(g, stack),
    ensures
        body_from(s, at, stack, g) matches Some((after, end)) ==> {
            &&& g.dependency_seen ==> after.dependency_seen
            &&& !after.dependency_seen ==> after.dependencies.len() == 0 && !after.dependency_bad
        },
    decreases s.len() - at,
{
    if stack.len() > 0 {
        if let Some((content, next)) = content_at(s, at) {
            if at < next <= s.len() {
                match content {
                    ContentModel::Skipped => {
                        lemma_body_dependency_free(s, next, stack, g);
                    },
                    ContentModel::End(name) => {
                        lemma_body_dependency_free(s, next, stack.drop_last(), g);
                    },
                    ContentModel::Start(tag) => {
                        if let Some(after) = with_tag(g, stack, tag) {
                            let inner = if tag.self_closing {
                                stack
                            } else {
                                stack.push(tag.name)
                            };
                            lemma_body_dependency_free(s, next, inner, after);
                        }
                    },
                }
            }
        }
    }
}

/// A manifest that can be read without looking at dependencies says the same of its assembly when
/// it is read with them, and depends on nothing.
pub proof fn details_extend_manifest(bytes: Seq<u8>)
    requires
        manifest_of(bytes) is Ok,
    ensures
        details_of(bytes) matches Ok(details) && details.root == manifest_of(bytes)->Ok_0
            && details.dependencies.len() == 0,
{
    let s = manifest_text(bytes)->Some_0;
    let open = misc_end(s, 0)->Some_0;
    if let Some((root, inside)) = start_tag(s, open) {
        lemma_body_dependency_free(s, inside, seq![root.name], nothing_gathered());
    }
}

// ---------------------------------------------------------------------------------------------
// Identity text
// ---------------------------------------------------------------------------------------------

/// A text as code units.
pub open spec fn wide(text: Seq<char>) -> Seq<u16> {
    Seq::new(text.len(), |i: int| text[i] as u16)
}

/// One attribute of an identity text, or nothing where it is absent.
pub open spec fn identity_attribute(prefix: Seq<char>, value: Option<Seq<u16>>) -> Seq<u16> {
    match value {
        Some(value) => wide(prefix) + value + seq![0x22u16],
        None => Seq::empty(),
    }
}

/// The text form of an identity.
pub open spec fn identity_text(identity: IdentityModel) -> Seq<u16> {
    let name = match identity.name {
        Some(name) => name,
        None => Seq::empty(),
    };
    let v = identity.version;
    name + identity_attribute(",processorArchitecture=\""@, identity.processor_architecture)
        + identity_attribute(",publicKeyToken=\""@, identity.public_key_token)
        + identity_attribute(",type=\""@, identity.kind) + wide(",version=\""@) + version_text(
        v[0] as int,
        v[1] as int,
        v[2] as int,
        v[3] as int,
    ) + seq![0x22u16]
}

/// Append a text of ASCII characters.
pub fn extend_ascii(output: &mut Vec<u16>, value: &str)
    requires
        forall|i: int| 0 <= i < value@.len() ==> (#[trigger] value@[i]) as int <= 0x7f,
    ensures
        final(output)@ == old(output)@ + wide(value@),
{
    let length: usize = value.unicode_len();
    let mut i: usize = 0;
    assert(output@ =~= old(output)@ + wide(value@).take(0));
    while i < length
        invariant
            i <= length == value@.len(),
            forall|j: int| 0 <= j < value@.len() ==> (#[trigger] value@[j]) as int <= 0x7f,
            output@ == old(output)@ + wide(value@).take(i as int),
        decreases length - i,
    {
        let c: u32 = value.get_char(i) as u32;
        assert(value@[i as int] as int <= 0x7f);
        output.push(c as u16);
        i += 1;
        assert(output@ =~= old(output)@ + wide(value@).take(i as int));
    }
    assert(wide(value@).take(i as int) =~= wide(value@));
}

fn append_identity_attribute(output: &mut Vec<u16>, prefix: &str, value: &Option<Vec<u16>>)
    requires
        forall|i: int| 0 <= i < prefix@.len() ==> (#[trigger] prefix@[i]) as int <= 0x7f,
    ensures
        final(output)@ == old(output)@ + identity_attribute(prefix@, text_of(*value)),
{
    match value {
        Some(value) => {
            extend_ascii(output, prefix);
            push_units(output, value);
            output.push(0x22);
            assert(output@ =~= old(output)@ + identity_attribute(prefix@, Some(value@)));
        },
        None => {
            assert(output@ =~= old(output)@ + Seq::empty());
        },
    }
}

/// The text form of an identity.
pub fn encode_assembly_identity(identity: &AssemblyIdentity) -> (r: Result<Vec<u16>, NtStatus>)
    ensures
        r matches Ok(text) && text@ == identity_text(identity@),
{
    proof {
        reveal_strlit(",processorArchitecture=\"");
        reveal_strlit(",publicKeyToken=\"");
        reveal_strlit(",type=\"");
        reveal_strlit(",version=\"");
    }
    let mut output: Vec<u16> = Vec::new();
    match &identity.name {
        Some(name) => {
            push_units(&mut output, name);
        },
        None => {},
    }
    append_identity_attribute(
        &mut output,
        ",processorArchitecture=\"",
        &identity.processor_architecture,
    );
    append_identity_attribute(&mut output, ",publicKeyToken=\"", &identity.public_key_token);
    append_identity_attribute(&mut output, ",type=\"", &identity.kind);
    extend_ascii(&mut output, ",version=\"");
    let ghost head = output@;
    push_decimal_u16(&mut output, identity.version[0]);
    output.push(0x2e);
    push_decimal_u16(&mut output, identity.version[1]);
    output.push(0x2e);
    push_decimal_u16(&mut output, identity.version[2]);
    output.push(0x2e);
    push_decimal_u16(&mut output, identity.version[3]);
    output.push(0x22);
    assert(output@ =~= head + version_text(
        identity.version@[0] as int,
        identity.version@[1] as int,
        identity.version@[2] as int,
        identity.version@[3] as int,
    ) + seq![0x22u16]);
    assert(output@ =~= identity_text(identity@));
    Ok(output)
}

} // verus!
