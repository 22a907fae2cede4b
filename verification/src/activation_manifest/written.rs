//! Manifests that were written down read back.
//!
//! A manifest is told by what it says: the identity of its assembly, files, systems, the highest
//! version tested, the execution level, and dependencies. The laws say how that is written down, and
//! that reading gives it back.

use vstd::prelude::*;

use super::encoding::manifest_text;
use super::markup::{
    end_tags_read_back, end_text, is_name, is_word, lemma_markup, lemma_stands, lemma_unit_of,
    stands, tag_ok, tag_text, tags_read_back, units, words_are_names,
};
use super::xml::{
    first_unit, local_part, misc_end, same_ci, space_end, spells, spells_ci, AttributeModel,
    TagModel,
};
use super::{
    body_from, details_of, dotted_from, gathered_of, identity_of, is_part, language_of, manifest_of,
    nothing_gathered, root_version_ok, run_level_of, supported_of, tested_statement, ui_access_of,
    values_of, version_of, with_tag, CompatibilityModel, DependencyModel, Gathered, IdentityModel,
    RedirectModel,
};
use crate::bytes::zero_bytes;
use crate::decimal::{decimal, decimal_round_trip, digits_value, is_digit, version_text};
use crate::guid::{guid_text, guid_text_round_trip, text_reads_as_one_value, Guid};

verus! {

// ---------------------------------------------------------------------------------------------
// Words
// ---------------------------------------------------------------------------------------------

/// The words of manifests.
proof fn lemma_literals()
    ensures
        is_word("assembly"@) && "assembly"@.len() == 8 && "assembly"@[0] == 'a',
        is_word("dependency"@) && "dependency"@.len() == 10,
        is_word("dependentAssembly"@) && "dependentAssembly"@.len() == 17,
        is_word("assemblyBinding"@) && "assemblyBinding"@.len() == 15,
        is_word("file"@) && "file"@.len() == 4,
        is_word("assemblyIdentity"@) && "assemblyIdentity"@.len() == 16 && "assemblyIdentity"@[0]
            == 'a',
        is_word("supportedOS"@) && "supportedOS"@.len() == 11 && "supportedOS"@[0] == 's',
        is_word("maxversiontested"@) && "maxversiontested"@.len() == 16 && "maxversiontested"@[0]
            == 'm',
        is_word("requestedExecutionLevel"@) && "requestedExecutionLevel"@.len() == 23,
        is_word("compatibility"@) && "compatibility"@.len() == 13,
        is_word("application"@) && "application"@.len() == 11 && "application"@[0] == 'a',
        is_word("trustInfo"@) && "trustInfo"@.len() == 9,
        is_word("security"@) && "security"@.len() == 8 && "security"@[0] == 's',
        is_word("requestedPrivileges"@) && "requestedPrivileges"@.len() == 19,
        is_word("name"@) && "name"@.len() == 4 && "name"@[0] == 'n',
        is_word("type"@) && "type"@.len() == 4 && "type"@[0] == 't',
        is_word("loadFrom"@) && "loadFrom"@.len() == 8 && "loadFrom"@[1] == 'o',
        is_word("language"@) && "language"@.len() == 8 && "language"@[1] == 'a',
        is_word("uiAccess"@) && "uiAccess"@.len() == 8 && "uiAccess"@[1] == 'i',
        is_word("optional"@) && "optional"@.len() == 8 && "optional"@[1] == 'p',
        is_word("version"@) && "version"@.len() == 7,
        is_word("processorArchitecture"@) && "processorArchitecture"@.len() == 21,
        is_word("publicKeyToken"@) && "publicKeyToken"@.len() == 14,
        is_word("Id"@) && "Id"@.len() == 2,
        is_word("level"@) && "level"@.len() == 5,
        is_word("manifestVersion"@) && "manifestVersion"@.len() == 15,
        is_word("allowDelayedBinding"@) && "allowDelayedBinding"@.len() == 19,
{
    reveal_strlit("assembly");
    reveal_strlit("dependency");
    reveal_strlit("dependentAssembly");
    reveal_strlit("assemblyBinding");
    reveal_strlit("file");
    reveal_strlit("assemblyIdentity");
    reveal_strlit("supportedOS");
    reveal_strlit("maxversiontested");
    reveal_strlit("requestedExecutionLevel");
    reveal_strlit("compatibility");
    reveal_strlit("application");
    reveal_strlit("trustInfo");
    reveal_strlit("security");
    reveal_strlit("requestedPrivileges");
    reveal_strlit("name");
    reveal_strlit("type");
    reveal_strlit("loadFrom");
    reveal_strlit("language");
    reveal_strlit("uiAccess");
    reveal_strlit("optional");
    reveal_strlit("version");
    reveal_strlit("processorArchitecture");
    reveal_strlit("publicKeyToken");
    reveal_strlit("Id");
    reveal_strlit("level");
    reveal_strlit("manifestVersion");
    reveal_strlit("allowDelayedBinding");
}

proof fn lemma_tag_word(word: Seq<char>)
    requires
        is_word(word),
    ensures
        is_name(units(word)),
        local_part(units(word)) == units(word),
        spells(units(word), "assembly"@) <==> word == "assembly"@,
        spells(units(word), "dependency"@) <==> word == "dependency"@,
        spells(units(word), "dependentAssembly"@) <==> word == "dependentAssembly"@,
        spells(units(word), "assemblyBinding"@) <==> word == "assemblyBinding"@,
        spells(units(word), "file"@) <==> word == "file"@,
        spells(units(word), "assemblyIdentity"@) <==> word == "assemblyIdentity"@,
        spells(units(word), "supportedOS"@) <==> word == "supportedOS"@,
        spells(units(word), "maxversiontested"@) <==> word == "maxversiontested"@,
        spells(units(word), "requestedExecutionLevel"@) <==> word == "requestedExecutionLevel"@,
        spells(units(word), "compatibility"@) <==> word == "compatibility"@,
        spells(units(word), "application"@) <==> word == "application"@,
        spells(units(word), "trustInfo"@) <==> word == "trustInfo"@,
        spells(units(word), "security"@) <==> word == "security"@,
        spells(units(word), "requestedPrivileges"@) <==> word == "requestedPrivileges"@,
{
    words_are_names(word, "assembly"@);
    words_are_names(word, "dependency"@);
    words_are_names(word, "dependentAssembly"@);
    words_are_names(word, "assemblyBinding"@);
    words_are_names(word, "file"@);
    words_are_names(word, "assemblyIdentity"@);
    words_are_names(word, "supportedOS"@);
    words_are_names(word, "maxversiontested"@);
    words_are_names(word, "requestedExecutionLevel"@);
    words_are_names(word, "compatibility"@);
    words_are_names(word, "application"@);
    words_are_names(word, "trustInfo"@);
    words_are_names(word, "security"@);
    words_are_names(word, "requestedPrivileges"@);
}

// ---------------------------------------------------------------------------------------------
// Attributes
// ---------------------------------------------------------------------------------------------

/// An attribute with a word for its name.
pub open spec fn attribute(word: Seq<char>, value: Seq<u16>) -> AttributeModel {
    AttributeModel { name: units(word), value }
}

/// An element without content.
pub open spec fn empty_element(word: Seq<char>, attributes: Seq<AttributeModel>) -> TagModel {
    TagModel { name: units(word), attributes, self_closing: true }
}

/// The start of an element.
pub open spec fn element(word: Seq<char>, attributes: Seq<AttributeModel>) -> TagModel {
    TagModel { name: units(word), attributes, self_closing: false }
}

/// Whether attributes have words for names.
spec fn named(attributes: Seq<AttributeModel>, words: Seq<Seq<char>>) -> bool {
    &&& attributes.len() == words.len()
    &&& forall|i: int|
        0 <= i < words.len() ==> is_word(#[trigger] words[i]) && attributes[i].name == units(
            words[i],
        )
}

proof fn lemma_values(attributes: Seq<AttributeModel>, words: Seq<Seq<char>>, name: Seq<char>, k: int)
    requires
        named(attributes, words),
        forall|i: int| 0 <= i < words.len() && i != k ==> #[trigger] words[i] != name,
        0 <= k < words.len() ==> words[k] == name,
    ensures
        values_of(attributes, name) == if 0 <= k < words.len() {
            seq![attributes[k].value]
        } else {
            Seq::empty()
        },
    decreases words.len(),
{
    if words.len() > 0 {
        let n = words.len() - 1;
        let a = attributes.drop_last();
        let w = words.drop_last();
        assert(is_word(words[n]) && attributes[n].name == units(words[n]));
        words_are_names(words[n], name);
        assert forall|i: int| 0 <= i < w.len() implies is_word(#[trigger] w[i]) && a[i].name
            == units(w[i]) by {
            assert(w[i] == words[i]);
        }
        lemma_values(a, w, name, k);
        assert(values_of(attributes, name) =~= if 0 <= k < words.len() {
            seq![attributes[k].value]
        } else {
            Seq::empty()
        });
    }
}

proof fn lemma_tag_ok(word: Seq<char>, attributes: Seq<AttributeModel>, words: Seq<Seq<char>>)
    requires
        is_word(word),
        named(attributes, words),
        words.no_duplicates(),
    ensures
        tag_ok(empty_element(word, attributes)),
        tag_ok(element(word, attributes)),
{
    words_are_names(word, word);
    assert forall|i: int| 0 <= i < attributes.len() implies is_name(
        (#[trigger] attributes[i]).name,
    ) by {
        assert(is_word(words[i]));
        words_are_names(words[i], words[i]);
    }
    assert forall|i: int, j: int| 0 <= i < j < attributes.len() implies (
    #[trigger] attributes[i]).name != (#[trigger] attributes[j]).name by {
        assert(is_word(words[i]) && is_word(words[j]));
        words_are_names(words[i], words[j]);
        words_are_names(words[j], words[j]);
        assert(words[i] != words[j]);
    }
}

// ---------------------------------------------------------------------------------------------
// Elements
// ---------------------------------------------------------------------------------------------

proof fn lemma_start(
    s: Seq<u16>,
    at: int,
    stack: Seq<Seq<u16>>,
    g: Gathered,
    tag: TagModel,
    after: Gathered,
)
    requires
        stack.len() > 0,
        tag_ok(tag),
        stands(s, at, tag_text(tag)),
        with_tag(g, stack, tag) == Some(after),
    ensures
        body_from(s, at, stack, g) == body_from(
            s,
            at + tag_text(tag).len(),
            if tag.self_closing {
                stack
            } else {
                stack.push(tag.name)
            },
            after,
        ),
{
    tags_read_back(s, at, tag);
}

proof fn lemma_end(s: Seq<u16>, at: int, stack: Seq<Seq<u16>>, g: Gathered, word: Seq<char>)
    requires
        stack.len() > 0,
        stack.last() == units(word),
        is_word(word),
        stands(s, at, end_text(units(word))),
    ensures
        body_from(s, at, stack, g) == body_from(
            s,
            at + end_text(units(word)).len(),
            stack.drop_last(),
            g,
        ),
{
    words_are_names(word, word);
    end_tags_read_back(s, at, units(word));
}

/// The start of an element that says nothing by itself.
proof fn lemma_plain(s: Seq<u16>, at: int, stack: Seq<Seq<u16>>, g: Gathered, word: Seq<char>)
    requires
        stack.len() > 0,
        word == "compatibility"@ || word == "application"@ || word == "trustInfo"@ || word
            == "security"@ || word == "requestedPrivileges"@,
        stands(s, at, tag_text(element(word, Seq::empty()))),
    ensures
        body_from(s, at, stack, g) == body_from(
            s,
            at + tag_text(element(word, Seq::empty())).len(),
            stack.push(units(word)),
            g,
        ),
{
    lemma_literals();
    lemma_tag_word(word);
    let none = Seq::<AttributeModel>::empty();
    lemma_tag_ok(word, none, Seq::empty());
    lemma_start(s, at, stack, g, element(word, none), g);
}

/// A file of the assembly: its name, and where it is loaded from.
pub struct WrittenFile {
    pub name: Seq<u16>,
    pub load_from: Option<Seq<u16>>,
}

/// The element of a file.
pub open spec fn file_element(f: WrittenFile) -> TagModel {
    empty_element(
        "file"@,
        match f.load_from {
            Some(place) => seq![attribute("name"@, f.name), attribute("loadFrom"@, place)],
            None => seq![attribute("name"@, f.name)],
        },
    )
}

/// The elements of files.
pub open spec fn files_text(files: Seq<WrittenFile>) -> Seq<u16>
    decreases files.len(),
{
    if files.len() == 0 {
        Seq::empty()
    } else {
        tag_text(file_element(files[0])) + files_text(files.skip(1))
    }
}

/// The open elements at the top of a manifest.
spec fn top() -> Seq<Seq<u16>> {
    seq![units("assembly"@)]
}

proof fn lemma_file(g: Gathered, f: WrittenFile)
    requires
        f.name.len() > 0,
    ensures
        tag_ok(file_element(f)),
        with_tag(g, top(), file_element(f)) == Some(
            Gathered {
                redirects: g.redirects.push(RedirectModel { name: f.name, load_from: f.load_from }),
                ..g
            },
        ),
{
    lemma_literals();
    lemma_tag_word("file"@);
    let words = match f.load_from {
        Some(_) => seq!["name"@, "loadFrom"@],
        None => seq!["name"@],
    };
    let a = file_element(f).attributes;
    assert(named(a, words));
    lemma_tag_ok("file"@, a, words);
    lemma_values(a, words, "name"@, 0);
    lemma_values(a, words, "loadFrom"@, 1);
}

proof fn lemma_files(s: Seq<u16>, at: int, g: Gathered, files: Seq<WrittenFile>)
    requires
        forall|i: int| 0 <= i < files.len() ==> (#[trigger] files[i]).name.len() > 0,
        stands(s, at, files_text(files)),
    ensures
        body_from(s, at, top(), g) == body_from(
            s,
            at + files_text(files).len(),
            top(),
            Gathered { redirects: g.redirects + redirects_of(files), ..g },
        ),
    decreases files.len(),
{
    if files.len() == 0 {
        assert(g.redirects + redirects_of(files) =~= g.redirects);
    } else {
        let f = files[0];
        let rest = files.skip(1);
        let redirect = RedirectModel { name: f.name, load_from: f.load_from };
        lemma_stands(s, at, tag_text(file_element(f)), files_text(rest));
        lemma_file(g, f);
        let after = Gathered { redirects: g.redirects.push(redirect), ..g };
        lemma_start(s, at, top(), g, file_element(f), after);
        assert forall|i: int| 0 <= i < rest.len() implies (#[trigger] rest[i]).name.len() > 0 by {
            assert(rest[i] == files[i + 1]);
        }
        lemma_files(s, at + tag_text(file_element(f)).len(), after, rest);
        assert(after.redirects + redirects_of(rest) =~= g.redirects + redirects_of(files));
    }
}

/// What files say.
pub open spec fn redirects_of(files: Seq<WrittenFile>) -> Seq<RedirectModel> {
    files.map_values(|f: WrittenFile| RedirectModel { name: f.name, load_from: f.load_from })
}

/// An identity: its texts, and the four parts of the version.
pub struct WrittenIdentity {
    pub name: Seq<u16>,
    pub architecture: Seq<u16>,
    pub token: Seq<u16>,
    pub kind: Seq<u16>,
    pub language: Seq<u16>,
    pub version: (u16, u16, u16, u16),
}

/// The text of a version.
pub open spec fn version_of_parts(v: (u16, u16, u16, u16)) -> Seq<u16> {
    version_text(v.0 as int, v.1 as int, v.2 as int, v.3 as int)
}

/// The element of an identity.
pub open spec fn identity_element(i: WrittenIdentity) -> TagModel {
    empty_element(
        "assemblyIdentity"@,
        seq![
            attribute("type"@, i.kind),
            attribute("name"@, i.name),
            attribute("version"@, version_of_parts(i.version)),
            attribute("processorArchitecture"@, i.architecture),
            attribute("publicKeyToken"@, i.token),
            attribute("language"@, i.language),
        ],
    )
}

/// What an identity says.
pub open spec fn identity_model(i: WrittenIdentity) -> IdentityModel {
    IdentityModel {
        name: Some(i.name),
        processor_architecture: Some(i.architecture),
        public_key_token: Some(i.token),
        kind: Some(i.kind),
        version: seq![i.version.0, i.version.1, i.version.2, i.version.3],
    }
}

proof fn lemma_first_unit(s: Seq<u16>, at: int, end: int, unit: u16)
    requires
        0 <= at <= end <= s.len(),
        forall|i: int| at <= i < end ==> #[trigger] s[i] != unit,
        end < s.len() ==> s[end] == unit,
    ensures
        first_unit(s, at, unit) == if end < s.len() {
            Some(end)
        } else {
            None
        },
    decreases end - at,
{
    if at < end {
        lemma_first_unit(s, at + 1, end, unit);
    }
}

proof fn lemma_part(s: Seq<u16>, at: int, v: u16)
    requires
        stands(s, at, decimal(v as int)),
        at + decimal(v as int).len() < s.len() ==> s[at + decimal(v as int).len()] == 0x2e,
    ensures
        first_unit(s, at, 0x2e) == if at + decimal(v as int).len() < s.len() {
            Some(at + decimal(v as int).len())
        } else {
            None
        },
        is_part(decimal(v as int)),
        digits_value(decimal(v as int)) == v,
        s.subrange(at, at + decimal(v as int).len()) == decimal(v as int),
{
    let d = decimal(v as int);
    decimal_round_trip(v as int);
    assert forall|i: int| at <= i < at + d.len() implies #[trigger] s[i] != 0x2e by {
        lemma_unit_of(s, at, d, i - at);
        assert(is_digit(d[i - at]));
    }
    lemma_first_unit(s, at, at + d.len(), 0x2e);
}

/// The text of a version reads back.
pub proof fn versions_read_back(v: (u16, u16, u16, u16))
    ensures
        version_of(version_of_parts(v)) == Some(seq![v.0, v.1, v.2, v.3]),
{
    let w = version_of_parts(v);
    let (a, b, c, d) = (
        decimal(v.0 as int),
        decimal(v.1 as int),
        decimal(v.2 as int),
        decimal(v.3 as int),
    );
    let dot = seq![0x2eu16];
    assert(w.subrange(0, w.len() as int) =~= w);
    lemma_stands(w, 0, a + dot + b + dot + c + dot, d);
    lemma_stands(w, 0, a + dot + b + dot + c, dot);
    lemma_stands(w, 0, a + dot + b + dot, c);
    lemma_stands(w, 0, a + dot + b, dot);
    lemma_stands(w, 0, a + dot, b);
    lemma_stands(w, 0, a, dot);
    let p = a.len() as int;
    let q = p + 1 + b.len();
    let r = q + 1 + c.len();
    lemma_unit_of(w, p, dot, 0);
    lemma_unit_of(w, q, dot, 0);
    lemma_unit_of(w, r, dot, 0);
    assert(w[p + 0] == 0x2e && w[q + 0] == 0x2e && w[r + 0] == 0x2e);
    lemma_part(w, 0, v.0);
    lemma_part(w, p + 1, v.1);
    lemma_part(w, q + 1, v.2);
    lemma_part(w, r + 1, v.3);
    reveal_with_fuel(dotted_from, 5);
    let parts = dotted_from(w, 0);
    assert(parts =~= seq![a, b, c, d]);
    assert forall|i: int| 0 <= i < parts.len() implies is_part(#[trigger] parts[i]) by {
        assert(i == 0 || i == 1 || i == 2 || i == 3);
    }
    assert(version_of(w)->Some_0 =~= seq![v.0, v.1, v.2, v.3]);
}

proof fn lemma_identity(i: WrittenIdentity)
    ensures
        tag_ok(identity_element(i)),
        identity_of(identity_element(i).attributes) == Some(identity_model(i)),
        language_of(identity_element(i).attributes) == Some(i.language),
{
    lemma_literals();
    let words = seq![
        "type"@,
        "name"@,
        "version"@,
        "processorArchitecture"@,
        "publicKeyToken"@,
        "language"@,
    ];
    let a = identity_element(i).attributes;
    assert(named(a, words));
    lemma_tag_ok("assemblyIdentity"@, a, words);
    lemma_values(a, words, "type"@, 0);
    lemma_values(a, words, "name"@, 1);
    lemma_values(a, words, "version"@, 2);
    lemma_values(a, words, "processorArchitecture"@, 3);
    lemma_values(a, words, "publicKeyToken"@, 4);
    lemma_values(a, words, "language"@, 5);
    versions_read_back(i.version);
}

/// The element of a system that the application supports.
pub open spec fn system_element(g: Guid) -> TagModel {
    empty_element("supportedOS"@, seq![attribute("Id"@, guid_text(g))])
}

/// The elements of systems.
pub open spec fn systems_text(systems: Seq<Guid>) -> Seq<u16>
    decreases systems.len(),
{
    if systems.len() == 0 {
        Seq::empty()
    } else {
        tag_text(system_element(systems[0])) + systems_text(systems.skip(1))
    }
}

/// What systems say.
pub open spec fn systems_of(systems: Seq<Guid>) -> Seq<CompatibilityModel> {
    systems.map_values(
        |g: Guid| CompatibilityModel { id: g.windows_bytes(), kind: 1, max_version_tested: 0 },
    )
}

/// The open elements around the statements of compatibility.
spec fn inside_application() -> Seq<Seq<u16>> {
    seq![units("assembly"@), units("compatibility"@), units("application"@)]
}

proof fn lemma_system(g: Gathered, id: Guid)
    ensures
        tag_ok(system_element(id)),
        with_tag(g, inside_application(), system_element(id)) == Some(
            Gathered {
                compatibility: g.compatibility.push(
                    CompatibilityModel {
                        id: id.windows_bytes(),
                        kind: 1,
                        max_version_tested: 0,
                    },
                ),
                ..g
            },
        ),
{
    let tag = system_element(id);
    lemma_literals();
    lemma_tag_word("supportedOS"@);
    lemma_tag_word("assembly"@);
    lemma_tag_word("compatibility"@);
    lemma_tag_word("application"@);
    let words = seq!["Id"@];
    assert(named(tag.attributes, words));
    lemma_tag_ok("supportedOS"@, tag.attributes, words);
    lemma_values(tag.attributes, words, "Id"@, 0);
    lemma_supported(id);
    let one = CompatibilityModel { id: id.windows_bytes(), kind: 1, max_version_tested: 0 };
    assert(g.compatibility + seq![one] =~= g.compatibility.push(one));
}

proof fn lemma_supported(id: Guid)
    ensures
        supported_of(seq![guid_text(id)]) == seq![
            CompatibilityModel { id: id.windows_bytes(), kind: 1, max_version_tested: 0 },
        ],
{
    guid_text_round_trip(id);
    text_reads_as_one_value(guid_text(id), id);
    reveal_with_fuel(supported_of, 2);
    let texts = seq![guid_text(id)];
    assert(texts.drop_last() =~= Seq::empty());
    assert(supported_of(texts) =~= seq![
        CompatibilityModel { id: id.windows_bytes(), kind: 1, max_version_tested: 0 },
    ]);
}

proof fn lemma_systems(s: Seq<u16>, at: int, g: Gathered, systems: Seq<Guid>)
    requires
        stands(s, at, systems_text(systems)),
    ensures
        body_from(s, at, inside_application(), g) == body_from(
            s,
            at + systems_text(systems).len(),
            inside_application(),
            Gathered { compatibility: g.compatibility + systems_of(systems), ..g },
        ),
    decreases systems.len(),
{
    if systems.len() == 0 {
        assert(g.compatibility + systems_of(systems) =~= g.compatibility);
    } else {
        let id = systems[0];
        let rest = systems.skip(1);
        let tag = system_element(id);
        lemma_stands(s, at, tag_text(tag), systems_text(rest));
        let one = CompatibilityModel { id: id.windows_bytes(), kind: 1, max_version_tested: 0 };
        lemma_system(g, id);
        let after = Gathered { compatibility: g.compatibility.push(one), ..g };
        lemma_start(s, at, inside_application(), g, tag, after);
        lemma_systems(s, at + tag_text(tag).len(), after, rest);
        assert(after.compatibility + systems_of(rest) =~= g.compatibility + systems_of(systems));
    }
}

/// The element of the highest version that was tested.
pub open spec fn tested_element(v: (u16, u16, u16, u16)) -> TagModel {
    empty_element("maxversiontested"@, seq![attribute("Id"@, version_of_parts(v))])
}

/// What the highest version that was tested says: its four parts make one number.
pub open spec fn tested_of(v: (u16, u16, u16, u16)) -> CompatibilityModel {
    CompatibilityModel {
        id: zero_bytes(16),
        kind: 3,
        max_version_tested: (((v.0 * 0x1_0000 + v.1) * 0x1_0000 + v.2) * 0x1_0000 + v.3) as u64,
    }
}

proof fn lemma_tested(g: Gathered, v: (u16, u16, u16, u16))
    ensures
        tag_ok(tested_element(v)),
        with_tag(g, inside_application(), tested_element(v)) == Some(
            Gathered { compatibility: g.compatibility.push(tested_of(v)), ..g },
        ),
{
    lemma_literals();
    lemma_tag_word("maxversiontested"@);
    lemma_tag_word("assembly"@);
    lemma_tag_word("compatibility"@);
    lemma_tag_word("application"@);
    let tag = tested_element(v);
    let words = seq!["Id"@];
    assert(named(tag.attributes, words));
    lemma_tag_ok("maxversiontested"@, tag.attributes, words);
    lemma_values(tag.attributes, words, "Id"@, 0);
    versions_read_back(v);
    let values = seq![version_of_parts(v)];
    assert(tested_statement(version_of_parts(v)) == tested_of(v));
    assert(values.map_values(|w: Seq<u16>| tested_statement(w)) =~= seq![tested_of(v)]);
    assert(g.compatibility + seq![tested_of(v)] =~= g.compatibility.push(tested_of(v)));
}

/// Whether a text spells a lower-case word, each letter in either case.
pub open spec fn in_any_case(w: Seq<u16>, word: Seq<char>) -> bool {
    &&& w.len() == word.len()
    &&& forall|i: int|
        0 <= i < w.len() ==> #[trigger] w[i] as int == word[i] as int || w[i] as int + 0x20
            == word[i] as int
}

proof fn lemma_any_case(w: Seq<u16>, lower: Seq<char>, word: Seq<char>)
    requires
        in_any_case(w, lower),
        is_word(lower),
        lower.len() == word.len(),
        forall|i: int|
            0 <= i < lower.len() ==> 'a' <= #[trigger] lower[i] <= 'z' && (word[i] == lower[i]
                || word[i] as int + 0x20 == lower[i] as int),
    ensures
        spells_ci(w, word),
{
    assert forall|i: int| 0 <= i < w.len() implies #[trigger] same_ci(w[i], word[i]) by {
        assert('a' <= lower[i] <= 'z');
        assert(w[i] as int == lower[i] as int || w[i] as int + 0x20 == lower[i] as int);
    }
}

/// The levels have the numbers one, two and three, in any case of their letters.
pub proof fn levels_have_numbers(w: Seq<u16>)
    ensures
        in_any_case(w, "asinvoker"@) ==> run_level_of(w) == 1,
        in_any_case(w, "highestavailable"@) ==> run_level_of(w) == 2,
        in_any_case(w, "requireadministrator"@) ==> run_level_of(w) == 3,
        run_level_of(w) == 1 ==> w.len() == 9,
        run_level_of(w) == 2 ==> w.len() == 16,
        run_level_of(w) == 3 ==> w.len() == 20,
        w.len() != 9 && w.len() != 16 && w.len() != 20 ==> run_level_of(w) == 0,
{
    reveal_strlit("asinvoker");
    reveal_strlit("highestavailable");
    reveal_strlit("requireadministrator");
    reveal_strlit("asInvoker");
    reveal_strlit("highestAvailable");
    reveal_strlit("requireAdministrator");
    if in_any_case(w, "asinvoker"@) {
        lemma_any_case(w, "asinvoker"@, "asInvoker"@);
    }
    if in_any_case(w, "highestavailable"@) {
        lemma_any_case(w, "highestavailable"@, "highestAvailable"@);
    }
    if in_any_case(w, "requireadministrator"@) {
        lemma_any_case(w, "requireadministrator"@, "requireAdministrator"@);
    }
}

/// The element of the execution level.
pub open spec fn level_element(level: Seq<u16>, ui: Seq<u16>) -> TagModel {
    empty_element(
        "requestedExecutionLevel"@,
        seq![attribute("level"@, level), attribute("uiAccess"@, ui)],
    )
}

/// The open elements around the execution level.
spec fn inside_privileges() -> Seq<Seq<u16>> {
    seq![
        units("assembly"@),
        units("trustInfo"@),
        units("security"@),
        units("requestedPrivileges"@),
    ]
}

/// The access that a truth value in any case of its letters stands for.
proof fn lemma_ui(ui: Seq<u16>)
    ensures
        in_any_case(ui, "true"@) ==> ui_access_of(0, seq![ui]) == 1,
        in_any_case(ui, "false"@) ==> ui_access_of(0, seq![ui]) == 0,
        ui.len() != 4 ==> ui_access_of(0, seq![ui]) == 0,
{
    reveal_strlit("true");
    reveal_strlit("false");
    reveal_with_fuel(ui_access_of, 2);
    let values = seq![ui];
    assert(values.last() == ui);
    assert(values.drop_last() =~= Seq::empty());
    if in_any_case(ui, "true"@) {
        lemma_any_case(ui, "true"@, "true"@);
    }
    if in_any_case(ui, "false"@) {
        lemma_any_case(ui, "false"@, "false"@);
    }
}

proof fn lemma_level(g: Gathered, level: Seq<u16>, ui: Seq<u16>)
    requires
        g.run_level == 0,
        g.ui_access == 0,
    ensures
        tag_ok(level_element(level, ui)),
        with_tag(g, inside_privileges(), level_element(level, ui)) == Some(
            Gathered {
                run_level: run_level_of(level),
                ui_access: ui_access_of(0, seq![ui]),
                ..g
            },
        ),
{
    lemma_literals();
    lemma_tag_word("requestedExecutionLevel"@);
    lemma_tag_word("assembly"@);
    lemma_tag_word("trustInfo"@);
    lemma_tag_word("security"@);
    lemma_tag_word("requestedPrivileges"@);
    let tag = level_element(level, ui);
    let words = seq!["level"@, "uiAccess"@];
    assert(named(tag.attributes, words));
    lemma_tag_ok("requestedExecutionLevel"@, tag.attributes, words);
    lemma_values(tag.attributes, words, "level"@, 0);
    lemma_values(tag.attributes, words, "uiAccess"@, 1);
}

// ---------------------------------------------------------------------------------------------
// Manifests
// ---------------------------------------------------------------------------------------------

/// The root element.
pub open spec fn root_element() -> TagModel {
    element("assembly"@, seq![attribute("manifestVersion"@, units("1.0"@))])
}

/// A manifest with some content.
pub open spec fn manifest_around(content: Seq<u16>) -> Seq<u16> {
    tag_text(root_element()) + content + end_text(units("assembly"@))
}

proof fn lemma_root()
    ensures
        tag_ok(root_element()),
        local_part(units("assembly"@)) == units("assembly"@),
        spells(units("assembly"@), "assembly"@),
        root_version_ok(root_element().attributes),
        tag_text(root_element()).len() > 1,
        tag_text(root_element())[0] == 0x3c,
        tag_text(root_element())[1] == 0x61,
{
    let root = root_element();
    lemma_literals();
    lemma_tag_word("assembly"@);
    let words = seq!["manifestVersion"@];
    assert(named(root.attributes, words));
    lemma_tag_ok("assembly"@, root.attributes, words);
    lemma_values(root.attributes, words, "manifestVersion"@, 0);
    reveal_strlit("1.0");
    assert(spells(units("1.0"@), "1.0"@));
    assert(tag_text(root)[1] == root.name[0]);
}

proof fn lemma_start_of_text(s: Seq<u16>)
    requires
        s.len() > 1,
        s[0] == 0x3c,
        s[1] == 0x61,
    ensures
        misc_end(s, 0) == Some(0int),
{
    lemma_markup(s, 0);
    assert(space_end(s, 0) == 0);
}

proof fn lemma_whole(s: Seq<u16>, content: Seq<u16>)
    requires
        s == manifest_around(content),
    ensures
        stands(s, tag_text(root_element()).len() as int, content),
{
    assert(s.subrange(0, s.len() as int) =~= s);
    lemma_stands(s, 0, tag_text(root_element()) + content, end_text(units("assembly"@)));
    lemma_stands(s, 0, tag_text(root_element()), content);
}

#[verifier::rlimit(60)]
proof fn lemma_manifest(s: Seq<u16>, content: Seq<u16>, g: Gathered)
    requires
        s == manifest_around(content),
        body_from(s, tag_text(root_element()).len() as int, top(), nothing_gathered())
            == body_from(
            s,
            (tag_text(root_element()).len() + content.len()) as int,
            top(),
            g,
        ),
    ensures
        gathered_of(s) == Some(g),
{
    let root = root_element();
    let end = end_text(units("assembly"@));
    let inside = tag_text(root).len() as int;
    let close = inside + content.len();
    lemma_root();
    assert(s.subrange(0, s.len() as int) =~= s);
    lemma_stands(s, 0, tag_text(root) + content, end);
    lemma_stands(s, 0, tag_text(root), content);
    tags_read_back(s, 0, root);
    assert(is_word("assembly"@)) by {
        lemma_literals();
    }
    lemma_end(s, close, top(), g, "assembly"@);
    assert(top().drop_last() =~= Seq::empty());
    assert(close + end.len() == s.len());
    lemma_unit_of(s, 0, tag_text(root), 0);
    lemma_unit_of(s, 0, tag_text(root), 1);
    lemma_start_of_text(s);
    lemma_end_of_text(s);
    assert(top() =~= seq![root.name]);
    assert(body_from(s, inside, top(), nothing_gathered()) == Some((g, s.len() as int)));
}

proof fn lemma_end_of_text(s: Seq<u16>)
    ensures
        misc_end(s, s.len() as int) == Some(s.len() as int),
{
    reveal_strlit("<!--");
    reveal_strlit("<?");
    assert(space_end(s, s.len() as int) == s.len());
}

/// What a manifest says of its assembly.
pub struct Description {
    pub identity: WrittenIdentity,
    pub files: Seq<WrittenFile>,
    pub systems: Seq<Guid>,
    pub tested: (u16, u16, u16, u16),
    pub level: Seq<u16>,
    pub ui: Seq<u16>,
}

/// An element with some content.
pub open spec fn around(word: Seq<char>, content: Seq<u16>) -> Seq<u16> {
    tag_text(element(word, Seq::empty())) + content + end_text(units(word))
}

/// The statements of compatibility.
pub open spec fn compatibility_text(d: Description) -> Seq<u16> {
    around(
        "compatibility"@,
        around("application"@, systems_text(d.systems) + tag_text(tested_element(d.tested))),
    )
}

/// The execution level.
pub open spec fn trust_text(d: Description) -> Seq<u16> {
    around(
        "trustInfo"@,
        around(
            "security"@,
            around("requestedPrivileges"@, tag_text(level_element(d.level, d.ui))),
        ),
    )
}

/// The text of a manifest.
pub open spec fn description_text(d: Description) -> Seq<u16> {
    manifest_around(
        tag_text(identity_element(d.identity)) + files_text(d.files) + compatibility_text(d)
            + trust_text(d),
    )
}

proof fn lemma_around(s: Seq<u16>, at: int, word: Seq<char>, content: Seq<u16>) -> (inside: int)
    requires
        stands(s, at, around(word, content)),
    ensures
        inside == at + tag_text(element(word, Seq::empty())).len(),
        stands(s, at, tag_text(element(word, Seq::empty()))),
        stands(s, inside, content),
        stands(s, inside + content.len(), end_text(units(word))),
        inside + content.len() + end_text(units(word)).len() == at + around(word, content).len(),
{
    let open = tag_text(element(word, Seq::empty()));
    lemma_stands(s, at, open + content, end_text(units(word)));
    lemma_stands(s, at, open, content);
    at + open.len()
}

#[verifier::rlimit(60)]
proof fn lemma_compatibility(s: Seq<u16>, at: int, g: Gathered, d: Description)
    requires
        stands(s, at, compatibility_text(d)),
    ensures
        body_from(s, at, top(), g) == body_from(
            s,
            at + compatibility_text(d).len(),
            top(),
            Gathered {
                compatibility: g.compatibility + systems_of(d.systems).push(tested_of(d.tested)),
                ..g
            },
        ),
{
    assert(is_word("application"@) && is_word("compatibility"@)) by {
        lemma_literals();
    }
    let last = tag_text(tested_element(d.tested));
    let statements = systems_text(d.systems) + last;
    let inner = around("application"@, statements);
    let first = lemma_around(s, at, "compatibility"@, inner);
    let second = lemma_around(s, first, "application"@, statements);
    lemma_plain(s, at, top(), g, "compatibility"@);
    let outer = top().push(units("compatibility"@));
    lemma_plain(s, first, outer, g, "application"@);
    assert(outer.push(units("application"@)) =~= inside_application());
    lemma_stands(s, second, systems_text(d.systems), last);
    lemma_systems(s, second, g, d.systems);
    let mid = Gathered { compatibility: g.compatibility + systems_of(d.systems), ..g };
    let third = second + systems_text(d.systems).len();
    lemma_tested(mid, d.tested);
    let after = Gathered { compatibility: mid.compatibility.push(tested_of(d.tested)), ..mid };
    lemma_start(s, third, inside_application(), mid, tested_element(d.tested), after);
    lemma_end(s, second + statements.len(), inside_application(), after, "application"@);
    assert(inside_application().drop_last() =~= outer);
    lemma_end(s, first + inner.len(), outer, after, "compatibility"@);
    assert(outer.drop_last() =~= top());
    assert(after.compatibility =~= g.compatibility + systems_of(d.systems).push(
        tested_of(d.tested),
    ));
}

#[verifier::rlimit(60)]
proof fn lemma_trust(s: Seq<u16>, at: int, g: Gathered, d: Description)
    requires
        g.run_level == 0,
        g.ui_access == 0,
        stands(s, at, trust_text(d)),
    ensures
        body_from(s, at, top(), g) == body_from(
            s,
            at + trust_text(d).len(),
            top(),
            Gathered {
                run_level: run_level_of(d.level),
                ui_access: ui_access_of(0, seq![d.ui]),
                ..g
            },
        ),
{
    assert(is_word("trustInfo"@) && is_word("security"@) && is_word("requestedPrivileges"@)) by {
        lemma_literals();
    }
    let tag = level_element(d.level, d.ui);
    let inmost = around("requestedPrivileges"@, tag_text(tag));
    let inner = around("security"@, inmost);
    let first = lemma_around(s, at, "trustInfo"@, inner);
    let second = lemma_around(s, first, "security"@, inmost);
    let third = lemma_around(s, second, "requestedPrivileges"@, tag_text(tag));
    let one = top().push(units("trustInfo"@));
    let two = one.push(units("security"@));
    lemma_plain(s, at, top(), g, "trustInfo"@);
    lemma_plain(s, first, one, g, "security"@);
    lemma_plain(s, second, two, g, "requestedPrivileges"@);
    assert(two.push(units("requestedPrivileges"@)) =~= inside_privileges());
    lemma_level(g, d.level, d.ui);
    let after = Gathered {
        run_level: run_level_of(d.level),
        ui_access: ui_access_of(0, seq![d.ui]),
        ..g
    };
    lemma_start(s, third, inside_privileges(), g, tag, after);
    lemma_end(s, third + tag_text(tag).len(), inside_privileges(), after, "requestedPrivileges"@);
    assert(inside_privileges().drop_last() =~= two);
    lemma_end(s, second + inmost.len(), two, after, "security"@);
    assert(two.drop_last() =~= one);
    lemma_end(s, first + inner.len(), one, after, "trustInfo"@);
    assert(one.drop_last() =~= top());
}

proof fn lemma_root_identity(g: Gathered, i: WrittenIdentity)
    requires
        g.identity is None,
    ensures
        with_tag(g, top(), identity_element(i)) == Some(
            Gathered { identity: Some(identity_model(i)), language: Some(i.language), ..g },
        ),
{
    lemma_literals();
    lemma_tag_word("assemblyIdentity"@);
    lemma_identity(i);
}

#[verifier::rlimit(60)]
proof fn lemma_content(s: Seq<u16>, start: int, d: Description) -> (g: Gathered)
    requires
        forall|i: int| 0 <= i < d.files.len() ==> (#[trigger] d.files[i]).name.len() > 0,
        stands(
            s,
            start,
            tag_text(identity_element(d.identity)) + files_text(d.files) + compatibility_text(d)
                + trust_text(d),
        ),
    ensures
        body_from(s, start, top(), nothing_gathered()) == body_from(
            s,
            start + (tag_text(identity_element(d.identity)) + files_text(d.files)
                + compatibility_text(d) + trust_text(d)).len(),
            top(),
            g,
        ),
        g.identity == Some(identity_model(d.identity)),
        g.redirects == redirects_of(d.files),
        g.compatibility == systems_of(d.systems).push(tested_of(d.tested)),
        in_any_case(d.level, "asinvoker"@) ==> g.run_level == 1,
        in_any_case(d.level, "highestavailable"@) ==> g.run_level == 2,
        in_any_case(d.level, "requireadministrator"@) ==> g.run_level == 3,
        in_any_case(d.ui, "true"@) ==> g.ui_access == 1,
        in_any_case(d.ui, "false"@) ==> g.ui_access == 0,
        !g.dependency_seen,
        !g.binding_seen,
{
    let a = tag_text(identity_element(d.identity));
    let b = files_text(d.files);
    let c = compatibility_text(d);
    let e = trust_text(d);
    lemma_stands(s, start, a + b + c, e);
    lemma_stands(s, start, a + b, c);
    lemma_stands(s, start, a, b);
    let g0 = nothing_gathered();
    lemma_root_identity(g0, d.identity);
    lemma_identity(d.identity);
    let g1 = Gathered {
        identity: Some(identity_model(d.identity)),
        language: Some(d.identity.language),
        ..g0
    };
    lemma_start(s, start, top(), g0, identity_element(d.identity), g1);
    lemma_files(s, start + a.len(), g1, d.files);
    let g2 = Gathered { redirects: g1.redirects + redirects_of(d.files), ..g1 };
    lemma_compatibility(s, start + a.len() + b.len(), g2, d);
    let g3 = Gathered {
        compatibility: g2.compatibility + systems_of(d.systems).push(tested_of(d.tested)),
        ..g2
    };
    lemma_trust(s, start + a.len() + b.len() + c.len(), g3, d);
    let g4 = Gathered {
        run_level: run_level_of(d.level),
        ui_access: ui_access_of(0, seq![d.ui]),
        ..g3
    };
    levels_have_numbers(d.level);
    lemma_ui(d.ui);
    assert(g4.redirects =~= redirects_of(d.files));
    assert(g4.compatibility =~= systems_of(d.systems).push(tested_of(d.tested)));
    g4
}

/// A manifest reads back as it was written: its identity, its files in order, the systems it
/// supports and the highest version tested, the level by its number, whatever the case of its
/// letters, and the access to the user interface.
#[verifier::rlimit(60)]
pub proof fn manifests_read_back(bytes: Seq<u8>, d: Description)
    requires
        manifest_text(bytes) == Some(description_text(d)),
        forall|i: int| 0 <= i < d.files.len() ==> (#[trigger] d.files[i]).name.len() > 0,
    ensures
        manifest_of(bytes) matches Ok(m) && {
            &&& m.identity == identity_model(d.identity)
            &&& m.redirects == redirects_of(d.files)
            &&& m.compatibility == systems_of(d.systems).push(tested_of(d.tested))
            &&& in_any_case(d.level, "asinvoker"@) ==> m.run_level == 1
            &&& in_any_case(d.level, "highestavailable"@) ==> m.run_level == 2
            &&& in_any_case(d.level, "requireadministrator"@) ==> m.run_level == 3
            &&& in_any_case(d.ui, "true"@) ==> m.ui_access == 1
            &&& in_any_case(d.ui, "false"@) ==> m.ui_access == 0
        },
{
    let s = description_text(d);
    let content = tag_text(identity_element(d.identity)) + files_text(d.files)
        + compatibility_text(d) + trust_text(d);
    let start = tag_text(root_element()).len() as int;
    lemma_whole(s, content);
    let g = lemma_content(s, start, d);
    lemma_manifest(s, content, g);
}

/// A dependency: the identity it asks for, and what is written for whether it may be missing and
/// whether it may be bound later.
pub struct WrittenDependency {
    pub identity: WrittenIdentity,
    pub optional: bool,
    pub delayed: bool,
}

/// The start of the element of a dependency.
pub open spec fn dependency_element(d: WrittenDependency) -> TagModel {
    element(
        "dependency"@,
        seq![
            attribute(
                "optional"@,
                if d.optional {
                    units("yes"@)
                } else {
                    units("no"@)
                },
            ),
        ],
    )
}

/// The start of the element of the assembly that is asked for.
pub open spec fn dependent_element(d: WrittenDependency) -> TagModel {
    element(
        "dependentAssembly"@,
        seq![
            attribute(
                "allowDelayedBinding"@,
                if d.delayed {
                    units("true"@)
                } else {
                    units("false"@)
                },
            ),
        ],
    )
}

/// The text of a dependency.
pub open spec fn dependency_text(d: WrittenDependency) -> Seq<u16> {
    tag_text(dependency_element(d)) + tag_text(dependent_element(d)) + tag_text(
        identity_element(d.identity),
    ) + end_text(units("dependentAssembly"@)) + end_text(units("dependency"@))
}

/// The texts of dependencies.
pub open spec fn dependencies_text(ds: Seq<WrittenDependency>) -> Seq<u16>
    decreases ds.len(),
{
    if ds.len() == 0 {
        Seq::empty()
    } else {
        dependency_text(ds[0]) + dependencies_text(ds.skip(1))
    }
}

/// What dependencies say.
pub open spec fn dependencies_of(ds: Seq<WrittenDependency>) -> Seq<DependencyModel> {
    ds.map_values(|d: WrittenDependency| dependency_of(d))
}

/// What a dependency says.
pub open spec fn dependency_of(d: WrittenDependency) -> DependencyModel {
    DependencyModel {
        identity: identity_model(d.identity),
        language: Some(d.identity.language),
        optional: d.optional,
        delayed: d.delayed,
    }
}

proof fn lemma_truths()
    ensures
        spells_ci(units("yes"@), "yes"@),
        !spells_ci(units("no"@), "yes"@),
        spells_ci(units("true"@), "true"@),
        !spells_ci(units("false"@), "true"@),
{
    reveal_strlit("yes");
    reveal_strlit("no");
    reveal_strlit("true");
    reveal_strlit("false");
    lemma_any_case(units("yes"@), "yes"@, "yes"@);
    lemma_any_case(units("true"@), "true"@, "true"@);
}

#[verifier::rlimit(60)]
proof fn lemma_dependency(s: Seq<u16>, at: int, g: Gathered, d: WrittenDependency) -> (after: Gathered)
    requires
        stands(s, at, dependency_text(d)),
        !g.dependency_bad,
    ensures
        body_from(s, at, top(), g) == body_from(s, at + dependency_text(d).len(), top(), after),
        after == (Gathered {
            dependency_seen: true,
            optional: d.optional,
            delayed: d.delayed,
            dependencies: g.dependencies.push(dependency_of(d)),
            ..g
        }),
{
    lemma_literals();
    lemma_tag_word("assembly"@);
    lemma_tag_word("dependency"@);
    lemma_tag_word("dependentAssembly"@);
    lemma_tag_word("assemblyIdentity"@);
    lemma_truths();
    let first = dependency_element(d);
    let second = dependent_element(d);
    let third = identity_element(d.identity);
    let (a, b, c) = (tag_text(first), tag_text(second), tag_text(third));
    let e = end_text(units("dependentAssembly"@));
    let f = end_text(units("dependency"@));
    lemma_stands(s, at, a + b + c + e, f);
    lemma_stands(s, at, a + b + c, e);
    lemma_stands(s, at, a + b, c);
    lemma_stands(s, at, a, b);
    let words = seq!["optional"@];
    assert(named(first.attributes, words));
    lemma_tag_ok("dependency"@, first.attributes, words);
    lemma_values(first.attributes, words, "optional"@, 0);
    let g1 = Gathered { dependency_seen: true, optional: d.optional, ..g };
    lemma_start(s, at, top(), g, first, g1);
    let one = top().push(units("dependency"@));
    let other = seq!["allowDelayedBinding"@];
    assert(named(second.attributes, other));
    lemma_tag_ok("dependentAssembly"@, second.attributes, other);
    lemma_values(second.attributes, other, "allowDelayedBinding"@, 0);
    let g2 = Gathered { delayed: d.delayed, ..g1 };
    lemma_start(s, at + a.len(), one, g1, second, g2);
    let two = one.push(units("dependentAssembly"@));
    lemma_identity(d.identity);
    let g3 = Gathered { dependencies: g2.dependencies.push(dependency_of(d)), ..g2 };
    assert(two[0] == units("assembly"@) && two[1] == units("dependency"@) && two[2] == units(
        "dependentAssembly"@,
    ));
    lemma_start(s, at + a.len() + b.len(), two, g2, third, g3);
    let k = at + a.len() + b.len() + c.len();
    lemma_end(s, k, two, g3, "dependentAssembly"@);
    assert(two.drop_last() =~= one);
    lemma_end(s, k + e.len(), one, g3, "dependency"@);
    assert(one.drop_last() =~= top());
    g3
}

proof fn lemma_dependencies(s: Seq<u16>, at: int, g: Gathered, ds: Seq<WrittenDependency>) -> (after:
    Gathered)
    requires
        stands(s, at, dependencies_text(ds)),
        !g.dependency_bad,
    ensures
        body_from(s, at, top(), g) == body_from(s, at + dependencies_text(ds).len(), top(), after),
        after.dependencies == g.dependencies + dependencies_of(ds),
        after == (Gathered {
            dependency_seen: after.dependency_seen,
            optional: after.optional,
            delayed: after.delayed,
            dependencies: after.dependencies,
            ..g
        }),
    decreases ds.len(),
{
    if ds.len() == 0 {
        assert(g.dependencies + dependencies_of(ds) =~= g.dependencies);
        g
    } else {
        let rest = ds.skip(1);
        lemma_stands(s, at, dependency_text(ds[0]), dependencies_text(rest));
        let next = lemma_dependency(s, at, g, ds[0]);
        let after = lemma_dependencies(s, at + dependency_text(ds[0]).len(), next, rest);
        assert(after.dependencies =~= g.dependencies + dependencies_of(ds));
        after
    }
}

/// The text of a manifest with dependencies.
pub open spec fn dependent_text(identity: WrittenIdentity, ds: Seq<WrittenDependency>) -> Seq<u16> {
    manifest_around(tag_text(identity_element(identity)) + dependencies_text(ds))
}

/// A manifest with dependencies reads back as it was written: the identity and the language of its
/// assembly, and each dependency in order, with whether it may be missing or bound later.
#[verifier::rlimit(60)]
pub proof fn dependencies_read_back(
    bytes: Seq<u8>,
    identity: WrittenIdentity,
    ds: Seq<WrittenDependency>,
)
    requires
        manifest_text(bytes) == Some(dependent_text(identity, ds)),
    ensures
        details_of(bytes) matches Ok(m) && {
            &&& m.root.identity == identity_model(identity)
            &&& m.root.redirects.len() == 0
            &&& m.root.compatibility.len() == 0
            &&& m.root.run_level == 0
            &&& m.root.ui_access == 0
            &&& m.root_language == Some(identity.language)
            &&& m.dependencies == dependencies_of(ds)
        },
{
    let s = dependent_text(identity, ds);
    let content = tag_text(identity_element(identity)) + dependencies_text(ds);
    let start = tag_text(root_element()).len() as int;
    lemma_whole(s, content);
    let g = lemma_dependent_content(s, start, identity, ds);
    lemma_manifest(s, content, g);
}

proof fn lemma_dependent_content(
    s: Seq<u16>,
    start: int,
    identity: WrittenIdentity,
    ds: Seq<WrittenDependency>,
) -> (g: Gathered)
    requires
        stands(s, start, tag_text(identity_element(identity)) + dependencies_text(ds)),
    ensures
        body_from(s, start, top(), nothing_gathered()) == body_from(
            s,
            start + (tag_text(identity_element(identity)) + dependencies_text(ds)).len(),
            top(),
            g,
        ),
        g.identity == Some(identity_model(identity)),
        g.language == Some(identity.language),
        g.redirects.len() == 0,
        g.compatibility.len() == 0,
        g.run_level == 0,
        g.ui_access == 0,
        g.dependencies == dependencies_of(ds),
        !g.dependency_bad,
        !g.binding_seen,
{
    let a = tag_text(identity_element(identity));
    let b = dependencies_text(ds);
    lemma_stands(s, start, a, b);
    let g0 = nothing_gathered();
    lemma_root_identity(g0, identity);
    lemma_identity(identity);
    let g1 = Gathered {
        identity: Some(identity_model(identity)),
        language: Some(identity.language),
        ..g0
    };
    lemma_start(s, start, top(), g0, identity_element(identity), g1);
    let g2 = lemma_dependencies(s, start + a.len(), g1, ds);
    assert(g2.dependencies =~= dependencies_of(ds));
    g2
}

} // verus!
