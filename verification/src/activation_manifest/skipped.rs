//! Markup that says nothing, references by number, what is refused, and texts of identities.

use vstd::prelude::*;

use super::xml::{
    content_at, escaped_text_ok, first_occurrence, first_unit, is_xml_char, last_colon, local_part,
    occurs, reference, reference_value, spells, unescaped, unescaped_from, ContentModel, TagModel,
};
use super::{identity_text, wide, with_tag, Gathered, IdentityModel};
use crate::decimal::{decimal, decimal_round_trip, is_digit};

verus! {

proof fn lemma_found(s: Seq<u16>, at: int, k: int, text: Seq<char>)
    requires
        0 <= at <= k,
        text.len() > 0,
        occurs(s, k, text),
        forall|i: int| at <= i < k ==> !(#[trigger] occurs(s, i, text)),
    ensures
        first_occurrence(s, at, text) == Some(k),
    decreases k - at,
{
    if at < k {
        assert(!occurs(s, at, text));
        lemma_found(s, at + 1, k, text);
    }
}

proof fn lemma_open(s: Seq<u16>, at: int)
    requires
        0 <= at < s.len(),
        s[at] == 0x3c,
    ensures
        first_unit(s, at, 0x3c) == Some(at),
        escaped_text_ok(s.subrange(at, at)),
{
    reveal_strlit("]]>");
    let nothing = s.subrange(at, at);
    assert(nothing.len() == 0);
    assert(first_occurrence(nothing, 0, "]]>"@) is None);
    assert(unescaped(nothing) == unescaped_from(nothing, 0));
}

/// Whether no two neighbours are hyphens, and the last unit is none.
pub open spec fn comment_ok(text: Seq<u16>) -> bool {
    &&& forall|i: int| 0 <= i < text.len() - 1 ==> !(#[trigger] text[i] == 0x2d && text[i + 1] == 0x2d)
    &&& text.len() > 0 ==> text.last() != 0x2d
}

/// A comment without two hyphens in a row is passed over.
pub proof fn comments_are_passed_over(front: Seq<u16>, text: Seq<u16>, rest: Seq<u16>)
    requires
        comment_ok(text),
    ensures
        content_at(front + wide("<!--"@) + text + wide("-->"@) + rest, front.len() as int) == Some(
            (ContentModel::Skipped, (front.len() + 7 + text.len()) as int),
        ),
{
    reveal_strlit("<!--");
    reveal_strlit("-->");
    reveal_strlit("--");
    let open = wide("<!--"@);
    let close = wide("-->"@);
    let s = front + open + text + close + rest;
    let at = front.len() as int;
    let end = at + 4 + text.len();
    assert(s[at] == open[0]);
    lemma_open(s, at);
    assert(s.subrange(at, at + 4) =~= open);
    assert(occurs(s, at, "<!--"@));
    assert(s.subrange(end, end + 3) =~= close);
    assert(occurs(s, end, "-->"@));
    assert(s.subrange(end, end + 2) =~= wide("--"@));
    assert(occurs(s, end, "--"@));
    assert(s[end] == 0x2d);
    assert forall|i: int| at + 4 <= i < end implies s[i] == #[trigger] text[i - at - 4] by {}
    assert forall|i: int| at + 4 <= i < end implies !(#[trigger] occurs(s, i, "--"@)) by {
        if occurs(s, i, "--"@) {
            let pair = s.subrange(i, i + 2);
            assert(pair[0] as int == "--"@[0] as int && pair[1] as int == "--"@[1] as int);
            assert(s[i] == 0x2d && s[i + 1] == 0x2d);
            let k = i - at - 4;
            assert(text[k] == 0x2d);
            if k + 1 < text.len() {
                assert(text[k + 1] == 0x2d);
            } else {
                assert(text.last() == text[k]);
            }
        }
    }
    assert forall|i: int| at + 4 <= i < end implies !(#[trigger] occurs(s, i, "-->"@)) by {
        if occurs(s, i, "-->"@) {
            let three = s.subrange(i, i + 3);
            assert(three[0] as int == "-->"@[0] as int && three[1] as int == "-->"@[1] as int);
            assert(s.subrange(i, i + 2) =~= wide("--"@));
            assert(occurs(s, i, "--"@));
        }
    }
    lemma_found(s, at + 4, end, "-->"@);
    lemma_found(s, at + 4, end, "--"@);
}

/// Character data is passed over up to its end, and so is a processing instruction.
pub proof fn data_and_instructions_are_passed_over(front: Seq<u16>, text: Seq<u16>, rest: Seq<u16>)
    requires
        !text.contains(0x3e),
    ensures
        content_at(front + wide("<![CDATA["@) + text + wide("]]>"@) + rest, front.len() as int)
            == Some((ContentModel::Skipped, (front.len() + 12 + text.len()) as int)),
        content_at(front + wide("<?"@) + text + wide("?>"@) + rest, front.len() as int) == Some(
            (ContentModel::Skipped, (front.len() + 4 + text.len()) as int),
        ),
{
    lemma_data(front, text, rest);
    lemma_instruction(front, text, rest);
}

proof fn lemma_data(front: Seq<u16>, text: Seq<u16>, rest: Seq<u16>)
    requires
        !text.contains(0x3e),
    ensures
        content_at(front + wide("<![CDATA["@) + text + wide("]]>"@) + rest, front.len() as int)
            == Some((ContentModel::Skipped, (front.len() + 12 + text.len()) as int)),
{
    reveal_strlit("<![CDATA[");
    reveal_strlit("]]>");
    reveal_strlit("<!--");
    let open = wide("<![CDATA["@);
    let close = wide("]]>"@);
    let s = front + open + text + close + rest;
    let at = front.len() as int;
    let end = at + 9 + text.len();
    assert(s[at] == open[0]);
    lemma_open(s, at);
    assert(s.subrange(at, at + 9) =~= open);
    assert(occurs(s, at, "<![CDATA["@));
    assert(s[at + 2] == open[2]);
    assert(!occurs(s, at, "<!--"@)) by {
        if occurs(s, at, "<!--"@) {
            assert(s.subrange(at, at + 4)[2] as int == "<!--"@[2] as int);
        }
    }
    assert(s.subrange(end, end + 3) =~= close);
    assert(occurs(s, end, "]]>"@));
    assert forall|i: int| at + 9 <= i < end implies !(#[trigger] occurs(s, i, "]]>"@)) by {
        if occurs(s, i, "]]>"@) {
            assert(s.subrange(i, i + 3)[2] as int == "]]>"@[2] as int);
            assert(s[i + 2] == 0x3e);
            let k = i + 2 - at - 9;
            if k < text.len() {
                assert(s[i + 2] == text[k]);
                assert(text.contains(text[k]));
            } else {
                assert(s[i + 2] == close[k - text.len()]);
            }
        }
    }
    lemma_found(s, at + 9, end, "]]>"@);
}

proof fn lemma_instruction(front: Seq<u16>, text: Seq<u16>, rest: Seq<u16>)
    requires
        !text.contains(0x3e),
    ensures
        content_at(front + wide("<?"@) + text + wide("?>"@) + rest, front.len() as int) == Some(
            (ContentModel::Skipped, (front.len() + 4 + text.len()) as int),
        ),
{
    reveal_strlit("<![CDATA[");
    reveal_strlit("<!--");
    reveal_strlit("<?");
    reveal_strlit("?>");
    let open = wide("<?"@);
    let close = wide("?>"@);
    let s = front + open + text + close + rest;
    let at = front.len() as int;
    let end = at + 2 + text.len();
    assert(s[at] == open[0]);
    assert(s[at + 1] == open[1]);
    lemma_open(s, at);
    assert(s.subrange(at, at + 2) =~= open);
    assert(occurs(s, at, "<?"@));
    assert(!occurs(s, at, "<!--"@)) by {
        if occurs(s, at, "<!--"@) {
            assert(s.subrange(at, at + 4)[1] as int == "<!--"@[1] as int);
        }
    }
    assert(!occurs(s, at, "<![CDATA["@)) by {
        if occurs(s, at, "<![CDATA["@) {
            assert(s.subrange(at, at + 9)[1] as int == "<![CDATA["@[1] as int);
        }
    }
    assert(s.subrange(end, end + 2) =~= close);
    assert(occurs(s, end, "?>"@));
    assert forall|i: int| at + 2 <= i < end implies !(#[trigger] occurs(s, i, "?>"@)) by {
        if occurs(s, i, "?>"@) {
            assert(s.subrange(i, i + 2)[1] as int == "?>"@[1] as int);
            assert(s[i + 1] == 0x3e);
            let k = i + 1 - at - 2;
            if k < text.len() {
                assert(s[i + 1] == text[k]);
                assert(text.contains(text[k]));
            } else {
                assert(s[i + 1] == close[k - text.len()]);
            }
        }
    }
    lemma_found(s, at + 2, end, "?>"@);
}

proof fn lemma_unit_found(s: Seq<u16>, at: int, end: int, unit: u16)
    requires
        0 <= at <= end < s.len(),
        forall|i: int| at <= i < end ==> #[trigger] s[i] != unit,
        s[end] == unit,
    ensures
        first_unit(s, at, unit) == Some(end),
    decreases end - at,
{
    if at < end {
        lemma_unit_found(s, at + 1, end, unit);
    }
}

/// A reference by a decimal number stands for the character with that number, where it may stand in
/// a text.
pub proof fn numbers_stand_for_characters(front: Seq<u16>, v: int, rest: Seq<u16>)
    requires
        0 <= v,
    ensures
        reference(front + wide("&#"@) + decimal(v) + wide(";"@) + rest, front.len() as int) == (
        if is_xml_char(v) {
            Some((v, (front.len() + 3 + decimal(v).len()) as int))
        } else {
            None
        }),
{
    reveal_strlit("&#");
    reveal_strlit(";");
    reveal_strlit("lt");
    reveal_strlit("gt");
    reveal_strlit("amp");
    reveal_strlit("apos");
    reveal_strlit("quot");
    decimal_round_trip(v);
    let digits = decimal(v);
    let s = front + wide("&#"@) + digits + wide(";"@) + rest;
    let at = front.len() as int;
    let end = at + 2 + digits.len();
    assert(s[at + 1] == 0x23);
    assert forall|i: int| at + 1 <= i < end implies #[trigger] s[i] != 0x3b by {
        if i > at + 1 {
            assert(s[i] == digits[i - at - 2]);
            assert(is_digit(digits[i - at - 2]));
        }
    }
    assert(s[end] == 0x3b);
    lemma_unit_found(s, at + 1, end, 0x3b);
    let body = s.subrange(at + 1, end);
    assert(body =~= seq![0x23u16] + digits);
    assert(body[0] == 0x23);
    assert(!spells(body, "lt"@) && !spells(body, "gt"@) && !spells(body, "amp"@) && !spells(
        body,
        "apos"@,
    ) && !spells(body, "quot"@)) by {
        assert("lt"@[0] == 'l' && "gt"@[0] == 'g' && "amp"@[0] == 'a' && "apos"@[0] == 'a'
            && "quot"@[0] == 'q');
    }
    assert(body.subrange(1, body.len() as int) =~= digits);
    assert(is_digit(digits[0]));
    assert(reference_value(body) == Some(v));
}

/// The prefix of a name is not part of what it is known by.
pub proof fn prefixes_do_not_count(prefix: Seq<u16>, name: Seq<u16>)
    requires
        !name.contains(0x3a),
    ensures
        local_part(prefix + wide(":"@) + name) == name,
        local_part(name) == name,
{
    reveal_strlit(":");
    lemma_last_colon(prefix + wide(":"@), name);
    lemma_last_colon(Seq::empty(), name);
    assert(Seq::<u16>::empty() + name =~= name);
    assert(local_part(prefix + wide(":"@) + name) =~= name);
    assert(local_part(name) =~= name);
}

proof fn lemma_last_colon(front: Seq<u16>, name: Seq<u16>)
    requires
        !name.contains(0x3a),
        front.len() > 0 ==> front.last() == 0x3a,
    ensures
        last_colon(front + name) == front.len() - 1,
    decreases name.len(),
{
    let w = front + name;
    if name.len() > 0 {
        assert(w.last() == name.last());
        assert(name.contains(name.last()));
        assert(w.drop_last() =~= front + name.drop_last());
        assert forall|i: int| 0 <= i < name.drop_last().len() implies name.drop_last()[i] != 0x3a by {
            assert(name.contains(name[i]));
        }
        lemma_last_colon(front, name.drop_last());
    } else {
        assert(w =~= front);
    }
}

/// A manifest has one identity and asks for one level: what would be a second one is refused.
pub proof fn second_statements_are_refused(g: Gathered, stack: Seq<Seq<u16>>, tag: TagModel)
    ensures
        g.identity is Some && stack.len() == 1 && spells(local_part(tag.name), "assemblyIdentity"@)
            ==> with_tag(g, stack, tag) is None,
        g.run_level != 0 && spells(local_part(tag.name), "requestedExecutionLevel"@)
            && super::inside_three(stack, "trustInfo"@, "security"@, "requestedPrivileges"@)
            ==> with_tag(g, stack, tag) is None,
{
    reveal_strlit("assemblyIdentity");
    reveal_strlit("dependency");
    reveal_strlit("dependentAssembly");
    reveal_strlit("assemblyBinding");
    reveal_strlit("file");
    reveal_strlit("supportedOS");
    reveal_strlit("maxversiontested");
    reveal_strlit("requestedExecutionLevel");
    let name = local_part(tag.name);
    if spells(name, "assemblyIdentity"@) {
        assert(name.len() == 16);
        assert(name[0] as int == "assemblyIdentity"@[0] as int);
    }
    if spells(name, "requestedExecutionLevel"@) {
        assert(name.len() == 23);
    }
}

/// The text of an identity is its name, and what else is known of it behind commas: architecture,
/// token, type and version in this order, each between quotes.
pub proof fn identities_are_written_in_order(
    identity: IdentityModel,
    name: Seq<u16>,
    architecture: Seq<u16>,
    token: Seq<u16>,
    kind: Seq<u16>,
)
    requires
        identity.name == Some(name),
        identity.processor_architecture == Some(architecture),
        identity.public_key_token == Some(token),
        identity.kind == Some(kind),
        identity.version.len() == 4,
    ensures
        identity_text(identity) == name + wide(",processorArchitecture=\""@) + architecture + wide(
            "\",publicKeyToken=\""@,
        ) + token + wide("\",type=\""@) + kind + wide("\",version=\""@) + decimal(
            identity.version[0] as int,
        ) + wide("."@) + decimal(identity.version[1] as int) + wide("."@) + decimal(
            identity.version[2] as int,
        ) + wide("."@) + decimal(identity.version[3] as int) + wide("\""@),
{
    reveal_strlit(",publicKeyToken=\"");
    reveal_strlit("\",publicKeyToken=\"");
    reveal_strlit(",type=\"");
    reveal_strlit("\",type=\"");
    reveal_strlit(",version=\"");
    reveal_strlit("\",version=\"");
    reveal_strlit(".");
    reveal_strlit("\"");
    let quote = seq![0x22u16];
    assert(wide("\""@) =~= quote);
    assert(wide("."@) =~= seq![0x2eu16]);
    assert(wide("\",publicKeyToken=\""@) =~= quote + wide(",publicKeyToken=\""@));
    assert(wide("\",type=\""@) =~= quote + wide(",type=\""@));
    assert(wide("\",version=\""@) =~= quote + wide(",version=\""@));
    assert(identity_text(identity) =~= name + wide(",processorArchitecture=\""@) + architecture
        + wide("\",publicKeyToken=\""@) + token + wide("\",type=\""@) + kind + wide(
        "\",version=\""@,
    ) + decimal(identity.version[0] as int) + wide("."@) + decimal(identity.version[1] as int)
        + wide("."@) + decimal(identity.version[2] as int) + wide("."@) + decimal(
        identity.version[3] as int,
    ) + wide("\""@));
}

/// What is not known of an identity is left out of its text; the version is always there.
pub proof fn unknown_parts_are_left_out(identity: IdentityModel)
    requires
        identity == super::no_identity(),
    ensures
        identity_text(identity) == wide(",version=\"0.0.0.0\""@),
{
    reveal_strlit(",version=\"0.0.0.0\"");
    reveal_strlit(",version=\"");
    let v = identity.version;
    assert(v[0] == 0 && v[1] == 0 && v[2] == 0 && v[3] == 0);
    assert(decimal(0) =~= seq![0x30u16]);
    assert(identity_text(identity) =~= wide(",version=\"0.0.0.0\""@));
}

} // verus!
