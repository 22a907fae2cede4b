//! Markup that was written down reads back.

use vstd::prelude::*;

use super::xml::{
    attribute_at, content_at, continues_name, end_tag, escaped_text_ok, first_occurrence,
    first_unit, last_colon, local_part, name_end, names_differ, occurs, quote_end, reference,
    run_end, space_end, spells, start_tag, starts_name, tag_rest, unescaped, unescaped_from,
    AttributeModel, ContentModel, TagModel,
};

verus! {

/// The code units of an ASCII text.
pub open spec fn units(text: Seq<char>) -> Seq<u16> {
    text.map_values(|c: char| c as u16)
}

/// A unit as it is written in an attribute.
pub open spec fn escaped_unit(u: u16) -> Seq<u16> {
    if u == 0x26 {
        units("&amp;"@)
    } else if u == 0x3c {
        units("&lt;"@)
    } else if u == 0x3e {
        units("&gt;"@)
    } else if u == 0x22 {
        units("&quot;"@)
    } else {
        seq![u]
    }
}

/// A text as it is written in an attribute.
pub open spec fn escaped(w: Seq<u16>) -> Seq<u16>
    decreases w.len(),
{
    if w.len() == 0 {
        Seq::empty()
    } else {
        escaped_unit(w[0]) + escaped(w.skip(1))
    }
}

/// Whether a text stands at `at`.
pub open spec fn stands(s: Seq<u16>, at: int, piece: Seq<u16>) -> bool {
    0 <= at && at + piece.len() <= s.len() && s.subrange(at, at + piece.len()) == piece
}

pub(crate) proof fn lemma_stands(s: Seq<u16>, at: int, a: Seq<u16>, b: Seq<u16>)
    requires
        stands(s, at, a + b),
    ensures
        stands(s, at, a),
        stands(s, at + a.len(), b),
{
    let whole = s.subrange(at, at + (a + b).len());
    assert(s.subrange(at, at + a.len()) =~= whole.subrange(0, a.len() as int));
    assert(whole.subrange(0, a.len() as int) =~= a);
    assert(s.subrange(at + a.len(), at + a.len() + b.len()) =~= whole.subrange(
        a.len() as int,
        (a + b).len() as int,
    ));
    assert(whole.subrange(a.len() as int, (a + b).len() as int) =~= b);
}

pub(crate) proof fn lemma_unit_of(s: Seq<u16>, at: int, piece: Seq<u16>, i: int)
    requires
        stands(s, at, piece),
        0 <= i < piece.len(),
    ensures
        s[at + i] == piece[i],
{
    assert(s.subrange(at, at + piece.len())[i] == s[at + i]);
}

proof fn lemma_escapes()
    ensures
        units("&amp;"@) == seq![0x26u16, 0x61, 0x6d, 0x70, 0x3b],
        units("&lt;"@) == seq![0x26u16, 0x6c, 0x74, 0x3b],
        units("&gt;"@) == seq![0x26u16, 0x67, 0x74, 0x3b],
        units("&quot;"@) == seq![0x26u16, 0x71, 0x75, 0x6f, 0x74, 0x3b],
        "lt"@ == seq!['l', 't'],
        "gt"@ == seq!['g', 't'],
        "amp"@ == seq!['a', 'm', 'p'],
        "apos"@ == seq!['a', 'p', 'o', 's'],
        "quot"@ == seq!['q', 'u', 'o', 't'],
        "]]>"@ == seq![']', ']', '>'],
{
    reveal_strlit("&amp;");
    reveal_strlit("&lt;");
    reveal_strlit("&gt;");
    reveal_strlit("&quot;");
    reveal_strlit("lt");
    reveal_strlit("gt");
    reveal_strlit("amp");
    reveal_strlit("apos");
    reveal_strlit("quot");
    reveal_strlit("]]>");
    assert(units("&amp;"@) =~= seq![0x26u16, 0x61, 0x6d, 0x70, 0x3b]);
    assert(units("&lt;"@) =~= seq![0x26u16, 0x6c, 0x74, 0x3b]);
    assert(units("&gt;"@) =~= seq![0x26u16, 0x67, 0x74, 0x3b]);
    assert(units("&quot;"@) =~= seq![0x26u16, 0x71, 0x75, 0x6f, 0x74, 0x3b]);
    assert("lt"@ =~= seq!['l', 't']);
    assert("gt"@ =~= seq!['g', 't']);
    assert("amp"@ =~= seq!['a', 'm', 'p']);
    assert("apos"@ =~= seq!['a', 'p', 'o', 's']);
    assert("quot"@ =~= seq!['q', 'u', 'o', 't']);
    assert("]]>"@ =~= seq![']', ']', '>']);
}

/// The reference that stands for a unit.
proof fn lemma_reference(s: Seq<u16>, at: int, u: u16)
    requires
        u == 0x26 || u == 0x3c || u == 0x3e || u == 0x22,
        stands(s, at, escaped_unit(u)),
    ensures
        reference(s, at) == Some((u as int, at + escaped_unit(u).len())),
        s[at] == 0x26,
{
    lemma_escapes();
    let e = escaped_unit(u);
    let n = e.len() as int;
    assert forall|i: int| 0 <= i < n implies s[at + i] == e[i] by {
        lemma_unit_of(s, at, e, i);
    }
    assert(s[at + 0] == e[0]);
    assert(s[at + 1] == e[1]);
    assert(s[at + 2] == e[2]);
    assert(s[at + 3] == e[3]);
    if n > 4 {
        assert(s[at + 4] == e[4]);
    }
    if n > 5 {
        assert(s[at + 5] == e[5]);
    }
    reveal_with_fuel(first_unit, 7);
    assert(first_unit(s, at + 1, 0x3b) == Some(at + n - 1));
    let body = s.subrange(at + 1, at + n - 1);
    if u == 0x26 {
        assert(body =~= seq![0x61u16, 0x6d, 0x70]);
        assert(spells(body, "amp"@));
    } else if u == 0x3c {
        assert(body =~= seq![0x6cu16, 0x74]);
        assert(spells(body, "lt"@));
    } else if u == 0x3e {
        assert(body =~= seq![0x67u16, 0x74]);
        assert(!spells(body, "lt"@)) by {
            assert(body[0] as int != "lt"@[0] as int);
        }
        assert(spells(body, "gt"@));
    } else {
        assert(body =~= seq![0x71u16, 0x75, 0x6f, 0x74]);
        assert(!spells(body, "apos"@)) by {
            assert(body[0] as int != "apos"@[0] as int);
        }
        assert(spells(body, "quot"@));
    }
}

proof fn lemma_unescaped(s: Seq<u16>, at: int, w: Seq<u16>)
    requires
        stands(s, at, escaped(w)),
        at + escaped(w).len() == s.len(),
    ensures
        unescaped_from(s, at) == Some(w),
    decreases w.len(),
{
    if w.len() == 0 {
        assert(w =~= Seq::empty());
    } else {
        let u = w[0];
        let rest = w.skip(1);
        let e = escaped_unit(u);
        lemma_escapes();
        lemma_stands(s, at, e, escaped(rest));
        lemma_unescaped(s, at + e.len(), rest);
        assert(seq![u] + rest =~= w);
        if u == 0x26 || u == 0x3c || u == 0x3e || u == 0x22 {
            lemma_reference(s, at, u);
        } else {
            lemma_unit_of(s, at, e, 0);
            assert(s[at + 0] == u);
        }
    }
}

/// No unit of an escaped text ends an attribute or starts markup.
proof fn lemma_escaped_units(w: Seq<u16>)
    ensures
        forall|i: int|
            0 <= i < escaped(w).len() ==> (#[trigger] escaped(w)[i]) != 0x3c && escaped(w)[i] != 0x3e
                && escaped(w)[i] != 0x22,
    decreases w.len(),
{
    if w.len() > 0 {
        lemma_escapes();
        lemma_escaped_units(w.skip(1));
        let e = escaped_unit(w[0]);
        let r = escaped(w.skip(1));
        assert forall|i: int| 0 <= i < escaped(w).len() implies (#[trigger] escaped(w)[i]) != 0x3c
            && escaped(w)[i] != 0x3e && escaped(w)[i] != 0x22 by {
            if i < e.len() {
                assert(escaped(w)[i] == e[i]);
            } else {
                assert(escaped(w)[i] == r[i - e.len()]);
            }
        }
    }
}

/// A text that was escaped reads back.
pub proof fn escaped_text_reads_back(w: Seq<u16>)
    ensures
        unescaped(escaped(w)) == Some(w),
        escaped_text_ok(escaped(w)),
{
    let s = escaped(w);
    assert(s.subrange(0, s.len() as int) =~= s);
    lemma_unescaped(s, 0, w);
    lemma_escaped_units(w);
    lemma_no_bracket(s, 0);
}

proof fn lemma_no_bracket(s: Seq<u16>, at: int)
    requires
        forall|i: int| 0 <= i < s.len() ==> #[trigger] s[i] != 0x3e,
        0 <= at,
    ensures
        first_occurrence(s, at, "]]>"@) is None,
    decreases s.len() - at,
{
    lemma_escapes();
    if at + 3 <= s.len() {
        if occurs(s, at, "]]>"@) {
            let part = s.subrange(at, at + 3);
            assert(part[2] == s[at + 2]);
            assert(part[2] as int == "]]>"@[2] as int);
        }
        lemma_no_bracket(s, at + 1);
    }
}

/// Whether units are a name.
pub open spec fn is_name(n: Seq<u16>) -> bool {
    &&& n.len() > 0
    &&& starts_name(n[0])
    &&& forall|i: int| 0 <= i < n.len() ==> continues_name(#[trigger] n[i])
}

proof fn lemma_run_end(s: Seq<u16>, at: int, end: int)
    requires
        0 <= at <= end < s.len(),
        forall|i: int| at <= i < end ==> continues_name(#[trigger] s[i]),
        !continues_name(s[end]),
    ensures
        run_end(s, at) == end,
    decreases end - at,
{
    if at < end {
        assert(continues_name(s[at]));
        lemma_run_end(s, at + 1, end);
    }
}

proof fn lemma_name_end(s: Seq<u16>, at: int, n: Seq<u16>)
    requires
        is_name(n),
        stands(s, at, n),
        at + n.len() < s.len(),
        !continues_name(s[at + n.len()]),
    ensures
        name_end(s, at) == Some(at + n.len()),
        s.subrange(at, at + n.len()) == n,
{
    assert forall|i: int| at <= i < at + n.len() implies continues_name(#[trigger] s[i]) by {
        lemma_unit_of(s, at, n, i - at);
        assert(continues_name(n[i - at]));
    }
    lemma_unit_of(s, at, n, 0);
    lemma_run_end(s, at + 1, at + n.len());
}

proof fn lemma_quote_end(s: Seq<u16>, at: int, end: int)
    requires
        0 <= at <= end < s.len(),
        forall|i: int| at <= i < end ==> #[trigger] s[i] != 0x22 && s[i] != 0x3c,
        s[end] == 0x22,
    ensures
        quote_end(s, at, 0x22) == Some(end),
    decreases end - at,
{
    if at < end {
        lemma_quote_end(s, at + 1, end);
    }
}

/// An attribute as it is written, without the space in front of it.
pub open spec fn attribute_text(a: AttributeModel) -> Seq<u16> {
    a.name + seq![0x3du16, 0x22u16] + escaped(a.value) + seq![0x22u16]
}

proof fn lemma_attribute(s: Seq<u16>, at: int, a: AttributeModel)
    requires
        is_name(a.name),
        stands(s, at, attribute_text(a)),
    ensures
        attribute_at(s, at) == Some((a, at + attribute_text(a).len())),
{
    let n = a.name.len() as int;
    let eq = seq![0x3du16, 0x22u16];
    let e = escaped(a.value);
    let q = seq![0x22u16];
    let m = e.len() as int;
    lemma_stands(s, at, a.name + eq + e, q);
    lemma_stands(s, at, a.name + eq, e);
    lemma_stands(s, at, a.name, eq);
    lemma_unit_of(s, at + n, eq, 0);
    lemma_unit_of(s, at + n, eq, 1);
    assert(s[at + n + 0] == 0x3d);
    assert(s[at + n + 1] == 0x22);
    lemma_name_end(s, at, a.name);
    let open = at + n + 1;
    let close = open + 1 + m;
    assert((a.name + eq).len() == n + 2);
    lemma_unit_of(s, close, q, 0);
    assert(s[close + 0] == 0x22);
    lemma_escaped_units(a.value);
    assert forall|i: int| open + 1 <= i < close implies #[trigger] s[i] != 0x22 && s[i] != 0x3c by {
        lemma_unit_of(s, open + 1, e, i - open - 1);
    }
    lemma_quote_end(s, open + 1, close);
    escaped_text_reads_back(a.value);
    assert(s.subrange(open + 1, close) =~= e);
    assert(space_end(s, at + n) == at + n);
    assert(space_end(s, open) == open);
}

/// Attributes as they are written, each behind a space.
pub open spec fn attributes_text(attributes: Seq<AttributeModel>) -> Seq<u16>
    decreases attributes.len(),
{
    if attributes.len() == 0 {
        Seq::empty()
    } else {
        seq![0x20u16] + attribute_text(attributes[0]) + attributes_text(attributes.skip(1))
    }
}

/// The end of a start tag.
pub open spec fn tag_close(self_closing: bool) -> Seq<u16> {
    if self_closing {
        seq![0x2fu16, 0x3eu16]
    } else {
        seq![0x3eu16]
    }
}

/// Whether attributes have names.
pub open spec fn attributes_ok(attributes: Seq<AttributeModel>) -> bool {
    forall|i: int| 0 <= i < attributes.len() ==> is_name((#[trigger] attributes[i]).name)
}

proof fn lemma_tag_rest(
    s: Seq<u16>,
    at: int,
    before: Seq<AttributeModel>,
    rest: Seq<AttributeModel>,
    self_closing: bool,
)
    requires
        attributes_ok(rest),
        names_differ(before + rest),
        stands(s, at, attributes_text(rest) + tag_close(self_closing)),
    ensures
        tag_rest(s, at, before) == Some(
            (
                before + rest,
                self_closing,
                at + attributes_text(rest).len() + tag_close(self_closing).len(),
            ),
        ),
    decreases rest.len(),
{
    let close = tag_close(self_closing);
    lemma_stands(s, at, attributes_text(rest), close);
    if rest.len() == 0 {
        assert(before + rest =~= before);
        lemma_unit_of(s, at, close, 0);
        assert(s[at + 0] == close[0]);
        assert(space_end(s, at) == at);
        if self_closing {
            lemma_unit_of(s, at, close, 1);
        }
    } else {
        let a = rest[0];
        let more = rest.skip(1);
        let gap = seq![0x20u16];
        assert(is_name(a.name));
        assert(attributes_text(rest) + close =~= gap + attribute_text(a) + (attributes_text(more)
            + close));
        lemma_stands(s, at, gap + attribute_text(a), attributes_text(more) + close);
        lemma_stands(s, at, gap, attribute_text(a));
        lemma_unit_of(s, at, gap, 0);
        assert(s[at + 0] == 0x20);
        lemma_unit_of(s, at + 1, attribute_text(a), 0);
        assert(attribute_text(a)[0] == a.name[0]);
        assert(s[at + 1 + 0] == a.name[0]);
        assert(starts_name(s[at + 1]));
        reveal_with_fuel(space_end, 3);
        assert(space_end(s, at) == at + 1);
        lemma_attribute(s, at + 1, a);
        let end = at + 1 + attribute_text(a).len();
        assert(before.push(a) + more =~= before + rest);
        assert forall|i: int| 0 <= i < more.len() implies is_name(
            (#[trigger] more[i]).name,
        ) by {
            assert(more[i] == rest[i + 1]);
        }
        lemma_tag_rest(s, end, before.push(a), more, self_closing);
    }
}

/// A start tag as it is written.
pub open spec fn tag_text(tag: TagModel) -> Seq<u16> {
    seq![0x3cu16] + tag.name + (attributes_text(tag.attributes) + tag_close(tag.self_closing))
}

/// Whether a tag can be written: it and its attributes have names, and no two attributes the same.
pub open spec fn tag_ok(tag: TagModel) -> bool {
    is_name(tag.name) && attributes_ok(tag.attributes) && names_differ(tag.attributes)
}

/// An end tag as it is written.
pub open spec fn end_text(name: Seq<u16>) -> Seq<u16> {
    seq![0x3cu16, 0x2fu16] + name + seq![0x3eu16]
}

/// A start tag that was written reads back, whatever stands behind it.
pub proof fn tags_read_back(s: Seq<u16>, at: int, tag: TagModel)
    requires
        tag_ok(tag),
        stands(s, at, tag_text(tag)),
    ensures
        start_tag(s, at) == Some((tag, at + tag_text(tag).len())),
        content_at(s, at) == Some((ContentModel::Start(tag), at + tag_text(tag).len())),
{
    let open = seq![0x3cu16];
    let n = tag.name.len() as int;
    let rest = attributes_text(tag.attributes) + tag_close(tag.self_closing);
    lemma_stands(s, at, open + tag.name, rest);
    lemma_stands(s, at, open, tag.name);
    lemma_unit_of(s, at, open, 0);
    assert(s[at + 0] == 0x3c);
    lemma_unit_of(s, at + 1, tag.name, 0);
    assert(s[at + 1 + 0] == tag.name[0]);
    lemma_unit_of(s, at + 1 + n, rest, 0);
    assert(s[at + 1 + n + 0] == rest[0]);
    assert(rest[0] == 0x20 || rest[0] == 0x2f || rest[0] == 0x3e) by {
        if tag.attributes.len() > 0 {
            assert(attributes_text(tag.attributes)[0] == 0x20);
        } else {
            assert(rest =~= tag_close(tag.self_closing));
        }
    }
    lemma_name_end(s, at + 1, tag.name);
    let none = Seq::<AttributeModel>::empty();
    assert(none + tag.attributes =~= tag.attributes);
    lemma_tag_rest(s, at + 1 + n, none, tag.attributes, tag.self_closing);
    lemma_markup(s, at);
}

/// Markup that starts with a name is no other markup.
pub(crate) proof fn lemma_markup(s: Seq<u16>, at: int)
    requires
        0 <= at,
        at + 1 < s.len(),
        s[at] == 0x3c,
    ensures
        first_unit(s, at, 0x3c) == Some(at),
        escaped_text_ok(s.subrange(at, at)),
        s[at + 1] != 0x21 ==> !occurs(s, at, "<!--"@) && !occurs(s, at, "<![CDATA["@) && !occurs(
            s,
            at,
            "<!"@,
        ),
        s[at + 1] != 0x3f ==> !occurs(s, at, "<?"@),
        s[at + 1] != 0x2f ==> !occurs(s, at, "</"@),
        s[at + 1] == 0x2f ==> occurs(s, at, "</"@),
{
    reveal_strlit("<!--");
    reveal_strlit("<![CDATA[");
    reveal_strlit("<!");
    reveal_strlit("<?");
    reveal_strlit("</");
    let nothing = s.subrange(at, at);
    assert(nothing =~= escaped(Seq::empty()));
    escaped_text_reads_back(Seq::empty());
    if occurs(s, at, "<!--"@) {
        assert(s.subrange(at, at + 4)[1] == s[at + 1]);
        assert(s.subrange(at, at + 4)[1] as int == "<!--"@[1] as int);
    }
    if occurs(s, at, "<![CDATA["@) {
        assert(s.subrange(at, at + 9)[1] == s[at + 1]);
        assert(s.subrange(at, at + 9)[1] as int == "<![CDATA["@[1] as int);
    }
    if occurs(s, at, "<!"@) {
        assert(s.subrange(at, at + 2)[1] == s[at + 1]);
        assert(s.subrange(at, at + 2)[1] as int == "<!"@[1] as int);
    }
    if occurs(s, at, "<?"@) {
        assert(s.subrange(at, at + 2)[1] == s[at + 1]);
        assert(s.subrange(at, at + 2)[1] as int == "<?"@[1] as int);
    }
    if occurs(s, at, "</"@) {
        assert(s.subrange(at, at + 2)[1] == s[at + 1]);
        assert(s.subrange(at, at + 2)[1] as int == "</"@[1] as int);
    }
    if s[at + 1] == 0x2f {
        let part = s.subrange(at, at + 2);
        assert(part[0] == s[at] && part[1] == s[at + 1]);
        assert forall|i: int| 0 <= i < part.len() implies part[i] as int
            == #[trigger] "</"@[i] as int by {
            assert(i == 0 || i == 1);
        }
    }
}

/// An end tag that was written reads back, whatever stands behind it.
pub proof fn end_tags_read_back(s: Seq<u16>, at: int, name: Seq<u16>)
    requires
        is_name(name),
        stands(s, at, end_text(name)),
    ensures
        content_at(s, at) == Some((ContentModel::End(name), at + end_text(name).len())),
{
    let open = seq![0x3cu16, 0x2fu16];
    let close = seq![0x3eu16];
    let n = name.len() as int;
    lemma_stands(s, at, open + name, close);
    lemma_stands(s, at, open, name);
    lemma_unit_of(s, at, open, 0);
    lemma_unit_of(s, at, open, 1);
    assert(s[at + 0] == 0x3c);
    assert(s[at + 1] == 0x2f);
    assert((open + name).len() == 2 + n);
    lemma_unit_of(s, at + 2 + n, close, 0);
    assert(s[at + 2 + n + 0] == 0x3e);
    lemma_name_end(s, at + 2, name);
    assert(space_end(s, at + 2 + n) == at + 2 + n);
    assert(end_tag(s, at) == Some((name, at + 2 + n + 1)));
    lemma_markup(s, at);
}

/// Whether a text is an ASCII word.
pub open spec fn is_word(text: Seq<char>) -> bool {
    &&& text.len() > 0
    &&& forall|i: int|
        0 <= i < text.len() ==> ('a' <= #[trigger] text[i] <= 'z' || 'A' <= text[i] <= 'Z')
}

/// A word is a name without a prefix, and spells itself alone.
pub proof fn words_are_names(a: Seq<char>, b: Seq<char>)
    requires
        is_word(a),
    ensures
        is_name(units(a)),
        local_part(units(a)) == units(a),
        spells(units(a), b) <==> a == b,
{
    let w = units(a);
    assert forall|i: int| 0 <= i < w.len() implies continues_name(#[trigger] w[i]) && starts_name(
        w[i],
    ) && w[i] != 0x3a && w[i] as int == a[i] as int by {
        assert('a' <= a[i] <= 'z' || 'A' <= a[i] <= 'Z');
    }
    assert(w[0] == units(a)[0]);
    assert(continues_name(w[0]));
    lemma_no_colon(w);
    assert(local_part(w) =~= w);
    if spells(w, b) {
        assert forall|i: int| 0 <= i < a.len() implies a[i] == b[i] by {
            assert(w[i] as int == b[i] as int);
            assert(continues_name(w[i]));
        }
        assert(a =~= b);
    }
    if a == b {
        assert forall|i: int| 0 <= i < w.len() implies w[i] as int == #[trigger] b[i] as int by {
            assert(continues_name(w[i]));
        }
    }
}

proof fn lemma_no_colon(w: Seq<u16>)
    requires
        forall|i: int| 0 <= i < w.len() ==> #[trigger] w[i] != 0x3a,
    ensures
        last_colon(w) == -1,
    decreases w.len(),
{
    if w.len() > 0 {
        assert(w[w.len() - 1] != 0x3a);
        lemma_no_colon(w.drop_last());
    }
}

} // verus!
