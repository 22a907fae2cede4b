//! Which namespaces are known, and which setting is found.

use vstd::prelude::*;

use super::{first_setting, known_namespace, setting_matches};
use crate::activation_manifest::wide;
use crate::activation_manifest::xml::spells;
use crate::activation_manifest::ManifestApplicationSetting;
use crate::utf16::lemma_char;

verus! {

/// A namespace of a year.
pub open spec fn namespace_of(year: Seq<char>) -> Seq<char> {
    "http://schemas.microsoft.com/SMI/"@ + year + "/WindowsSettings"@
}

proof fn lemma_namespaces()
    ensures
        namespace_of("2005"@) == "http://schemas.microsoft.com/SMI/2005/WindowsSettings"@,
        namespace_of("2011"@) == "http://schemas.microsoft.com/SMI/2011/WindowsSettings"@,
        namespace_of("2016"@) == "http://schemas.microsoft.com/SMI/2016/WindowsSettings"@,
        namespace_of("2017"@) == "http://schemas.microsoft.com/SMI/2017/WindowsSettings"@,
        namespace_of("2019"@) == "http://schemas.microsoft.com/SMI/2019/WindowsSettings"@,
        namespace_of("2020"@) == "http://schemas.microsoft.com/SMI/2020/WindowsSettings"@,
{
    reveal_strlit("http://schemas.microsoft.com/SMI/");
    reveal_strlit("/WindowsSettings");
    assert(namespace_of("2005"@) =~= "http://schemas.microsoft.com/SMI/2005/WindowsSettings"@) by {
        reveal_strlit("2005");
        reveal_strlit("http://schemas.microsoft.com/SMI/2005/WindowsSettings");
    }
    assert(namespace_of("2011"@) =~= "http://schemas.microsoft.com/SMI/2011/WindowsSettings"@) by {
        reveal_strlit("2011");
        reveal_strlit("http://schemas.microsoft.com/SMI/2011/WindowsSettings");
    }
    assert(namespace_of("2016"@) =~= "http://schemas.microsoft.com/SMI/2016/WindowsSettings"@) by {
        reveal_strlit("2016");
        reveal_strlit("http://schemas.microsoft.com/SMI/2016/WindowsSettings");
    }
    assert(namespace_of("2017"@) =~= "http://schemas.microsoft.com/SMI/2017/WindowsSettings"@) by {
        reveal_strlit("2017");
        reveal_strlit("http://schemas.microsoft.com/SMI/2017/WindowsSettings");
    }
    assert(namespace_of("2019"@) =~= "http://schemas.microsoft.com/SMI/2019/WindowsSettings"@) by {
        reveal_strlit("2019");
        reveal_strlit("http://schemas.microsoft.com/SMI/2019/WindowsSettings");
    }
    assert(namespace_of("2020"@) =~= "http://schemas.microsoft.com/SMI/2020/WindowsSettings"@) by {
        reveal_strlit("2020");
        reveal_strlit("http://schemas.microsoft.com/SMI/2020/WindowsSettings");
    }
}

proof fn lemma_spells(text: Seq<char>, w: Seq<u16>)
    requires
        forall|i: int| 0 <= i < text.len() ==> (#[trigger] text[i] as int) < 0x1_0000,
    ensures
        spells(w, text) <==> w == wide(text),
{
    if spells(w, text) {
        assert forall|i: int| 0 <= i < w.len() implies w[i] == wide(text)[i] by {
            assert(w[i] as int == text[i] as int);
        }
        assert(w =~= wide(text));
    }
    if w == wide(text) {
        assert forall|i: int| 0 <= i < w.len() implies w[i] as int == #[trigger] text[i] as int by {
            let c = text[i];
            assert((c as int) < 0x1_0000);
            lemma_char(c);
            assert(wide(text)[i] == c as u16);
        }
    }
}

/// The years that there are namespaces of.
pub open spec fn years() -> Seq<Seq<char>> {
    seq!["2005"@, "2011"@, "2016"@, "2017"@, "2019"@, "2020"@]
}

proof fn lemma_plain(k: int)
    requires
        0 <= k < 6,
    ensures
        forall|i: int|
            0 <= i < namespace_of(years()[k]).len() ==> (#[trigger] namespace_of(
                years()[k],
            )[i] as int) < 0x1_0000,
{
    reveal_strlit("http://schemas.microsoft.com/SMI/");
    reveal_strlit("/WindowsSettings");
    reveal_strlit("2005");
    reveal_strlit("2011");
    reveal_strlit("2016");
    reveal_strlit("2017");
    reveal_strlit("2019");
    reveal_strlit("2020");
    let year = years()[k];
    assert(year == "2005"@ || year == "2011"@ || year == "2016"@ || year == "2017"@ || year
        == "2019"@ || year == "2020"@);
    let text = namespace_of(year);
    let (n, m) = ("http://schemas.microsoft.com/SMI/"@.len(), year.len());
    assert forall|i: int| 0 <= i < text.len() implies (#[trigger] text[i] as int) < 0x1_0000 by {
        if i < n {
            assert(text[i] == "http://schemas.microsoft.com/SMI/"@[i]);
        } else if i < n + m {
            assert(text[i] == year[i - n]);
        } else {
            assert(text[i] == "/WindowsSettings"@[i - n - m]);
        }
    }
}

/// A namespace is known just where it is that of one of these years.
pub proof fn namespaces_are_those_of_years(namespace: Seq<u16>)
    ensures
        known_namespace(namespace) <==> exists|k: int|
            0 <= k < 6 && namespace == wide(namespace_of(#[trigger] years()[k])),
{
    lemma_namespaces();
    assert forall|k: int| 0 <= k < 6 implies (spells(
        namespace,
        namespace_of(#[trigger] years()[k]),
    ) <==> namespace == wide(namespace_of(years()[k]))) by {
        lemma_plain(k);
        lemma_spells(namespace_of(years()[k]), namespace);
    }
    assert(years()[0] == "2005"@ && years()[1] == "2011"@ && years()[2] == "2016"@ && years()[3]
        == "2017"@ && years()[4] == "2019"@ && years()[5] == "2020"@);
}

/// The first setting that has the name and the namespace is found; without a namespace, that of the
/// first year is meant.
pub proof fn first_settings_are_found(
    settings: Seq<ManifestApplicationSetting>,
    namespace: Option<&[u16]>,
    name: Seq<u16>,
    i: int,
)
    requires
        0 <= i <= settings.len(),
    ensures
        match first_setting(settings, namespace, name, i) {
            Some(k) => {
                &&& i <= k < settings.len()
                &&& settings[k].name@ == name
                &&& namespace is Some ==> settings[k].namespace@ == namespace->Some_0@
                &&& namespace is None ==> settings[k].namespace@ == wide(namespace_of("2005"@))
                &&& forall|j: int|
                    i <= j < k ==> !setting_matches(#[trigger] settings[j], namespace, name)
            },
            None => forall|j: int|
                i <= j < settings.len() ==> !setting_matches(
                    #[trigger] settings[j],
                    namespace,
                    name,
                ),
        },
    decreases settings.len() - i,
{
    lemma_namespaces();
    lemma_plain(0);
    if i < settings.len() {
        if setting_matches(settings[i], namespace, name) {
            assert(years()[0] == "2005"@);
            lemma_spells(namespace_of("2005"@), settings[i].namespace@);
        } else {
            first_settings_are_found(settings, namespace, name, i + 1);
        }
    }
}

} // verus!
