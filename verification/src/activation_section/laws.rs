//! Where the parts of built sections stand.

use vstd::prelude::*;

use super::clr::{
    built_surrogate_section_reads_back, surrogate_build, surrogate_entry_ok,
    surrogate_entry_reads_as, surrogate_section, SurrogateEntry,
};
use super::dll::{
    built_dll_section_reads_back, dll_build, dll_entry_ok, dll_entry_reads_as, dll_section,
    path_flags, DllEntry,
};
use super::window::{
    built_class_section_reads_back, class_build, class_entry_ok, class_entry_reads_as,
    class_redirected, class_section, ClassEntry,
};
use crate::activation_manifest::wide;
use crate::bytes::{le32, wide_at};
use crate::decimal::decimal;
use crate::strings::{upcase_all, x65599};

verus! {

/// The units of a text in a section, given where four bytes tell its place and where four bytes tell
/// its length in bytes.
pub open spec fn text_told(s: Seq<u8>, place: int, length: int) -> Seq<u16> {
    wide_at(s, le32(s, place) as int, le32(s, length) as int / 2)
}

/// A section of redirected files starts with `SsHd`, the size of its header, the number of its rows
/// at 20, and where they start at 24. A row of 24 bytes holds the hash of a name, where the name is,
/// its length, where the redirection is, and the place of the assembly. The redirection holds its
/// flags at 4, the number of its parts at 12, and where their lengths and places are at 16.
pub proof fn file_sections_have_their_layout(assemblies: int, es: Seq<DllEntry>, k: int)
    requires
        dll_build(assemblies, es) is Ok,
        forall|i: int| 0 <= i < es.len() ==> 1 <= (#[trigger] es[i]).roster <= assemblies,
        0 <= k < es.len(),
    ensures
        ({
            let s = dll_section(es);
            let row = 44 + 24 * k;
            let data = le32(s, row + 12) as int;
            let parts = le32(s, data + 16) as int;
            &&& le32(s, 0) == 0x6448_7353
            &&& le32(s, 4) == 44
            &&& le32(s, 20) == es.len()
            &&& le32(s, 24) == 44
            &&& le32(s, row) == x65599(upcase_all(es[k].name))
            &&& upcase_all(text_told(s, row + 4, row + 8)) == upcase_all(es[k].name)
            &&& le32(s, row + 20) == es[k].roster
            &&& es[k].path is None ==> le32(s, data + 4) == 2 && le32(s, data + 12) == 0
            &&& es[k].path matches Some(path) ==> le32(s, data + 4) == path_flags(path) && le32(
                s,
                data + 12,
            ) == 1 && text_told(s, parts + 4, parts) == path
        }),
{
    built_dll_section_reads_back(assemblies, es);
    let s = dll_section(es);
    assert(dll_entry_ok(s, k));
    assert(dll_entry_reads_as(s, k, es[k]));
}

/// A path that does not end with a separator holds the name of the file, which bit zero tells, and one
/// with a percent sign is to be expanded, which bit two tells.
pub proof fn paths_have_flags(path: Seq<u16>)
    ensures
        path_flags(path) % 2 == 1 <==> path.len() > 0 && path.last() != 0x5c && path.last() != 0x2f,
        path_flags(path) / 4 == 1 <==> path.contains(0x25),
        path_flags(path) / 2 % 2 == 0,
        path_flags(path) < 8,
{
}

/// A section of window classes has the same header and rows. The data of a class hold the length of
/// its registered name at 8, with the name 24 bytes behind their start, the length of its module at
/// 16, and where the module is at 20.
pub proof fn class_sections_have_their_layout(assemblies: int, es: Seq<ClassEntry>, k: int)
    requires
        class_build(assemblies, es) is Ok,
        forall|i: int|
            0 <= i < es.len() ==> 1 <= (#[trigger] es[i]).roster <= assemblies
                && es[i].version.len() == 4,
        0 <= k < es.len(),
    ensures
        ({
            let s = class_section(es);
            let row = 44 + 24 * k;
            let data = le32(s, row + 12) as int;
            &&& le32(s, 0) == 0x6448_7353
            &&& le32(s, 4) == 44
            &&& le32(s, 20) == es.len()
            &&& le32(s, 24) == 44
            &&& le32(s, row) == x65599(upcase_all(es[k].name))
            &&& upcase_all(text_told(s, row + 4, row + 8)) == upcase_all(es[k].name)
            &&& le32(s, row + 20) == es[k].roster
            &&& wide_at(s, data + 24, le32(s, data + 8) as int / 2) == class_redirected(es[k])
            &&& es[k].module == Some(text_told(s, data + 20, data + 16))
        }),
{
    built_class_section_reads_back(assemblies, es);
    let s = class_section(es);
    assert(class_entry_ok(s, assemblies, k));
    assert(class_entry_reads_as(s, k, es[k]));
}

/// A class is registered under its name, or, where it is versioned, behind the version of its assembly
/// and an exclamation mark.
pub proof fn versioned_classes_are_registered_with_their_version(e: ClassEntry)
    ensures
        !e.versioned ==> class_redirected(e) == e.name,
        e.versioned ==> class_redirected(e) == decimal(e.version[0] as int) + wide("."@) + decimal(
            e.version[1] as int,
        ) + wide("."@) + decimal(e.version[2] as int) + wide("."@) + decimal(e.version[3] as int)
            + wide("!"@) + e.name,
{
    reveal_strlit(".");
    reveal_strlit("!");
    assert(wide("."@) =~= seq![0x2eu16]);
    assert(wide("!"@) =~= seq![0x21u16]);
}

/// A section of surrogates starts with `GsHd`, the size of its header, the number of its rows at 20,
/// and where they start at 24. A row of 28 bytes holds an identifier, where the surrogate is, and the
/// place of the assembly at 24. The surrogate holds the length of its version at 28, with the version
/// 40 bytes behind its start, where its name is at 32, and the length of that at 36.
pub proof fn surrogate_sections_have_their_layout(
    assemblies: int,
    es: Seq<SurrogateEntry>,
    k: int,
)
    requires
        surrogate_build(assemblies, es) is Ok,
        forall|i: int|
            0 <= i < es.len() ==> 1 <= (#[trigger] es[i]).roster <= assemblies
                && es[i].clsid.len() == 16,
        0 <= k < es.len(),
    ensures
        ({
            let s = surrogate_section(es);
            let row = 40 + 28 * k;
            let data = le32(s, row + 16) as int;
            &&& le32(s, 0) == 0x6448_7347
            &&& le32(s, 4) == 40
            &&& le32(s, 20) == es.len()
            &&& le32(s, 24) == 40
            &&& s.subrange(row, row + 16) == es[k].clsid
            &&& le32(s, row + 24) == es[k].roster
            &&& wide_at(s, data + 40, le32(s, data + 28) as int / 2) == (match es[k].version {
                Some(version) => version,
                None => Seq::empty(),
            })
            &&& wide_at(s, data + le32(s, data + 32), le32(s, data + 36) as int / 2) == es[k].name
        }),
{
    built_surrogate_section_reads_back(assemblies, es, es[k].clsid);
    let s = surrogate_section(es);
    assert(surrogate_entry_ok(s, k));
    assert(surrogate_entry_reads_as(s, k, es[k]));
}

} // verus!
