//! Names and paths of files that an activation context redirects.

use vstd::prelude::*;

use crate::activation_manifest::{extend_ascii, texts, wide};
use crate::activation_section::dll::{has_flag, DllRedirectionData};
use crate::activation_section::{
    DLL_REDIRECTION_PATH_INCLUDES_BASE_NAME, DLL_REDIRECTION_PATH_OMITS_ASSEMBLY_ROOT,
    DLL_REDIRECTION_PATH_SYSTEM_DEFAULT_REDIRECTED_SYSTEM32_DLL,
};
use crate::bytes::{copy_units, has_unit, push_units};
use crate::strings::{equal_unicode_string, fold_case};
use crate::NtStatus;

pub mod laws;

verus! {

pub const RTL_DOS_APPLY_FILE_REDIRECTION_USTR_FLAG_RESPECT_DOT_LOCAL: u32 = 0x01;

pub const RTL_DOS_APPLY_FILE_REDIRECTION_USTR_OUTFLAG_DOT_LOCAL_REDIRECT: u32 = 0x01;

pub const RTL_DOS_APPLY_FILE_REDIRECTION_USTR_OUTFLAG_ACTCTX_REDIRECT: u32 = 0x02;

pub const STATUS_INVALID_PARAMETER: NtStatus = 0xC000_000D;

pub const STATUS_NO_MEMORY: NtStatus = 0xC000_0017;

pub const STATUS_BUFFER_TOO_SMALL: NtStatus = 0xC000_0023;

pub const STATUS_NAME_TOO_LONG: NtStatus = 0xC000_0106;

pub const STATUS_SXS_KEY_NOT_FOUND: NtStatus = 0xC015_0008;

/// The most code units that a counted name can have.
pub const MAX_NAME_UNITS: usize = 0x7fff;

/// A name that is ready to be looked up.
#[derive(Clone, Debug, PartialEq, Eq)]
pub struct PreparedIsolationName {
    pub lookup_name: Vec<u16>,
    pub path_is_relative: bool,
    pub actctx_lookup_allowed: bool,
}

/// Where a path is put.
#[derive(Clone, Copy, Debug, PartialEq, Eq, Structural)]
pub enum OutputSelection {
    Static,
    Dynamic,
    ExistenceOnly,
}

/// Whether a code unit separates the parts of a path.
pub open spec fn separates(unit: u16) -> bool {
    unit == 0x5c || unit == 0x2f
}

/// How many code units stand before the file part of a path.
pub open spec fn prefix_len(path: Seq<u16>) -> int
    decreases path.len(),
{
    if path.len() == 0 {
        0
    } else if separates(path.last()) {
        path.len() as int
    } else {
        prefix_len(path.drop_last())
    }
}

/// The file part of a path.
pub open spec fn leaf(path: Seq<u16>) -> Seq<u16> {
    path.skip(prefix_len(path))
}

/// A path without the separators at its end.
pub open spec fn trimmed(path: Seq<u16>) -> Seq<u16>
    decreases path.len(),
{
    if path.len() > 0 && separates(path.last()) {
        trimmed(path.drop_last())
    } else {
        path
    }
}

/// Whether a path starts at a root or a drive.
pub open spec fn is_absolute(path: Seq<u16>) -> bool {
    (path.len() > 0 && separates(path[0])) || (path.len() >= 2 && path[1] == 0x3a)
}

/// The extension that is added to a name: none where the file part has a dot.
pub open spec fn added_extension(original: Seq<u16>, extension: Option<Seq<u16>>) -> Seq<u16> {
    match extension {
        Some(e) => if leaf(original).contains(0x2e) {
            Seq::empty()
        } else {
            e
        },
        None => Seq::empty(),
    }
}

/// What an extension that may be absent is.
pub open spec fn extension_text(extension: Option<&[u16]>) -> Option<Seq<u16>> {
    match extension {
        Some(e) => Some(e@),
        None => None,
    }
}

/// Why a name cannot be looked up, if it cannot.
pub open spec fn isolation_error(
    flags: u32,
    original: Seq<u16>,
    extension: Option<Seq<u16>>,
) -> Option<NtStatus> {
    let added = added_extension(original, extension);
    if flags > RTL_DOS_APPLY_FILE_REDIRECTION_USTR_FLAG_RESPECT_DOT_LOCAL {
        Some(STATUS_INVALID_PARAMETER)
    } else if original.len() == 0 {
        Some(STATUS_SXS_KEY_NOT_FOUND)
    } else if added.len() > 0 && original.len() + added.len() + 1 > MAX_NAME_UNITS {
        Some(STATUS_NAME_TOO_LONG)
    } else {
        None
    }
}

/// The file part of a path has no separator, and stands behind the last one.
pub proof fn file_part_is_bare(path: Seq<u16>)
    ensures
        0 <= prefix_len(path) <= path.len(),
        path.take(prefix_len(path)) + leaf(path) == path,
        forall|i: int| 0 <= i < leaf(path).len() ==> !separates(#[trigger] leaf(path)[i]),
        prefix_len(path) > 0 ==> separates(path[prefix_len(path) - 1]),
    decreases path.len(),
{
    if path.len() > 0 && !separates(path.last()) {
        let front = path.drop_last();
        file_part_is_bare(front);
        assert forall|i: int| 0 <= i < leaf(path).len() implies !separates(
            #[trigger] leaf(path)[i],
        ) by {
            if i < leaf(front).len() {
                assert(leaf(path)[i] == leaf(front)[i]);
            } else {
                assert(leaf(path)[i] == path.last());
            }
        }
    }
    assert(path.take(prefix_len(path)) + leaf(path) =~= path);
}

fn is_separator(unit: u16) -> (yes: bool)
    ensures
        yes == separates(unit),
{
    unit == 0x5c || unit == 0x2f
}

/// How many code units stand before the file part of a path.
pub fn file_part_prefix_cch(path: &[u16]) -> (count: usize)
    ensures
        count == prefix_len(path@),
        count <= path@.len(),
{
    let mut end: usize = path.len();
    assert(path@.take(end as int) =~= path@);
    while end > 0
        invariant
            end <= path@.len(),
            prefix_len(path@) == prefix_len(path@.take(end as int)),
        decreases end,
    {
        let ghost part = path@.take(end as int);
        assert(part.last() == path@[end - 1]);
        assert(part.drop_last() =~= path@.take(end - 1));
        if is_separator(path[end - 1]) {
            return end;
        }
        end -= 1;
    }
    0
}

/// A path without the separators at its end.
fn trim_trailing_separators(value: &[u16]) -> (r: &[u16])
    ensures
        r@ == trimmed(value@),
{
    let mut end: usize = value.len();
    assert(value@.take(end as int) =~= value@);
    while end > 0 && is_separator(value[end - 1])
        invariant
            end <= value@.len(),
            trimmed(value@) == trimmed(value@.take(end as int)),
        decreases end,
    {
        let ghost part = value@.take(end as int);
        assert(part.drop_last() =~= value@.take(end - 1));
        end -= 1;
    }
    let r = vstd::slice::slice_subrange(value, 0, end);
    assert(r@ =~= value@.take(end as int));
    r
}

fn is_relative_dos_path(path: &[u16]) -> (yes: bool)
    ensures
        yes == !is_absolute(path@),
{
    !((path.len() > 0 && is_separator(path[0])) || (path.len() >= 2 && path[1] == 0x3a))
}

/// Get a name ready to be looked up: its file part, with an extension if it has none.
pub fn prepare_isolation_name(flags: u32, original: &[u16], extension: Option<&[u16]>) -> (r: Result<
    PreparedIsolationName,
    NtStatus,
>)
    ensures
        match isolation_error(flags, original@, extension_text(extension)) {
            Some(e) => r == Err::<PreparedIsolationName, NtStatus>(e),
            None => {
                let added = added_extension(original@, extension_text(extension));
                &&& r is Ok
                &&& r->Ok_0.lookup_name@ == leaf(original@) + added
                &&& r->Ok_0.path_is_relative == !is_absolute(original@)
                &&& r->Ok_0.actctx_lookup_allowed == (leaf(original@).contains(0x2e) || added.len()
                    > 0)
            },
        },
{
    if flags > RTL_DOS_APPLY_FILE_REDIRECTION_USTR_FLAG_RESPECT_DOT_LOCAL {
        return Err(STATUS_INVALID_PARAMETER);
    }
    if original.len() == 0 {
        return Err(STATUS_SXS_KEY_NOT_FOUND);
    }
    let start: usize = file_part_prefix_cch(original);
    let part = vstd::slice::slice_subrange(original, start, original.len());
    assert(part@ =~= leaf(original@));
    let has_extension: bool = has_unit(part, 0x2e);
    let mut lookup_name: Vec<u16> = copy_units(part);
    let mut extended: bool = false;
    assert(leaf(original@) =~= leaf(original@) + Seq::empty());
    match extension {
        Some(extension) => {
            if !has_extension && extension.len() > 0 {
                if original.len() > MAX_NAME_UNITS || extension.len() > MAX_NAME_UNITS
                    || original.len() + extension.len() + 1 > MAX_NAME_UNITS {
                    return Err(STATUS_NAME_TOO_LONG);
                }
                push_units(&mut lookup_name, extension);
                extended = true;
            } else {
                assert(added_extension(original@, Some(extension@)) =~= Seq::empty());
            }
        },
        None => {},
    }
    Ok(
        PreparedIsolationName {
            lookup_name,
            path_is_relative: is_relative_dos_path(original),
            actctx_lookup_allowed: has_extension || extended,
        },
    )
}

/// The directory of the system under a root.
pub open spec fn system32_of(system_root: Seq<u16>) -> Seq<u16> {
    trimmed(system_root) + wide("\\System32"@)
}

/// Whether two texts are equal when case does not count.
pub open spec fn equal_ci(a: Seq<u16>, b: Seq<u16>) -> bool {
    fold_case(a, true) == fold_case(b, true)
}

/// Whether a path names a file right in the directory of the system.
pub fn absolute_path_is_system32(original: &[u16], system_root: &[u16]) -> (yes: bool)
    ensures
        yes == (prefix_len(original@) > 0 && equal_ci(
            trimmed(original@.take(prefix_len(original@) - 1)),
            system32_of(system_root@),
        )),
{
    let start: usize = file_part_prefix_cch(original);
    if start == 0 {
        return false;
    }
    let directory = vstd::slice::slice_subrange(original, 0, start - 1);
    assert(directory@ =~= original@.take(start - 1));
    let parent = trim_trailing_separators(directory);
    let mut expected: Vec<u16> = copy_units(trim_trailing_separators(system_root));
    proof {
        reveal_strlit("\\System32");
    }
    extend_ascii(&mut expected, "\\System32");
    equal_unicode_string(parent, expected.as_slice(), true)
}

/// Whether a redirection applies to a path.
pub fn redirection_applies_to_path(flags: u32, path_is_relative: bool) -> (applies: bool)
    ensures
        applies == (path_is_relative || has_flag(
            flags,
            DLL_REDIRECTION_PATH_SYSTEM_DEFAULT_REDIRECTED_SYSTEM32_DLL,
        )),
{
    path_is_relative || flags / DLL_REDIRECTION_PATH_SYSTEM_DEFAULT_REDIRECTED_SYSTEM32_DLL % 2 == 1
}

/// The root that a redirection leaves out: for an assembly of the shared store its directory there,
/// for another one the directory of its manifest.
pub open spec fn root_of(
    source: Seq<u16>,
    assembly_directory: Seq<u16>,
    system_root: Seq<u16>,
) -> Seq<u16> {
    if assembly_directory.len() > 0 && equal_ci(
        leaf(source),
        assembly_directory + wide(".manifest"@),
    ) {
        trimmed(system_root) + wide("\\winsxs\\"@) + assembly_directory + seq![0x5cu16]
    } else {
        source.take(prefix_len(source))
    }
}

/// Texts one behind the other.
pub open spec fn joined(parts: Seq<Seq<u16>>) -> Seq<u16>
    decreases parts.len(),
{
    if parts.len() == 0 {
        Seq::empty()
    } else {
        joined(parts.drop_last()) + parts.last()
    }
}

/// The path that a redirection leads to.
pub open spec fn redirected(
    flags: u32,
    segments: Seq<Seq<u16>>,
    source: Seq<u16>,
    assembly_directory: Seq<u16>,
    system_root: Seq<u16>,
    lookup_name: Seq<u16>,
) -> Seq<u16> {
    let root = if has_flag(flags, DLL_REDIRECTION_PATH_OMITS_ASSEMBLY_ROOT) {
        root_of(source, assembly_directory, system_root)
    } else {
        Seq::empty()
    };
    let base = if has_flag(flags, DLL_REDIRECTION_PATH_INCLUDES_BASE_NAME) {
        Seq::empty()
    } else {
        lookup_name
    };
    root + joined(segments) + base
}

fn redirection_root(source: &[u16], assembly_directory: &[u16], system_root: &[u16]) -> (root: Vec<
    u16,
>)
    ensures
        root@ == root_of(source@, assembly_directory@, system_root@),
{
    let start: usize = file_part_prefix_cch(source);
    let source_leaf = vstd::slice::slice_subrange(source, start, source.len());
    assert(source_leaf@ =~= leaf(source@));
    proof {
        reveal_strlit(".manifest");
        reveal_strlit("\\winsxs\\");
    }
    let mut global_leaf: Vec<u16> = copy_units(assembly_directory);
    extend_ascii(&mut global_leaf, ".manifest");
    if assembly_directory.len() > 0 && equal_unicode_string(
        source_leaf,
        global_leaf.as_slice(),
        true,
    ) {
        let mut root: Vec<u16> = copy_units(trim_trailing_separators(system_root));
        extend_ascii(&mut root, "\\winsxs\\");
        push_units(&mut root, assembly_directory);
        root.push(0x5c);
        assert(root@ =~= trimmed(system_root@) + wide("\\winsxs\\"@) + assembly_directory@
            + seq![0x5cu16]);
        root
    } else {
        let parent = vstd::slice::slice_subrange(source, 0, start);
        assert(parent@ =~= source@.take(start as int));
        copy_units(parent)
    }
}

/// Put together the path that a redirection leads to.
pub fn compose_redirected_path(
    redirection: &DllRedirectionData,
    source: &[u16],
    assembly_directory: &[u16],
    system_root: &[u16],
    lookup_name: &[u16],
) -> (r: Result<Vec<u16>, NtStatus>)
    ensures
        r is Ok,
        r->Ok_0@ == redirected(
            redirection.flags,
            texts(redirection.path_segments@),
            source@,
            assembly_directory@,
            system_root@,
            lookup_name@,
        ),
{
    let mut output: Vec<u16> = if redirection.flags / DLL_REDIRECTION_PATH_OMITS_ASSEMBLY_ROOT % 2
        == 1 {
        redirection_root(source, assembly_directory, system_root)
    } else {
        Vec::new()
    };
    let ghost root = output@;
    let ghost parts = texts(redirection.path_segments@);
    let mut i: usize = 0;
    assert(parts.take(0) =~= Seq::<Seq<u16>>::empty());
    assert(output@ =~= root + joined(parts.take(0)));
    while i < redirection.path_segments.len()
        invariant
            i <= redirection.path_segments@.len(),
            parts == texts(redirection.path_segments@),
            output@ == root + joined(parts.take(i as int)),
        decreases redirection.path_segments@.len() - i,
    {
        push_units(&mut output, redirection.path_segments[i].as_slice());
        proof {
            assert(parts.take(i + 1).drop_last() =~= parts.take(i as int));
            assert(parts.take(i + 1).last() == redirection.path_segments@[i as int]@);
            assert(output@ =~= root + joined(parts.take(i + 1)));
        }
        i += 1;
    }
    assert(parts.take(i as int) =~= parts);
    if redirection.flags / DLL_REDIRECTION_PATH_INCLUDES_BASE_NAME % 2 == 0 {
        push_units(&mut output, lookup_name);
    }
    assert(output@ =~= redirected(
        redirection.flags,
        parts,
        source@,
        assembly_directory@,
        system_root@,
        lookup_name@,
    ));
    Ok(output)
}

/// Choose where a path of `path_units` code units goes, and say how many bytes it takes with its
/// terminator.
pub fn select_output(
    path_units: usize,
    static_capacity_bytes: Option<usize>,
    dynamic_allowed: bool,
    file_part_requested: bool,
) -> (r: Result<(OutputSelection, usize), NtStatus>)
    ensures
        r == {
            let required = 2 * (path_units + 1);
            if required > usize::MAX {
                Err::<(OutputSelection, usize), NtStatus>(STATUS_NO_MEMORY)
            } else if static_capacity_bytes is Some && static_capacity_bytes->Some_0 >= required {
                Ok((OutputSelection::Static, required as usize))
            } else if dynamic_allowed {
                Ok((OutputSelection::Dynamic, required as usize))
            } else if static_capacity_bytes is None && !file_part_requested {
                Ok((OutputSelection::ExistenceOnly, required as usize))
            } else {
                Err(STATUS_BUFFER_TOO_SMALL)
            }
        },
{
    if path_units > usize::MAX / 2 - 1 {
        return Err(STATUS_NO_MEMORY);
    }
    let required: usize = 2 * (path_units + 1);
    match static_capacity_bytes {
        Some(capacity) => {
            if capacity >= required {
                return Ok((OutputSelection::Static, required));
            }
        },
        None => {},
    }
    if dynamic_allowed {
        return Ok((OutputSelection::Dynamic, required));
    }
    if static_capacity_bytes.is_none() && !file_part_requested {
        return Ok((OutputSelection::ExistenceOnly, required));
    }
    Err(STATUS_BUFFER_TOO_SMALL)
}

} // verus!
