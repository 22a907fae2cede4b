//! What the parts of paths are, and where redirections lead.

use vstd::prelude::*;

use super::{
    added_extension, is_absolute, isolation_error, joined, leaf, prefix_len, redirected, root_of,
    separates, system32_of, trimmed,
};
use crate::activation_manifest::wide;
use crate::activation_section::dll::has_flag;

verus! {

/// Whether a text has neither slashes nor backslashes.
pub open spec fn bare(text: Seq<u16>) -> bool {
    !text.contains(0x5c) && !text.contains(0x2f)
}

proof fn lemma_prefix(directory: Seq<u16>, file: Seq<u16>)
    requires
        bare(file),
        directory.len() > 0 ==> directory.last() == 0x5c || directory.last() == 0x2f,
    ensures
        prefix_len(directory + file) == directory.len(),
    decreases file.len(),
{
    let path = directory + file;
    if file.len() > 0 {
        let front = file.drop_last();
        assert(path.last() == file.last());
        assert(file.contains(file.last()));
        assert(bare(front)) by {
            assert forall|i: int| 0 <= i < front.len() implies front[i] != 0x5c && front[i]
                != 0x2f by {
                assert(file.contains(file[i]));
            }
        }
        assert(path.drop_last() =~= directory + front);
        lemma_prefix(directory, front);
    } else {
        assert(path =~= directory);
    }
}

/// A path is its directory, with the separator at its end, and its file part.
pub proof fn paths_are_split_at_the_last_separator(directory: Seq<u16>, file: Seq<u16>)
    requires
        bare(file),
        directory.len() > 0 ==> directory.last() == 0x5c || directory.last() == 0x2f,
    ensures
        leaf(directory + file) == file,
        (directory + file).take(prefix_len(directory + file)) == directory,
{
    lemma_prefix(directory, file);
    assert(leaf(directory + file) =~= file);
    assert((directory + file).take(directory.len() as int) =~= directory);
}

/// A path starts at a root where it starts with a separator or with a drive and a colon.
pub proof fn roots_are_separators_or_drives(first: u16, second: u16, rest: Seq<u16>)
    ensures
        is_absolute(wide("\\"@) + rest) && is_absolute(wide("/"@) + rest),
        is_absolute(seq![first] + wide(":"@) + rest),
        first != 0x5c && first != 0x2f && second != 0x3a ==> !is_absolute(
            seq![first, second] + rest,
        ),
        !is_absolute(Seq::empty()),
{
    reveal_strlit("\\");
    reveal_strlit("/");
    reveal_strlit(":");
    assert((wide("\\"@) + rest)[0] == 0x5c);
    assert((wide("/"@) + rest)[0] == 0x2f);
    assert((seq![first] + wide(":"@) + rest)[1] == 0x3a);
    let other = seq![first, second] + rest;
    assert(other[0] == first && other[1] == second);
}

/// Trimming takes all separators off the end of a path and nothing else.
pub proof fn trimming_takes_separators(path: Seq<u16>, separators: Seq<u16>)
    requires
        path.len() > 0 ==> path.last() != 0x5c && path.last() != 0x2f,
        forall|i: int|
            0 <= i < separators.len() ==> #[trigger] separators[i] == 0x5c || separators[i] == 0x2f,
    ensures
        trimmed(path + separators) == path,
    decreases separators.len(),
{
    let all = path + separators;
    if separators.len() > 0 {
        assert(all.last() == separators.last());
        assert(all.drop_last() =~= path + separators.drop_last());
        trimming_takes_separators(path, separators.drop_last());
    } else {
        assert(all =~= path);
        if path.len() > 0 {
            assert(!separates(path.last()));
        }
    }
}

/// An extension is added just where the file part has no dot; dots of the directory do not count.
pub proof fn extensions_go_by_the_file_part(
    directory: Seq<u16>,
    file: Seq<u16>,
    extension: Seq<u16>,
)
    requires
        bare(file),
        directory.len() > 0 ==> directory.last() == 0x5c || directory.last() == 0x2f,
    ensures
        added_extension(directory + file, Some(extension)) == if file.contains(0x2e) {
            Seq::empty()
        } else {
            extension
        },
        added_extension(directory + file, None) == Seq::<u16>::empty(),
{
    paths_are_split_at_the_last_separator(directory, file);
}

/// A name is refused for unknown flags, where it is empty, and where it has no place for an extension
/// and a terminator in 65534 bytes.
pub proof fn names_are_refused(flags: u32, original: Seq<u16>, extension: Option<Seq<u16>>)
    ensures
        flags != 0 && flags != 1 ==> isolation_error(flags, original, extension) == Some(
            0xC000_000Du32,
        ),
        flags <= 1 && original.len() == 0 ==> isolation_error(flags, original, extension) == Some(
            0xC015_0008u32,
        ),
        flags <= 1 && original.len() > 0 && added_extension(original, extension).len() > 0 && 2 * (
        original.len() + added_extension(original, extension).len() + 1) > 65534 ==> isolation_error(
            flags,
            original,
            extension,
        ) == Some(0xC000_0106u32),
        flags <= 1 && original.len() > 0 && (added_extension(original, extension).len() == 0 || 2 * (
        original.len() + added_extension(original, extension).len() + 1) <= 65534)
            ==> isolation_error(flags, original, extension) is None,
{
}

/// The texts of a redirection stand one behind the other, whatever is split from whatever.
pub proof fn segments_are_joined(a: Seq<Seq<u16>>, b: Seq<Seq<u16>>)
    ensures
        joined(a + b) == joined(a) + joined(b),
        forall|s: Seq<u16>| #[trigger] joined(seq![s]) == s,
        joined(Seq::<Seq<u16>>::empty()) == Seq::<u16>::empty(),
    decreases b.len(),
{
    assert forall|s: Seq<u16>| #[trigger] joined(seq![s]) == s by {
        reveal_with_fuel(joined, 2);
        assert(seq![s].drop_last() =~= Seq::<Seq<u16>>::empty());
        assert(joined(seq![s]) =~= s);
    }
    if b.len() > 0 {
        assert((a + b).drop_last() =~= a + b.drop_last());
        assert((a + b).last() == b.last());
        segments_are_joined(a, b.drop_last());
        assert(joined(a + b) =~= joined(a) + joined(b));
    } else {
        assert(a + b =~= a);
        assert(joined(a + b) =~= joined(a) + joined(b));
    }
}

proof fn lemma_flags(flags: u32)
    by (bit_vector)
    ensures
        flags & 1 != 0 <==> flags / 1 % 2 == 1,
        flags & 2 != 0 <==> flags / 2 % 2 == 1,
{
}

/// A redirection leads to its segments. Where they leave the root out, it is put in front of them,
/// and where they do not hold the name, it is put behind them.
pub proof fn redirections_are_completed(
    flags: u32,
    segments: Seq<Seq<u16>>,
    source: Seq<u16>,
    assembly_directory: Seq<u16>,
    system_root: Seq<u16>,
    lookup_name: Seq<u16>,
)
    ensures
        ({
            let path = redirected(
                flags,
                segments,
                source,
                assembly_directory,
                system_root,
                lookup_name,
            );
            let root = root_of(source, assembly_directory, system_root);
            let middle = joined(segments);
            &&& flags & 1 != 0 && flags & 2 == 0 ==> path == middle
            &&& flags & 1 == 0 && flags & 2 == 0 ==> path == middle + lookup_name
            &&& flags & 1 != 0 && flags & 2 != 0 ==> path == root + middle
            &&& flags & 1 == 0 && flags & 2 != 0 ==> path == root + middle + lookup_name
        }),
{
    let root = root_of(source, assembly_directory, system_root);
    let middle = joined(segments);
    assert(Seq::<u16>::empty() + middle =~= middle);
    assert(middle + Seq::<u16>::empty() =~= middle);
    assert((root + middle) + Seq::<u16>::empty() =~= root + middle);
    lemma_flags(flags);
    assert(has_flag(flags, 1) <==> flags & 1 != 0);
    assert(has_flag(flags, 2) <==> flags & 2 != 0);
}

/// The root of an assembly whose manifest does not have its name is the directory of the manifest.
pub proof fn private_assemblies_stay_with_their_manifest(
    directory: Seq<u16>,
    file: Seq<u16>,
    system_root: Seq<u16>,
)
    requires
        bare(file),
        directory.len() > 0 ==> directory.last() == 0x5c || directory.last() == 0x2f,
    ensures
        root_of(directory + file, Seq::empty(), system_root) == directory,
{
    paths_are_split_at_the_last_separator(directory, file);
}

/// The root of an assembly whose manifest has its name is its directory in the shared store.
pub proof fn shared_assemblies_stand_in_the_store(
    directory: Seq<u16>,
    assembly: Seq<u16>,
    system_root: Seq<u16>,
)
    requires
        bare(assembly),
        assembly.len() > 0,
        directory.len() > 0 ==> directory.last() == 0x5c || directory.last() == 0x2f,
        system_root.len() > 0 ==> system_root.last() != 0x5c && system_root.last() != 0x2f,
    ensures
        root_of(directory + (assembly + wide(".manifest"@)), assembly, system_root + seq![0x5cu16])
            == system_root + wide("\\winsxs\\"@) + assembly + wide("\\"@),
        system32_of(system_root + seq![0x5cu16]) == system_root + wide("\\System32"@),
{
    reveal_strlit(".manifest");
    reveal_strlit("\\");
    let file = assembly + wide(".manifest"@);
    assert(bare(file)) by {
        assert forall|i: int| 0 <= i < file.len() implies file[i] != 0x5c && file[i] != 0x2f by {
            if i < assembly.len() {
                assert(assembly.contains(assembly[i]));
            }
        }
    }
    paths_are_split_at_the_last_separator(directory, file);
    trimming_takes_separators(system_root, seq![0x5cu16]);
    assert(wide("\\"@) =~= seq![0x5cu16]);
}

} // verus!
