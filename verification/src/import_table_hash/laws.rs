//! Which imports of an image count, and how their names are ordered.

use vstd::prelude::*;

use super::{
    canonical_bytes, import_bytes, imports_of, joined, listed_functions, listed_module, listed_modules, lower, name_order, name_order_from,
    ImportTableHashError, ModuleModel,
};
use crate::bytes::{le32, le64};
use crate::pe::{Contents, PeHeaders};

verus! {

/// The `k`-th capital counts as the `k`-th letter.
pub proof fn capitals_count_as_letters(k: int)
    requires
        0 <= k < 26,
    ensures
        lower("ABCDEFGHIJKLMNOPQRSTUVWXYZ"@[k] as u8) == "abcdefghijklmnopqrstuvwxyz"@[k] as u8,
        lower("abcdefghijklmnopqrstuvwxyz"@[k] as u8) == "abcdefghijklmnopqrstuvwxyz"@[k] as u8,
{
    reveal_strlit("ABCDEFGHIJKLMNOPQRSTUVWXYZ");
    reveal_strlit("abcdefghijklmnopqrstuvwxyz");
}

/// Only capitals count as something else.
pub proof fn other_bytes_count_as_themselves(b: u8)
    ensures
        lower(b) != b ==> 0x41 <= b <= 0x5a,
{
}

proof fn lemma_order_decided(a: Seq<u8>, b: Seq<u8>, at: int, k: int)
    requires
        0 <= at <= k,
        k <= a.len(),
        k <= b.len(),
        forall|i: int| at <= i < k ==> lower(#[trigger] a[i]) == lower(b[i]),
        k == a.len() || k == b.len() || lower(a[k]) != lower(b[k]),
    ensures
        name_order_from(a, b, at) == if k == a.len() || k == b.len() {
            a.len() - b.len()
        } else {
            lower(a[k]) - lower(b[k])
        },
    decreases k - at,
{
    if at < k {
        assert(lower(a[at]) == lower(b[at]));
        lemma_order_decided(a, b, at + 1, k);
    }
}

/// The first byte that differs but for case decides the order of two names.
pub proof fn first_difference_decides(a: Seq<u8>, b: Seq<u8>, k: int)
    requires
        0 <= k < a.len(),
        k < b.len(),
        forall|i: int| 0 <= i < k ==> lower(#[trigger] a[i]) == lower(b[i]),
        lower(a[k]) < lower(b[k]),
    ensures
        name_order(a, b) < 0,
        name_order(b, a) > 0,
{
    lemma_order_decided(a, b, 0, k);
    lemma_order_decided(b, a, 0, k);
}

/// A name comes in front of those that go on behind it, and is equal to those with the same bytes but
/// for case.
pub proof fn shorter_names_come_first(a: Seq<u8>, b: Seq<u8>)
    requires
        a.len() <= b.len(),
        forall|i: int| 0 <= i < a.len() ==> lower(#[trigger] a[i]) == lower(b[i]),
    ensures
        a.len() < b.len() ==> name_order(a, b) < 0,
        a.len() == b.len() ==> name_order(a, b) == 0,
{
    lemma_order_decided(a, b, 0, a.len() as int);
}

/// An import of a function: by name, or by number.
pub enum Import {
    Name(Seq<u8>),
    Number,
}

/// The names of imports; those by number have none.
pub open spec fn names_of(imports: Seq<Import>) -> Seq<Seq<u8>>
    decreases imports.len(),
{
    if imports.len() == 0 {
        Seq::empty()
    } else {
        (match imports[0] {
            Import::Name(name) => seq![name],
            Import::Number => Seq::empty(),
        }) + names_of(imports.skip(1))
    }
}

/// Whether eight bytes tell an import: the highest bit a number, and else the address of two bytes
/// with the name behind them.
pub open spec fn tells(contents: Contents, entry: Option<Seq<u8>>, import: Import) -> bool {
    entry matches Some(bytes) && match import {
        Import::Number => le64(bytes, 0) >= 0x8000_0000_0000_0000,
        Import::Name(name) => 0 < le64(bytes, 0) && le64(bytes, 0) + 2 <= u32::MAX && (
        contents.text)((le64(bytes, 0) + 2) as u32) == Some(name),
    }
}

/// Whether a table of imports stands at an address: eight bytes for each, and a zero behind them.
pub open spec fn table_stands(contents: Contents, table: u32, imports: Seq<Import>) -> bool {
    &&& imports.len() < 8192
    &&& table + 8 * imports.len() <= u32::MAX
    &&& forall|k: int|
        0 <= k < imports.len() ==> tells(
            contents,
            (contents.bytes)((table + k * 8) as u32, 8),
            #[trigger] imports[k],
        )
    &&& (contents.bytes)((table + imports.len() * 8) as u32, 8) matches Some(bytes) && le64(
        bytes,
        0,
    ) == 0
}

proof fn lemma_functions(contents: Contents, table: u32, imports: Seq<Import>, index: int)
    requires
        table_stands(contents, table, imports),
        0 <= index <= imports.len(),
    ensures
        listed_functions(contents, table, index) == Some(names_of(imports.skip(index))),
    decreases imports.len() - index,
{
    if index < imports.len() {
        lemma_functions(contents, table, imports, index + 1);
        let import = imports[index];
        let rest = imports.skip(index);
        assert(rest[0] == import);
        assert(rest.skip(1) =~= imports.skip(index + 1));
        assert(tells(contents, (contents.bytes)((table + index * 8) as u32, 8), import));
        match import {
            Import::Name(name) => {},
            Import::Number => {
                assert(names_of(rest) =~= names_of(imports.skip(index + 1)));
            },
        }
    } else {
        assert(imports.skip(index) =~= Seq::empty());
    }
}

/// The functions that a table imports by name are listed in its order.
pub proof fn named_functions_are_listed(contents: Contents, table: u32, imports: Seq<Import>)
    requires
        table_stands(contents, table, imports),
    ensures
        listed_functions(contents, table, 0) == Some(names_of(imports)),
{
    lemma_functions(contents, table, imports, 0);
    assert(imports.skip(0) =~= imports);
}

/// A module that is imported from: its name, and its imports.
pub struct Module {
    pub name: Seq<u8>,
    pub imports: Seq<Import>,
}

/// Whether a descriptor tells a module. Its first four bytes name the table, or, where they are zero,
/// its last four.
pub open spec fn describes(contents: Contents, d: Seq<u8>, module: Module) -> bool {
    &&& le32(d, 12) != 0
    &&& (contents.text)(le32(d, 12)) == Some(module.name)
    &&& le32(d, 16) != 0
    &&& le32(d, 0) != 0 ==> table_stands(contents, le32(d, 0), module.imports)
    &&& le32(d, 0) == 0 ==> table_stands(contents, le32(d, 16), module.imports)
}

/// Whether descriptors of twenty bytes stand from an address on, with an empty one behind them.
pub open spec fn modules_stand(
    contents: Contents,
    rva: u32,
    modules: Seq<Module>,
    descriptors: Seq<Seq<u8>>,
) -> bool {
    &&& descriptors.len() == modules.len() + 1
    &&& rva + 20 * modules.len() <= u32::MAX
    &&& forall|k: int|
        0 <= k < descriptors.len() ==> (contents.bytes)((rva + 20 * k) as u32, 20) == Some(
            #[trigger] descriptors[k],
        )
    &&& forall|k: int|
        0 <= k < modules.len() ==> describes(contents, descriptors[k], #[trigger] modules[k])
    &&& le32(descriptors.last(), 12) == 0 || le32(descriptors.last(), 16) == 0
}

/// What a module lists.
pub open spec fn model_of(module: Module) -> ModuleModel {
    ModuleModel { name: module.name, functions: names_of(module.imports) }
}

proof fn lemma_modules(
    contents: Contents,
    rva: u32,
    modules: Seq<Module>,
    descriptors: Seq<Seq<u8>>,
    left: nat,
)
    requires
        modules_stand(contents, rva, modules, descriptors),
        modules.len() < left,
    ensures
        listed_modules(contents, rva, left) == Some(modules.map_values(|m: Module| model_of(m))),
    decreases left,
{
    let model = |m: Module| model_of(m);
    let d = descriptors[0];
    assert((contents.bytes)((rva + 20 * 0) as u32, 20) == Some(d));
    if modules.len() > 0 {
        let module = modules[0];
        assert(describes(contents, descriptors[0], module));
        let table = if le32(d, 0) != 0 {
            le32(d, 0)
        } else {
            le32(d, 16)
        };
        named_functions_are_listed(contents, table, module.imports);
        assert(listed_module(contents, d) == Ok::<Option<ModuleModel>, ()>(Some(model_of(module))));
        let next = (rva + 20) as u32;
        let others = modules.skip(1);
        let behind = descriptors.skip(1);
        assert forall|k: int| 0 <= k < behind.len() implies (contents.bytes)(
            (next + 20 * k) as u32,
            20,
        ) == Some(#[trigger] behind[k]) by {
            assert(behind[k] == descriptors[k + 1]);
            assert(next + 20 * k == rva + 20 * (k + 1));
        }
        assert forall|k: int| 0 <= k < others.len() implies describes(
            contents,
            behind[k],
            #[trigger] others[k],
        ) by {
            assert(describes(contents, descriptors[k + 1], modules[k + 1]));
        }
        lemma_modules(contents, next, others, behind, (left - 1) as nat);
        assert(seq![model_of(module)] + others.map_values(model) =~= modules.map_values(model));
    } else {
        assert(descriptors.last() == d);
        assert(modules.map_values(model) =~= Seq::empty());
    }
}

/// The imports of an image are the modules that its descriptors tell, each with the functions that it
/// imports by name.
pub proof fn described_modules_are_imported(
    pe: PeHeaders,
    contents: Contents,
    modules: Seq<Module>,
    descriptors: Seq<Seq<u8>>,
)
    requires
        pe.directories@[1].virtual_address != 0,
        pe.directories@[1].size != 0,
        modules_stand(contents, pe.directories@[1].virtual_address, modules, descriptors),
        modules.len() < 256,
    ensures
        imports_of(pe, contents) == Some(modules.map_values(|m: Module| model_of(m))),
{
    lemma_modules(contents, pe.directories@[1].virtual_address, modules, descriptors, 256);
}

/// Only revision one is known, and an image without imports has nothing to be hashed.
pub proof fn other_revisions_are_refused(
    headers: Option<PeHeaders>,
    revision: u32,
    contents: Contents,
)
    ensures
        revision != 1 ==> import_bytes(headers, revision, contents) == Err::<
            Seq<u8>,
            ImportTableHashError,
        >(ImportTableHashError::UnknownRevision),
        headers is None || headers->Some_0.directories@[1].virtual_address == 0
            || headers->Some_0.directories@[1].size == 0 ==> import_bytes(headers, 1, contents)
            == Err::<Seq<u8>, ImportTableHashError>(ImportTableHashError::ResourceDataNotFound),
{
}

/// The bytes that stand for modules are those of the names: each module in front of its functions.
pub proof fn names_stand_behind_each_other(
    modules: Seq<ModuleModel>,
    name: Seq<u8>,
    functions: Seq<Seq<u8>>,
    last: Seq<u8>,
)
    ensures
        canonical_bytes(
            modules.push(ModuleModel { name, functions: functions.push(last) }),
        ) == canonical_bytes(modules.push(ModuleModel { name, functions })) + last,
        canonical_bytes(modules.push(ModuleModel { name, functions: Seq::empty() }))
            == canonical_bytes(modules) + name,
        canonical_bytes(Seq::empty()) == Seq::<u8>::empty(),
{
    let long = ModuleModel { name, functions: functions.push(last) };
    let short = ModuleModel { name, functions };
    let bare = ModuleModel { name, functions: Seq::empty() };
    assert(modules.push(long).drop_last() =~= modules);
    assert(modules.push(short).drop_last() =~= modules);
    assert(modules.push(bare).drop_last() =~= modules);
    assert(functions.push(last).drop_last() =~= functions);
    assert(joined(functions.push(last)) == joined(functions) + last);
    assert(canonical_bytes(modules.push(long)) =~= canonical_bytes(modules.push(short)) + last);
    assert(joined(Seq::<Seq<u8>>::empty()) =~= Seq::<u8>::empty());
    assert(canonical_bytes(modules.push(bare)) =~= canonical_bytes(modules) + name);
}

} // verus!
