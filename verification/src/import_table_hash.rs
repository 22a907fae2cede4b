//! The canonical form of an import table, and its hash.

use vstd::prelude::*;

use crate::bytes::{get_u32, get_u64, le32, le64, push_bytes};
use crate::image_verify::byte_texts;
use crate::pe::{looks_up, looks_up_fully, Contents, PeHeaders};

pub mod laws;

verus! {

/// Which data directory holds the imports.
pub const IMPORT_DIRECTORY_INDEX: usize = 1;

/// The bytes of an import descriptor.
pub const IMPORT_DESCRIPTOR_SIZE: u32 = 20;

/// What marks an import by number.
pub const IMAGE_ORDINAL_FLAG64: u64 = 0x8000_0000_0000_0000;

/// How many modules are read.
pub const MAX_MODULES: usize = 256;

/// How many functions of a module are read.
pub const MAX_FUNCTIONS_PER_MODULE: usize = 8192;

#[derive(Clone, Copy, Debug, PartialEq, Eq, Structural)]
pub enum ImportTableHashError {
    UnknownRevision,
    ResourceDataNotFound,
    ResourceNameNotFound,
    NoMemory,
}

/// A module and the functions that are imported from it by name.
pub struct CanonicalModule {
    pub name: Vec<u8>,
    pub functions: Vec<Vec<u8>>,
}

/// A module and the functions that are imported from it by name.
#[verifier::ext_equal]
pub struct ModuleModel {
    pub name: Seq<u8>,
    pub functions: Seq<Seq<u8>>,
}

impl View for CanonicalModule {
    type V = ModuleModel;

    open spec fn view(&self) -> ModuleModel {
        ModuleModel { name: self.name@, functions: byte_texts(self.functions@) }
    }
}

/// The models of modules.
pub open spec fn module_models(modules: Seq<CanonicalModule>) -> Seq<ModuleModel> {
    modules.map_values(|m: CanonicalModule| m@)
}

// ---------------------------------------------------------------------------------------------
// The order of names
// ---------------------------------------------------------------------------------------------

/// The lower-case form of an ASCII letter.
pub open spec fn lower(b: u8) -> u8 {
    if 0x41 <= b <= 0x5a {
        (b + 0x20) as u8
    } else {
        b
    }
}

/// How two names compare from `at` on when the case of ASCII letters does not count: negative,
/// zero or positive. A name that is the start of another comes first.
pub open spec fn name_order_from(a: Seq<u8>, b: Seq<u8>, at: int) -> int
    decreases a.len() - at,
{
    if at >= a.len() || at >= b.len() {
        a.len() - b.len()
    } else if lower(a[at]) != lower(b[at]) {
        lower(a[at]) - lower(b[at])
    } else {
        name_order_from(a, b, at + 1)
    }
}

/// How two names compare.
pub open spec fn name_order(a: Seq<u8>, b: Seq<u8>) -> int {
    name_order_from(a, b, 0)
}

proof fn lemma_order_antisymmetric(a: Seq<u8>, b: Seq<u8>, at: int)
    requires
        0 <= at,
    ensures
        (name_order_from(a, b, at) > 0) == (name_order_from(b, a, at) < 0),
        (name_order_from(a, b, at) == 0) == (name_order_from(b, a, at) == 0),
    decreases a.len() - at,
{
    if at < a.len() && at < b.len() && lower(a[at]) == lower(b[at]) {
        lemma_order_antisymmetric(a, b, at + 1);
    }
}

proof fn lemma_order_transitive(a: Seq<u8>, b: Seq<u8>, c: Seq<u8>, at: int)
    requires
        0 <= at <= a.len(),
        at <= b.len(),
        at <= c.len(),
        name_order_from(a, b, at) <= 0,
        name_order_from(b, c, at) <= 0,
    ensures
        name_order_from(a, c, at) <= 0,
    decreases a.len() - at,
{
    if at < a.len() && at < b.len() && at < c.len() {
        if lower(a[at]) == lower(b[at]) && lower(b[at]) == lower(c[at]) {
            lemma_order_transitive(a, b, c, at + 1);
        }
    }
}

/// Compare two names.
fn compare_names(left: &[u8], right: &[u8]) -> (order: i8)
    ensures
        (order < 0) == (name_order(left@, right@) < 0),
        (order > 0) == (name_order(left@, right@) > 0),
{
    let mut at: usize = 0;
    while at < left.len() && at < right.len()
        invariant
            at <= left@.len(),
            at <= right@.len(),
            name_order(left@, right@) == name_order_from(left@, right@, at as int),
        decreases left@.len() - at,
    {
        let a: u8 = to_lower(left[at]);
        let b: u8 = to_lower(right[at]);
        if a < b {
            return -1;
        }
        if a > b {
            return 1;
        }
        at += 1;
    }
    if left.len() < right.len() {
        -1
    } else if left.len() > right.len() {
        1
    } else {
        0
    }
}

fn to_lower(b: u8) -> (l: u8)
    ensures
        l == lower(b),
{
    if 0x41 <= b && b <= 0x5a {
        b + 0x20
    } else {
        b
    }
}

// ---------------------------------------------------------------------------------------------
// Insertion
// ---------------------------------------------------------------------------------------------

/// The first place at or behind `i` whose name does not come before `name`.
pub open spec fn place_from(names: Seq<Seq<u8>>, i: int, name: Seq<u8>) -> int
    decreases names.len() - i,
{
    if i >= names.len() {
        names.len() as int
    } else if name_order(names[i], name) >= 0 {
        i
    } else {
        place_from(names, i + 1, name)
    }
}

/// Where a name is inserted: in front of a first name that comes behind it, else at the first place
/// behind the first name whose name does not come before it. So a name that equals the first one
/// goes behind it, and one that equals others goes in front of them.
pub open spec fn insertion_place(names: Seq<Seq<u8>>, name: Seq<u8>) -> int {
    if names.len() == 0 || name_order(names[0], name) > 0 {
        0
    } else {
        place_from(names, 1, name)
    }
}

/// The names with one more inserted.
pub open spec fn with_name(names: Seq<Seq<u8>>, name: Seq<u8>) -> Seq<Seq<u8>> {
    names.insert(insertion_place(names, name), name)
}

/// Whether names stand in order.
pub open spec fn in_order(names: Seq<Seq<u8>>) -> bool {
    forall|i: int, j: int|
        0 <= i <= j < names.len() ==> name_order(#[trigger] names[i], #[trigger] names[j]) <= 0
}

proof fn lemma_place(names: Seq<Seq<u8>>, i: int, name: Seq<u8>)
    requires
        0 <= i <= names.len(),
    ensures
        i <= place_from(names, i, name) <= names.len(),
        forall|k: int|
            i <= k < place_from(names, i, name) ==> name_order(#[trigger] names[k], name) < 0,
        place_from(names, i, name) < names.len() ==> name_order(
            names[place_from(names, i, name)],
            name,
        ) >= 0,
    decreases names.len() - i,
{
    if i < names.len() && name_order(names[i], name) < 0 {
        lemma_place(names, i + 1, name);
    }
}

/// A name inserted into names that stand in order leaves them in order.
pub proof fn insertion_keeps_order(names: Seq<Seq<u8>>, name: Seq<u8>)
    requires
        in_order(names),
    ensures
        in_order(with_name(names, name)),
        with_name(names, name).to_multiset() == names.to_multiset().insert(name),
{
    if names.len() > 0 {
        lemma_place(names, 1, name);
    }
    let p = insertion_place(names, name);
    let after = with_name(names, name);
    names.insert_ensures(p, name);
    assert forall|i: int, j: int| 0 <= i <= j < after.len() implies name_order(
        #[trigger] after[i],
        #[trigger] after[j],
    ) <= 0 by {
        let before_i = if i < p {
            i
        } else {
            i - 1
        };
        let before_j = if j < p {
            j
        } else {
            j - 1
        };
        if i == p && j == p {
            lemma_order_antisymmetric(name, name, 0);
        } else if i == p {
            lemma_order_antisymmetric(names[p], name, 0);
            assert(after[j] == names[before_j]);
            assert(name_order(names[p], names[before_j]) <= 0);
            lemma_order_transitive(name, names[p], names[before_j], 0);
        } else if j == p {
            assert(after[i] == names[before_i]);
        } else {
            assert(after[i] == names[before_i]);
            assert(after[j] == names[before_j]);
        }
    }
    vstd::seq_lib::to_multiset_insert(names, p, name);
}

/// The names of modules.
pub open spec fn module_names(modules: Seq<ModuleModel>) -> Seq<Seq<u8>> {
    modules.map_values(|m: ModuleModel| m.name)
}

/// The modules with one more inserted by its name.
pub open spec fn with_module(modules: Seq<ModuleModel>, module: ModuleModel) -> Seq<ModuleModel> {
    modules.insert(insertion_place(module_names(modules), module.name), module)
}

/// Insert a name into a list.
pub fn insert_nt5_sorted(items: &mut Vec<Vec<u8>>, value: Vec<u8>) -> (r: Result<
    (),
    ImportTableHashError,
>)
    ensures
        r is Ok,
        byte_texts(final(items)@) == with_name(byte_texts(old(items)@), value@),
{
    let ghost names = byte_texts(items@);
    let mut place: usize = 0;
    if items.len() > 0 {
        assert(names[0] == items@[0]@);
        if compare_names(&items[0], &value) <= 0 {
            place = 1;
            while place < items.len() && compare_names(&items[place], &value) < 0
                invariant
                    1 <= place <= items@.len(),
                    names == byte_texts(items@),
                    place_from(names, 1, value@) == place_from(names, place as int, value@),
                decreases items@.len() - place,
            {
                assert(names[place as int] == items@[place as int]@);
                place += 1;
            }
            assert(place < items@.len() ==> names[place as int] == items@[place as int]@);
        }
    }
    assert(place == insertion_place(names, value@));
    let ghost text = value@;
    items.insert(place, value);
    assert(byte_texts(items@) =~= names.insert(place as int, text));
    Ok(())
}

/// Insert a module into a list by its name.
fn insert_module_nt5_sorted(items: &mut Vec<CanonicalModule>, value: CanonicalModule)
    ensures
        module_models(final(items)@) == with_module(module_models(old(items)@), value@),
{
    let ghost models = module_models(items@);
    let ghost names = module_names(models);
    let mut place: usize = 0;
    if items.len() > 0 {
        assert(names[0] == items@[0].name@);
        if compare_names(&items[0].name, &value.name) <= 0 {
            place = 1;
            while place < items.len() && compare_names(&items[place].name, &value.name) < 0
                invariant
                    1 <= place <= items@.len(),
                    models == module_models(items@),
                    names == module_names(models),
                    place_from(names, 1, value.name@) == place_from(
                        names,
                        place as int,
                        value.name@,
                    ),
                decreases items@.len() - place,
            {
                assert(names[place as int] == items@[place as int].name@);
                place += 1;
            }
            assert(place < items@.len() ==> names[place as int] == items@[place as int].name@);
        }
    }
    assert(place == insertion_place(names, value.name@));
    let ghost model = value@;
    items.insert(place, value);
    assert(module_models(items@) =~= models.insert(place as int, model));
}

// ---------------------------------------------------------------------------------------------
// The import table
// ---------------------------------------------------------------------------------------------

/// The functions imported by name from the entry `index` of a table on, inserted into `done`. A
/// zero entry ends the table; imports by number are passed over.
pub open spec fn functions_from(
    contents: Contents,
    table: u32,
    index: int,
    done: Seq<Seq<u8>>,
) -> Option<Seq<Seq<u8>>>
    decreases MAX_FUNCTIONS_PER_MODULE - index,
{
    if index >= MAX_FUNCTIONS_PER_MODULE || table + index * 8 > u32::MAX {
        None
    } else {
        match (contents.bytes)((table + index * 8) as u32, 8) {
            Some(bytes) => {
                let thunk = le64(bytes, 0);
                if thunk == 0 {
                    Some(done)
                } else if thunk >= IMAGE_ORDINAL_FLAG64 {
                    functions_from(contents, table, index + 1, done)
                } else if thunk + 2 > u32::MAX {
                    None
                } else {
                    match (contents.text)((thunk + 2) as u32) {
                        Some(name) => functions_from(
                            contents,
                            table,
                            index + 1,
                            with_name(done, name),
                        ),
                        None => None,
                    }
                }
            },
            None => None,
        }
    }
}

/// The module that a descriptor imports; `None` where the descriptor ends the list.
pub open spec fn module_of(contents: Contents, descriptor: Seq<u8>) -> Result<
    Option<ModuleModel>,
    (),
> {
    let lookup = le32(descriptor, 0);
    let name_rva = le32(descriptor, 12);
    let bound = le32(descriptor, 16);
    let table = if lookup != 0 {
        lookup
    } else {
        bound
    };
    if name_rva == 0 || bound == 0 {
        Ok(None)
    } else {
        match (contents.text)(name_rva) {
            Some(name) => match functions_from(contents, table, 0, Seq::empty()) {
                Some(functions) => Ok(Some(ModuleModel { name, functions })),
                None => Err(()),
            },
            None => Err(()),
        }
    }
}

/// The modules that the descriptors from `rva` on import, inserted into `done`. At most `left`
/// descriptors are read.
pub open spec fn modules_from(
    contents: Contents,
    rva: u32,
    left: nat,
    done: Seq<ModuleModel>,
) -> Option<Seq<ModuleModel>>
    decreases left,
{
    if left == 0 {
        None
    } else {
        match (contents.bytes)(rva, IMPORT_DESCRIPTOR_SIZE as int) {
            Some(descriptor) => match module_of(contents, descriptor) {
                Ok(Some(module)) => if rva + IMPORT_DESCRIPTOR_SIZE > u32::MAX {
                    None
                } else {
                    modules_from(
                        contents,
                        (rva + IMPORT_DESCRIPTOR_SIZE) as u32,
                        (left - 1) as nat,
                        with_module(done, module),
                    )
                },
                Ok(None) => Some(done),
                Err(_) => None,
            },
            None => None,
        }
    }
}

/// The bytes of names, one behind the other.
pub open spec fn joined(names: Seq<Seq<u8>>) -> Seq<u8>
    decreases names.len(),
{
    if names.len() == 0 {
        Seq::empty()
    } else {
        joined(names.drop_last()) + names.last()
    }
}

/// The bytes that stand for modules: each name, with the names of its functions behind it.
pub open spec fn canonical_bytes(modules: Seq<ModuleModel>) -> Seq<u8>
    decreases modules.len(),
{
    if modules.len() == 0 {
        Seq::empty()
    } else {
        canonical_bytes(modules.drop_last()) + modules.last().name + joined(
            modules.last().functions,
        )
    }
}

/// The bytes that are hashed for an import table.
pub open spec fn import_bytes(headers: Option<PeHeaders>, revision: u32, contents: Contents) -> Result<
    Seq<u8>,
    ImportTableHashError,
> {
    if revision != 1 {
        Err(ImportTableHashError::UnknownRevision)
    } else {
        match headers {
            Some(pe) => {
                let directory = pe.directories@[1];
                if directory.virtual_address == 0 || directory.size == 0 {
                    Err(ImportTableHashError::ResourceDataNotFound)
                } else {
                    match modules_from(
                        contents,
                        directory.virtual_address,
                        MAX_MODULES as nat,
                        Seq::empty(),
                    ) {
                        Some(modules) => Ok(canonical_bytes(modules)),
                        None => Err(ImportTableHashError::ResourceNameNotFound),
                    }
                }
            },
            None => Err(ImportTableHashError::ResourceDataNotFound),
        }
    }
}

/// The functions that are read of a module stand in order.
pub proof fn functions_are_in_order(
    contents: Contents,
    table: u32,
    index: int,
    done: Seq<Seq<u8>>,
)
    requires
        in_order(done),
    ensures
        functions_from(contents, table, index, done) matches Some(functions) ==> in_order(functions),
    decreases MAX_FUNCTIONS_PER_MODULE - index,
{
    if index < MAX_FUNCTIONS_PER_MODULE && table + index * 8 <= u32::MAX {
        if let Some(bytes) = (contents.bytes)((table + index * 8) as u32, 8) {
            let thunk = le64(bytes, 0);
            if thunk >= IMAGE_ORDINAL_FLAG64 {
                functions_are_in_order(contents, table, index + 1, done);
            } else if thunk != 0 && thunk + 2 <= u32::MAX {
                if let Some(name) = (contents.text)((thunk + 2) as u32) {
                    insertion_keeps_order(done, name);
                    functions_are_in_order(contents, table, index + 1, with_name(done, name));
                }
            }
        }
    }
}

/// The modules that are read of an import table stand in order.
pub proof fn modules_are_in_order(
    contents: Contents,
    rva: u32,
    left: nat,
    done: Seq<ModuleModel>,
)
    requires
        in_order(module_names(done)),
    ensures
        modules_from(contents, rva, left, done) matches Some(modules) ==> in_order(
            module_names(modules),
        ),
    decreases left,
{
    if left > 0 {
        if let Some(descriptor) = (contents.bytes)(rva, IMPORT_DESCRIPTOR_SIZE as int) {
            if let Ok(Some(module)) = module_of(contents, descriptor) {
                if rva + IMPORT_DESCRIPTOR_SIZE <= u32::MAX {
                    let names = module_names(done);
                    if names.len() > 0 {
                        lemma_place(names, 1, module.name);
                    }
                    let next = with_module(done, module);
                    insertion_keeps_order(names, module.name);
                    assert(module_names(next) =~= with_name(names, module.name));
                    modules_are_in_order(
                        contents,
                        (rva + IMPORT_DESCRIPTOR_SIZE) as u32,
                        (left - 1) as nat,
                        next,
                    );
                }
            }
        }
    }
}

// ---------------------------------------------------------------------------------------------
// Independence of order
// ---------------------------------------------------------------------------------------------

/// The names of the functions imported by name from the entry `index` of a table on, as the table
/// lists them.
pub open spec fn listed_functions(contents: Contents, table: u32, index: int) -> Option<Seq<Seq<u8>>>
    decreases MAX_FUNCTIONS_PER_MODULE - index,
{
    if index >= MAX_FUNCTIONS_PER_MODULE || table + index * 8 > u32::MAX {
        None
    } else {
        match (contents.bytes)((table + index * 8) as u32, 8) {
            Some(bytes) => {
                let thunk = le64(bytes, 0);
                if thunk == 0 {
                    Some(Seq::empty())
                } else if thunk >= IMAGE_ORDINAL_FLAG64 {
                    listed_functions(contents, table, index + 1)
                } else if thunk + 2 > u32::MAX {
                    None
                } else {
                    match (
                        (contents.text)((thunk + 2) as u32),
                        listed_functions(contents, table, index + 1),
                    ) {
                        (Some(name), Some(rest)) => Some(seq![name] + rest),
                        _ => None,
                    }
                }
            },
            None => None,
        }
    }
}

/// The module that a descriptor imports, with its functions as its table lists them; `None` where
/// the descriptor ends the list.
pub open spec fn listed_module(contents: Contents, descriptor: Seq<u8>) -> Result<
    Option<ModuleModel>,
    (),
> {
    let lookup = le32(descriptor, 0);
    let name_rva = le32(descriptor, 12);
    let bound = le32(descriptor, 16);
    let table = if lookup != 0 {
        lookup
    } else {
        bound
    };
    if name_rva == 0 || bound == 0 {
        Ok(None)
    } else {
        match ((contents.text)(name_rva), listed_functions(contents, table, 0)) {
            (Some(name), Some(functions)) => Ok(Some(ModuleModel { name, functions })),
            _ => Err(()),
        }
    }
}

/// The modules that the descriptors from `rva` on import, as the image lists them.
pub open spec fn listed_modules(contents: Contents, rva: u32, left: nat) -> Option<Seq<ModuleModel>>
    decreases left,
{
    if left == 0 {
        None
    } else {
        match (contents.bytes)(rva, IMPORT_DESCRIPTOR_SIZE as int) {
            Some(descriptor) => match listed_module(contents, descriptor) {
                Ok(Some(module)) => if rva + IMPORT_DESCRIPTOR_SIZE > u32::MAX {
                    None
                } else {
                    match listed_modules(
                        contents,
                        (rva + IMPORT_DESCRIPTOR_SIZE) as u32,
                        (left - 1) as nat,
                    ) {
                        Some(rest) => Some(seq![module] + rest),
                        None => None,
                    }
                },
                Ok(None) => Some(Seq::empty()),
                Err(_) => None,
            },
            None => None,
        }
    }
}

/// The imports of an image, as the image lists them.
pub open spec fn imports_of(pe: PeHeaders, contents: Contents) -> Option<Seq<ModuleModel>> {
    let directory = pe.directories@[1];
    if directory.virtual_address == 0 || directory.size == 0 {
        None
    } else {
        listed_modules(contents, directory.virtual_address, MAX_MODULES as nat)
    }
}

/// Whether no two names are equal when the case of ASCII letters does not count.
pub open spec fn all_different(names: Seq<Seq<u8>>) -> bool {
    forall|i: int, j: int|
        0 <= i < names.len() && 0 <= j < names.len() && i != j ==> name_order(
            #[trigger] names[i],
            #[trigger] names[j],
        ) != 0
}

/// Whether module names, and the function names of each module, are all different.
pub open spec fn imports_differ(modules: Seq<ModuleModel>) -> bool {
    &&& all_different(module_names(modules))
    &&& forall|i: int| 0 <= i < modules.len() ==> all_different((#[trigger] modules[i]).functions)
}

/// Whether two modules have the same name and the same functions, in whatever order.
pub open spec fn same_module(a: ModuleModel, b: ModuleModel) -> bool {
    a.name == b.name && a.functions.to_multiset() == b.functions.to_multiset()
}

/// Whether each module of `a` is among those of `b`.
pub open spec fn all_among(a: Seq<ModuleModel>, b: Seq<ModuleModel>) -> bool {
    forall|i: int|
        0 <= i < a.len() ==> exists|j: int|
            0 <= j < b.len() && same_module(#[trigger] a[i], #[trigger] b[j])
}

/// Whether imports differ only in the order of modules and of the functions of a module.
pub open spec fn same_imports(a: Seq<ModuleModel>, b: Seq<ModuleModel>) -> bool {
    all_among(a, b) && all_among(b, a)
}

/// Names inserted one by one.
pub open spec fn all_inserted(done: Seq<Seq<u8>>, names: Seq<Seq<u8>>) -> Seq<Seq<u8>>
    decreases names.len(),
{
    if names.len() == 0 {
        done
    } else {
        all_inserted(with_name(done, names[0]), names.skip(1))
    }
}

/// A module with its functions in order.
pub open spec fn arranged(module: ModuleModel) -> ModuleModel {
    ModuleModel { name: module.name, functions: all_inserted(Seq::empty(), module.functions) }
}

/// Modules inserted one by one, each with its functions in order.
pub open spec fn all_modules_inserted(done: Seq<ModuleModel>, modules: Seq<ModuleModel>) -> Seq<
    ModuleModel,
>
    decreases modules.len(),
{
    if modules.len() == 0 {
        done
    } else {
        all_modules_inserted(with_module(done, arranged(modules[0])), modules.skip(1))
    }
}

/// Whether each name comes before those behind it.
pub open spec fn strictly_in_order(names: Seq<Seq<u8>>) -> bool {
    forall|i: int, j: int|
        0 <= i < j < names.len() ==> name_order(#[trigger] names[i], #[trigger] names[j]) < 0
}

proof fn lemma_functions_listed(contents: Contents, table: u32, index: int, done: Seq<Seq<u8>>)
    ensures
        functions_from(contents, table, index, done) == match listed_functions(
            contents,
            table,
            index,
        ) {
            Some(names) => Some(all_inserted(done, names)),
            None => None,
        },
    decreases MAX_FUNCTIONS_PER_MODULE - index,
{
    if index < MAX_FUNCTIONS_PER_MODULE && table + index * 8 <= u32::MAX {
        if let Some(bytes) = (contents.bytes)((table + index * 8) as u32, 8) {
            let thunk = le64(bytes, 0);
            if thunk >= IMAGE_ORDINAL_FLAG64 {
                lemma_functions_listed(contents, table, index + 1, done);
            } else if thunk != 0 && thunk + 2 <= u32::MAX {
                if let Some(name) = (contents.text)((thunk + 2) as u32) {
                    lemma_functions_listed(contents, table, index + 1, with_name(done, name));
                    if let Some(rest) = listed_functions(contents, table, index + 1) {
                        assert((seq![name] + rest).skip(1) =~= rest);
                    }
                }
            }
        }
    }
}

proof fn lemma_module_listed(contents: Contents, descriptor: Seq<u8>)
    ensures
        module_of(contents, descriptor) == match listed_module(contents, descriptor) {
            Ok(Some(module)) => Ok(Some(arranged(module))),
            Ok(None) => Ok(None),
            Err(e) => Err(e),
        },
{
    let lookup = le32(descriptor, 0);
    let bound = le32(descriptor, 16);
    let table = if lookup != 0 {
        lookup
    } else {
        bound
    };
    lemma_functions_listed(contents, table, 0, Seq::empty());
}

proof fn lemma_modules_listed(contents: Contents, rva: u32, left: nat, done: Seq<ModuleModel>)
    ensures
        modules_from(contents, rva, left, done) == match listed_modules(contents, rva, left) {
            Some(modules) => Some(all_modules_inserted(done, modules)),
            None => None,
        },
    decreases left,
{
    if left > 0 {
        if let Some(descriptor) = (contents.bytes)(rva, IMPORT_DESCRIPTOR_SIZE as int) {
            lemma_module_listed(contents, descriptor);
            if let Ok(Some(module)) = listed_module(contents, descriptor) {
                if rva + IMPORT_DESCRIPTOR_SIZE <= u32::MAX {
                    let next = (rva + IMPORT_DESCRIPTOR_SIZE) as u32;
                    lemma_modules_listed(
                        contents,
                        next,
                        (left - 1) as nat,
                        with_module(done, arranged(module)),
                    );
                    if let Some(rest) = listed_modules(contents, next, (left - 1) as nat) {
                        assert((seq![module] + rest).skip(1) =~= rest);
                    }
                }
            }
        }
    }
}

/// Inserting a name that differs from all keeps names strictly in order.
proof fn lemma_strict_insertion(names: Seq<Seq<u8>>, name: Seq<u8>)
    requires
        strictly_in_order(names),
        forall|i: int| 0 <= i < names.len() ==> name_order(#[trigger] names[i], name) != 0,
    ensures
        0 <= insertion_place(names, name) <= names.len(),
        strictly_in_order(with_name(names, name)),
{
    if names.len() > 0 {
        lemma_place(names, 1, name);
    }
    let p = insertion_place(names, name);
    let after = with_name(names, name);
    assert forall|i: int, j: int| 0 <= i < j < after.len() implies name_order(
        #[trigger] after[i],
        #[trigger] after[j],
    ) < 0 by {
        if i == p {
            assert(after[j] == names[j - 1]);
            lemma_order_antisymmetric(names[p], name, 0);
            if j - 1 > p {
                lemma_order_transitive(name, names[p], names[j - 1], 0);
                lemma_order_antisymmetric(name, names[j - 1], 0);
            }
        } else if j == p {
            assert(after[i] == names[i]);
            if i == 0 {
                assert(name_order(names[0], name) <= 0);
            }
        } else {
            let a = if i < p {
                i
            } else {
                i - 1
            };
            let b = if j < p {
                j
            } else {
                j - 1
            };
            assert(after[i] == names[a] && after[j] == names[b]);
        }
    }
}

/// What holds of names that were inserted one by one, where all of them differ.
proof fn lemma_all_inserted(done: Seq<Seq<u8>>, names: Seq<Seq<u8>>)
    requires
        strictly_in_order(done),
        all_different(names),
        forall|i: int, k: int|
            0 <= i < done.len() && 0 <= k < names.len() ==> name_order(
                #[trigger] done[i],
                #[trigger] names[k],
            ) != 0,
    ensures
        strictly_in_order(all_inserted(done, names)),
        forall|x: Seq<u8>| #[trigger]
            all_inserted(done, names).contains(x) <==> done.contains(x) || names.contains(x),
    decreases names.len(),
{
    if names.len() > 0 {
        let name = names[0];
        let rest = names.skip(1);
        let next = with_name(done, name);
        lemma_strict_insertion(done, name);
        let p = insertion_place(done, name);
        assert forall|i: int, k: int|
            0 <= i < next.len() && 0 <= k < rest.len() implies name_order(
            #[trigger] next[i],
            #[trigger] rest[k],
        ) != 0 by {
            assert(rest[k] == names[k + 1]);
            if i < p {
                assert(next[i] == done[i]);
            } else if i > p {
                assert(next[i] == done[i - 1]);
            }
        }
        assert forall|i: int, j: int|
            0 <= i < rest.len() && 0 <= j < rest.len() && i != j implies name_order(
            #[trigger] rest[i],
            #[trigger] rest[j],
        ) != 0 by {
            assert(rest[i] == names[i + 1] && rest[j] == names[j + 1]);
        }
        lemma_all_inserted(next, rest);
        assert forall|x: Seq<u8>| #[trigger]
            all_inserted(done, names).contains(x) <==> done.contains(x) || names.contains(x) by {
            lemma_insert_contains(done, p, name, x);
            lemma_head_contains(names, x);
        }
    }
}

proof fn lemma_insert_contains<A>(s: Seq<A>, p: int, a: A, x: A)
    requires
        0 <= p <= s.len(),
    ensures
        s.insert(p, a).contains(x) <==> s.contains(x) || x == a,
{
    let after = s.insert(p, a);
    if s.contains(x) {
        let i = choose|i: int| 0 <= i < s.len() && s[i] == x;
        if i < p {
            assert(after[i] == x);
        } else {
            assert(after[i + 1] == x);
        }
    }
    if x == a {
        assert(after[p] == x);
    }
    if after.contains(x) {
        let i = choose|i: int| 0 <= i < after.len() && after[i] == x;
        if i < p {
            assert(s[i] == x);
        } else if i > p {
            assert(s[i - 1] == x);
        }
    }
}

proof fn lemma_head_contains<A>(s: Seq<A>, x: A)
    requires
        s.len() > 0,
    ensures
        s.contains(x) <==> x == s[0] || s.skip(1).contains(x),
{
    if s.contains(x) {
        let i = choose|i: int| 0 <= i < s.len() && s[i] == x;
        if i > 0 {
            assert(s.skip(1)[i - 1] == x);
        }
    }
    if s.skip(1).contains(x) {
        let i = choose|i: int| 0 <= i < s.skip(1).len() && s.skip(1)[i] == x;
        assert(s[i + 1] == x);
    }
}

/// Names that stand strictly in order are fixed by which names there are.
proof fn lemma_order_is_unique(a: Seq<Seq<u8>>, b: Seq<Seq<u8>>)
    requires
        strictly_in_order(a),
        strictly_in_order(b),
        forall|x: Seq<u8>| #[trigger] a.contains(x) <==> b.contains(x),
    ensures
        a == b,
    decreases a.len(),
{
    if a.len() == 0 {
        if b.len() > 0 {
            assert(b.contains(b[0]));
            assert(a.contains(b[0]));
        }
        assert(a =~= b);
    } else {
        assert(a.contains(a[0]));
        assert(b.len() > 0);
        lemma_last_is_last(a, b);
        lemma_last_is_last(b, a);
        let last = a.last();
        assert(b.last() == last) by {
            lemma_order_antisymmetric(a.last(), b.last(), 0);
        }
        let front = a.drop_last();
        let other = b.drop_last();
        assert forall|x: Seq<u8>| #[trigger] front.contains(x) <==> other.contains(x) by {
            lemma_front_contains(a, x);
            lemma_front_contains(b, x);
        }
        lemma_order_is_unique(front, other);
        assert(a =~= front.push(last));
        assert(b =~= other.push(last));
    }
}

/// The last name of `a` is the last name of `b` or comes before it.
proof fn lemma_last_is_last(a: Seq<Seq<u8>>, b: Seq<Seq<u8>>)
    requires
        a.len() > 0,
        b.len() > 0,
        strictly_in_order(b),
        forall|x: Seq<u8>| #[trigger] a.contains(x) <==> b.contains(x),
    ensures
        a.last() == b.last() || name_order(a.last(), b.last()) < 0,
{
    assert(a.contains(a.last())) by {
        assert(a[a.len() - 1] == a.last());
    }
    let i = choose|i: int| 0 <= i < b.len() && b[i] == a.last();
    if i < b.len() - 1 {
        assert(name_order(b[i], b[b.len() - 1]) < 0);
    }
}

proof fn lemma_front_contains(s: Seq<Seq<u8>>, x: Seq<u8>)
    requires
        s.len() > 0,
        strictly_in_order(s),
    ensures
        s.drop_last().contains(x) <==> s.contains(x) && x != s.last(),
{
    let front = s.drop_last();
    if front.contains(x) {
        let i = choose|i: int| 0 <= i < front.len() && front[i] == x;
        assert(s[i] == x);
        assert(name_order(s[i], s[s.len() - 1]) < 0);
        lemma_order_antisymmetric(x, x, 0);
    }
    if s.contains(x) && x != s.last() {
        let i = choose|i: int| 0 <= i < s.len() && s[i] == x;
        assert(front[i] == x);
    }
}

/// The functions of modules that are the same stand in one order.
proof fn lemma_same_arranged(a: ModuleModel, b: ModuleModel)
    requires
        same_module(a, b),
        all_different(a.functions),
        all_different(b.functions),
    ensures
        arranged(a) == arranged(b),
{
    lemma_all_inserted(Seq::empty(), a.functions);
    lemma_all_inserted(Seq::empty(), b.functions);
    let left = arranged(a).functions;
    let right = arranged(b).functions;
    assert forall|x: Seq<u8>| #[trigger] left.contains(x) <==> right.contains(x) by {
        a.functions.to_multiset_ensures();
        b.functions.to_multiset_ensures();
        assert(a.functions.contains(x) <==> a.functions.to_multiset().count(x) > 0);
        assert(b.functions.contains(x) <==> b.functions.to_multiset().count(x) > 0);
        assert(right.contains(x) <==> b.functions.contains(x));
    }
    lemma_order_is_unique(left, right);
}

/// What holds of modules that were inserted one by one, where all their names differ.
proof fn lemma_all_modules_inserted(done: Seq<ModuleModel>, modules: Seq<ModuleModel>)
    requires
        strictly_in_order(module_names(done)),
        all_different(module_names(modules)),
        forall|i: int, k: int|
            0 <= i < done.len() && 0 <= k < modules.len() ==> name_order(
                (#[trigger] done[i]).name,
                (#[trigger] modules[k]).name,
            ) != 0,
    ensures
        strictly_in_order(module_names(all_modules_inserted(done, modules))),
        forall|x: ModuleModel| #[trigger]
            all_modules_inserted(done, modules).contains(x) <==> done.contains(x)
                || modules.map_values(|m: ModuleModel| arranged(m)).contains(x),
    decreases modules.len(),
{
    let models = modules.map_values(|m: ModuleModel| arranged(m));
    if modules.len() > 0 {
        let module = arranged(modules[0]);
        let rest = modules.skip(1);
        let names = module_names(done);
        let next = with_module(done, module);
        assert forall|i: int| 0 <= i < names.len() implies name_order(
            #[trigger] names[i],
            module.name,
        ) != 0 by {
            assert(names[i] == done[i].name);
        }
        lemma_strict_insertion(names, module.name);
        let p = insertion_place(names, module.name);
        assert(module_names(next) =~= with_name(names, module.name));
        assert forall|i: int, k: int|
            0 <= i < next.len() && 0 <= k < rest.len() implies name_order(
            (#[trigger] next[i]).name,
            (#[trigger] rest[k]).name,
        ) != 0 by {
            assert(rest[k] == modules[k + 1]);
            if i < p {
                assert(next[i] == done[i]);
            } else if i > p {
                assert(next[i] == done[i - 1]);
            } else {
                assert(module_names(modules)[0] == modules[0].name);
                assert(module_names(modules)[k + 1] == modules[k + 1].name);
            }
        }
        assert forall|i: int, j: int|
            0 <= i < rest.len() && 0 <= j < rest.len() && i != j implies name_order(
            #[trigger] module_names(rest)[i],
            #[trigger] module_names(rest)[j],
        ) != 0 by {
            assert(module_names(rest)[i] == module_names(modules)[i + 1]);
            assert(module_names(rest)[j] == module_names(modules)[j + 1]);
        }
        lemma_all_modules_inserted(next, rest);
        assert(models.skip(1) =~= rest.map_values(|m: ModuleModel| arranged(m)));
        assert forall|x: ModuleModel| #[trigger]
            all_modules_inserted(done, modules).contains(x) <==> done.contains(x)
                || models.contains(x) by {
            lemma_insert_contains(done, p, module, x);
            lemma_head_contains(models, x);
        }
    }
}

proof fn lemma_among_arranged(a: Seq<ModuleModel>, b: Seq<ModuleModel>, x: ModuleModel)
    requires
        imports_differ(a),
        imports_differ(b),
        all_among(a, b),
        a.map_values(|m: ModuleModel| arranged(m)).contains(x),
    ensures
        b.map_values(|m: ModuleModel| arranged(m)).contains(x),
{
    let left = a.map_values(|m: ModuleModel| arranged(m));
    let right = b.map_values(|m: ModuleModel| arranged(m));
    let i = choose|i: int| 0 <= i < left.len() && left[i] == x;
    assert(left[i] == arranged(a[i]));
    let j = choose|j: int| 0 <= j < b.len() && same_module(a[i], #[trigger] b[j]);
    lemma_same_arranged(a[i], b[j]);
    assert(right[j] == x);
}

/// Modules that stand strictly in order are fixed by which modules there are.
proof fn lemma_modules_are_unique(a: Seq<ModuleModel>, b: Seq<ModuleModel>)
    requires
        strictly_in_order(module_names(a)),
        strictly_in_order(module_names(b)),
        forall|x: ModuleModel| #[trigger] a.contains(x) <==> b.contains(x),
    ensures
        a == b,
{
    let left = module_names(a);
    let right = module_names(b);
    assert forall|x: Seq<u8>| #[trigger] left.contains(x) <==> right.contains(x) by {
        if left.contains(x) {
            let i = choose|i: int| 0 <= i < left.len() && left[i] == x;
            assert(a.contains(a[i]));
            let j = choose|j: int| 0 <= j < b.len() && b[j] == a[i];
            assert(right[j] == x);
        }
        if right.contains(x) {
            let i = choose|i: int| 0 <= i < right.len() && right[i] == x;
            assert(b.contains(b[i]));
            assert(a.contains(b[i]));
            let j = choose|j: int| 0 <= j < a.len() && a[j] == b[i];
            assert(left[j] == x);
        }
    }
    lemma_order_is_unique(left, right);
    assert(left.len() == a.len() && right.len() == b.len());
    assert forall|i: int| 0 <= i < a.len() implies a[i] == b[i] by {
        assert(a.contains(a[i]));
        let j = choose|j: int| 0 <= j < b.len() && b[j] == a[i];
        assert(right[j] == a[i].name);
        assert(left[i] == a[i].name);
        lemma_order_antisymmetric(left[i], left[i], 0);
        if j < i {
            assert(name_order(left[j], left[i]) < 0);
        } else if i < j {
            assert(name_order(left[i], left[j]) < 0);
        }
    }
    assert(a =~= b);
}

/// Imports by number, the order of modules, and the order of the functions of a module do not count:
/// where two images import the same functions by name from the same modules, and no names are equal
/// when the case of ASCII letters does not count, the bytes that are hashed are the same.
pub proof fn order_does_not_count(
    pe: PeHeaders,
    contents: Contents,
    other_pe: PeHeaders,
    other_contents: Contents,
)
    requires
        imports_of(pe, contents) is Some,
        imports_of(other_pe, other_contents) is Some,
        imports_differ(imports_of(pe, contents)->Some_0),
        imports_differ(imports_of(other_pe, other_contents)->Some_0),
        same_imports(
            imports_of(pe, contents)->Some_0,
            imports_of(other_pe, other_contents)->Some_0,
        ),
    ensures
        import_bytes(Some(pe), 1, contents) is Ok,
        import_bytes(Some(pe), 1, contents) == import_bytes(Some(other_pe), 1, other_contents),
{
    let a = imports_of(pe, contents)->Some_0;
    let b = imports_of(other_pe, other_contents)->Some_0;
    lemma_modules_listed(
        contents,
        pe.directories@[1].virtual_address,
        MAX_MODULES as nat,
        Seq::empty(),
    );
    lemma_modules_listed(
        other_contents,
        other_pe.directories@[1].virtual_address,
        MAX_MODULES as nat,
        Seq::empty(),
    );
    lemma_all_modules_inserted(Seq::empty(), a);
    lemma_all_modules_inserted(Seq::empty(), b);
    let left = all_modules_inserted(Seq::empty(), a);
    let right = all_modules_inserted(Seq::empty(), b);
    assert forall|x: ModuleModel| #[trigger] left.contains(x) <==> right.contains(x) by {
        if left.contains(x) {
            lemma_among_arranged(a, b, x);
        }
        if right.contains(x) {
            lemma_among_arranged(b, a, x);
        }
    }
    lemma_modules_are_unique(left, right);
}

/// The hashed bytes exist exactly where the imports can be listed.
pub proof fn listed_imports_are_hashed(pe: PeHeaders, contents: Contents)
    ensures
        import_bytes(Some(pe), 1, contents) is Ok <==> imports_of(pe, contents) is Some,
{
    lemma_modules_listed(
        contents,
        pe.directories@[1].virtual_address,
        MAX_MODULES as nat,
        Seq::empty(),
    );
}

/// Read the functions imported by name from a table.
fn read_functions<B: Fn(u32, usize) -> Option<Vec<u8>>, T: Fn(u32) -> Option<Vec<u8>>>(
    table: u32,
    bytes_at: &B,
    text_at: &T,
) -> (r: Option<Vec<Vec<u8>>>)
    requires
        looks_up_fully(*bytes_at, *text_at),
    ensures
        forall|contents: Contents| #[trigger]
            looks_up(*bytes_at, *text_at, contents) ==> crate::image_verify::listed(r)
                == functions_from(contents, table, 0, Seq::empty()),
{
    let mut functions: Vec<Vec<u8>> = Vec::new();
    assert(byte_texts(functions@) =~= Seq::empty());
    let mut index: usize = 0;
    while index < MAX_FUNCTIONS_PER_MODULE
        invariant
            index <= MAX_FUNCTIONS_PER_MODULE,
            looks_up_fully(*bytes_at, *text_at),
            forall|contents: Contents| #[trigger]
                looks_up(*bytes_at, *text_at, contents) ==> functions_from(
                    contents,
                    table,
                    0,
                    Seq::empty(),
                ) == functions_from(contents, table, index as int, byte_texts(functions@)),
        decreases MAX_FUNCTIONS_PER_MODULE - index,
    {
        let rva: u32 = match table.checked_add(index as u32 * 8) {
            Some(rva) => rva,
            None => {
                return None;
            },
        };
        let bytes = match bytes_at(rva, 8) {
            Some(bytes) => bytes,
            None => {
                return None;
            },
        };
        let thunk: u64 = get_u64(&bytes, 0);
        if thunk == 0 {
            return Some(functions);
        }
        if thunk < IMAGE_ORDINAL_FLAG64 {
            if thunk > 0xffff_fffd {
                return None;
            }
            match text_at(thunk as u32 + 2) {
                Some(name) => {
                    let _ = insert_nt5_sorted(&mut functions, name);
                },
                None => {
                    return None;
                },
            }
        }
        index += 1;
    }
    None
}

/// What a descriptor imports.
pub open spec fn described(r: Result<Option<CanonicalModule>, ()>) -> Result<
    Option<ModuleModel>,
    (),
> {
    match r {
        Ok(Some(module)) => Ok(Some(module@)),
        Ok(None) => Ok(None),
        Err(e) => Err(e),
    }
}

/// Read the module that a descriptor imports.
fn read_module<B: Fn(u32, usize) -> Option<Vec<u8>>, T: Fn(u32) -> Option<Vec<u8>>>(
    descriptor: &Vec<u8>,
    bytes_at: &B,
    text_at: &T,
) -> (r: Result<Option<CanonicalModule>, ()>)
    requires
        looks_up_fully(*bytes_at, *text_at),
        descriptor@.len() == IMPORT_DESCRIPTOR_SIZE,
    ensures
        forall|contents: Contents| #[trigger]
            looks_up(*bytes_at, *text_at, contents) ==> described(r) == module_of(
                contents,
                descriptor@,
            ),
{
    let lookup: u32 = get_u32(descriptor, 0);
    let name_rva: u32 = get_u32(descriptor, 12);
    let bound: u32 = get_u32(descriptor, 16);
    if name_rva == 0 || bound == 0 {
        return Ok(None);
    }
    let name = match text_at(name_rva) {
        Some(name) => name,
        None => {
            return Err(());
        },
    };
    let table: u32 = if lookup != 0 {
        lookup
    } else {
        bound
    };
    match read_functions(table, bytes_at, text_at) {
        Some(functions) => Ok(Some(CanonicalModule { name, functions })),
        None => Err(()),
    }
}

/// The modules of a list.
pub open spec fn modules_listed(modules: Option<Vec<CanonicalModule>>) -> Option<Seq<ModuleModel>> {
    match modules {
        Some(modules) => Some(module_models(modules@)),
        None => None,
    }
}

/// Read the modules that the descriptors from `start` on import.
fn read_modules<B: Fn(u32, usize) -> Option<Vec<u8>>, T: Fn(u32) -> Option<Vec<u8>>>(
    start: u32,
    bytes_at: &B,
    text_at: &T,
) -> (r: Option<Vec<CanonicalModule>>)
    requires
        looks_up_fully(*bytes_at, *text_at),
    ensures
        forall|contents: Contents| #[trigger]
            looks_up(*bytes_at, *text_at, contents) ==> modules_listed(r) == modules_from(
                contents,
                start,
                MAX_MODULES as nat,
                Seq::empty(),
            ),
{
    let mut modules: Vec<CanonicalModule> = Vec::new();
    assert(module_models(modules@) =~= Seq::empty());
    let mut rva: u32 = start;
    let mut left: usize = MAX_MODULES;
    while left > 0
        invariant
            left <= MAX_MODULES,
            looks_up_fully(*bytes_at, *text_at),
            forall|contents: Contents| #[trigger]
                looks_up(*bytes_at, *text_at, contents) ==> modules_from(
                    contents,
                    start,
                    MAX_MODULES as nat,
                    Seq::empty(),
                ) == modules_from(contents, rva, left as nat, module_models(modules@)),
        decreases left,
    {
        let descriptor = match bytes_at(rva, IMPORT_DESCRIPTOR_SIZE as usize) {
            Some(descriptor) => descriptor,
            None => {
                return None;
            },
        };
        match read_module(&descriptor, bytes_at, text_at) {
            Ok(Some(module)) => {
                insert_module_nt5_sorted(&mut modules, module);
            },
            Ok(None) => {
                return Some(modules);
            },
            Err(_) => {
                return None;
            },
        }
        rva =
        match rva.checked_add(IMPORT_DESCRIPTOR_SIZE) {
            Some(next) => next,
            None => {
                return None;
            },
        };
        left -= 1;
    }
    None
}

/// The bytes that stand for modules.
fn join_modules(modules: &Vec<CanonicalModule>) -> (out: Vec<u8>)
    ensures
        out@ == canonical_bytes(module_models(modules@)),
{
    let ghost models = module_models(modules@);
    let mut out: Vec<u8> = Vec::new();
    let mut i: usize = 0;
    assert(out@ =~= canonical_bytes(models.take(0)));
    while i < modules.len()
        invariant
            i <= modules@.len(),
            models == module_models(modules@),
            out@ == canonical_bytes(models.take(i as int)),
        decreases modules@.len() - i,
    {
        let module = &modules[i];
        let ghost names = byte_texts(module.functions@);
        assert(models.take(i + 1).drop_last() =~= models.take(i as int));
        assert(models.take(i + 1).last() == module@);
        push_bytes(&mut out, &module.name);
        let ghost head = out@;
        let mut k: usize = 0;
        assert(out@ =~= head + joined(names.take(0)));
        while k < module.functions.len()
            invariant
                k <= module.functions@.len(),
                names == byte_texts(module.functions@),
                out@ == head + joined(names.take(k as int)),
            decreases module.functions@.len() - k,
        {
            assert(names.take(k + 1).drop_last() =~= names.take(k as int));
            assert(names.take(k + 1).last() == module.functions@[k as int]@);
            push_bytes(&mut out, &module.functions[k]);
            k += 1;
            assert(out@ =~= head + joined(names.take(k as int)));
        }
        assert(names.take(k as int) =~= names);
        i += 1;
    }
    assert(models.take(i as int) =~= models);
    out
}

/// The bytes that are hashed for an import table, given the headers of the image, where they are
/// valid, and lookups into its contents.
pub fn canonical_import_bytes<B: Fn(u32, usize) -> Option<Vec<u8>>, T: Fn(u32) -> Option<Vec<u8>>>(
    headers: Option<&PeHeaders>,
    revision: u32,
    bytes_at: &B,
    text_at: &T,
) -> (r: Result<Vec<u8>, ImportTableHashError>)
    requires
        looks_up_fully(*bytes_at, *text_at),
    ensures
        revision != 1 <==> r == Err::<Vec<u8>, ImportTableHashError>(
            ImportTableHashError::UnknownRevision,
        ),
        headers is None && revision == 1 ==> r == Err::<Vec<u8>, ImportTableHashError>(
            ImportTableHashError::ResourceDataNotFound,
        ),
        forall|contents: Contents| #[trigger]
            looks_up(*bytes_at, *text_at, contents) ==> match import_bytes(
                match headers {
                    Some(pe) => Some(*pe),
                    None => None,
                },
                revision,
                contents,
            ) {
                Ok(bytes) => r matches Ok(v) && v@ == bytes,
                Err(e) => r == Err::<Vec<u8>, ImportTableHashError>(e),
            },
{
    if revision != 1 {
        return Err(ImportTableHashError::UnknownRevision);
    }
    let pe = match headers {
        Some(pe) => pe,
        None => {
            return Err(ImportTableHashError::ResourceDataNotFound);
        },
    };
    let directory = pe.directories[IMPORT_DIRECTORY_INDEX];
    if directory.virtual_address == 0 || directory.size == 0 {
        return Err(ImportTableHashError::ResourceDataNotFound);
    }
    match read_modules(directory.virtual_address, bytes_at, text_at) {
        Some(modules) => Ok(join_modules(&modules)),
        None => Err(ImportTableHashError::ResourceNameNotFound),
    }
}

/// Whether a digest is one of some bytes.
pub open spec fn digests<D: FnOnce(&[u8]) -> [u8; 16]>(digest: D, bytes: Seq<u8>, d: [u8; 16]) -> bool {
    exists|v: &[u8]| v@ == bytes && #[trigger] call_ensures(digest, (v,), d)
}

/// The hash of an import table: the digest of its canonical bytes.
pub fn compute_import_table_hash<
    B: Fn(u32, usize) -> Option<Vec<u8>>,
    T: Fn(u32) -> Option<Vec<u8>>,
    D: FnOnce(&[u8]) -> [u8; 16],
>(
    headers: Option<&PeHeaders>,
    revision: u32,
    bytes_at: B,
    text_at: T,
    digest: D,
) -> (r: Result<[u8; 16], ImportTableHashError>)
    requires
        looks_up_fully(bytes_at, text_at),
        forall|v: &[u8]| #[trigger] call_requires(digest, (v,)),
    ensures
        revision != 1 <==> r == Err::<[u8; 16], ImportTableHashError>(
            ImportTableHashError::UnknownRevision,
        ),
        headers is None && revision == 1 ==> r == Err::<[u8; 16], ImportTableHashError>(
            ImportTableHashError::ResourceDataNotFound,
        ),
        forall|contents: Contents| #[trigger]
            looks_up(bytes_at, text_at, contents) ==> match import_bytes(
                match headers {
                    Some(pe) => Some(*pe),
                    None => None,
                },
                revision,
                contents,
            ) {
                Ok(bytes) => r matches Ok(d) && digests(digest, bytes, d),
                Err(e) => r == Err::<[u8; 16], ImportTableHashError>(e),
            },
{
    match canonical_import_bytes(headers, revision, &bytes_at, &text_at) {
        Ok(bytes) => Ok(digest(bytes.as_slice())),
        Err(e) => Err(e),
    }
}

} // verus!
