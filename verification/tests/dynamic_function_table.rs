use nt_ntdll::dynamic_function_table::{
    DynamicFunctionTables, DynamicLookup, RF_CALLBACK, RF_UNSORTED,
};
use nt_ntdll::exception::RuntimeFunction;

const NO_ROWS: fn(u64, u32) -> RuntimeFunction = |_, _| unreachable!();

/// Looks an address up as a caller does that can call callbacks: the row, by its table and index,
/// or what the callback gives. The base is only written where something knows the address.
fn lookup(
    tables: &DynamicFunctionTables,
    pc: u64,
    base: &mut u64,
    rows: impl Fn(u64, u32) -> RuntimeFunction,
    callback: impl Fn(u64, u64, u64) -> Option<RuntimeFunction>,
) -> Option<RuntimeFunction> {
    match tables.lookup(pc, rows) {
        DynamicLookup::Miss => None,
        DynamicLookup::Row { row, image_base, .. } => {
            *base = image_base;
            Some(row)
        }
        DynamicLookup::Callback {
            callback: address,
            context,
            image_base,
        } => {
            *base = image_base;
            callback(address, pc, context)
        }
    }
}

fn no_callback(_: u64, _: u64, _: u64) -> Option<RuntimeFunction> {
    unreachable!()
}

#[test]
fn unsorted_table_uses_original_rows_and_exact_boundaries() {
    let mut tables = DynamicFunctionTables::new();
    let rows = [
        RuntimeFunction {
            begin: 0x300,
            end: 0x380,
            unwind_info: 0x900,
        },
        RuntimeFunction {
            begin: 0x100,
            end: 0x180,
            unwind_info: 0x800,
        },
    ];
    let read = |table: u64, index: u32| {
        assert_eq!(table, 0xAAAA);
        rows[index as usize]
    };
    assert!(tables.add(0xAAAA, 2, 0x1_0000, read));
    let mut base = 0;
    assert_eq!(
        lookup(&tables, 0x1_0100, &mut base, read, no_callback),
        Some(rows[1])
    );
    assert_eq!(base, 0x1_0000);
    assert!(lookup(&tables, 0x1_0180, &mut base, read, no_callback).is_none());
    assert_eq!(
        tables.lookup(0x1_037f, read),
        DynamicLookup::Row {
            function_table: 0xAAAA,
            index: 0,
            row: rows[0],
            image_base: 0x1_0000,
        }
    );
    assert!(lookup(&tables, 0x1_0380, &mut base, read, no_callback).is_none());
    let entry = &tables.list_head()[0];
    assert_eq!(entry.minimum_address, 0x1_0100);
    assert_eq!(entry.maximum_address, 0x1_0380);
    assert_eq!(entry.table_type, RF_UNSORTED);
}

#[test]
fn unaligned_function_table_is_supported() {
    let mut tables = DynamicFunctionTables::new();
    let row = RuntimeFunction {
        begin: 0x10,
        end: 0x20,
        unwind_info: 0x30,
    };
    let table = 0x4001;
    assert!(tables.add(table, 1, 0x4000, |_, _| row));
    assert_eq!(
        tables.lookup(0x4010, |_, _| row),
        DynamicLookup::Row {
            function_table: table,
            index: 0,
            row,
            image_base: 0x4000,
        }
    );
}

#[test]
fn duplicate_registration_deletes_one_at_a_time() {
    let mut tables = DynamicFunctionTables::new();
    let row = RuntimeFunction {
        begin: 0x10,
        end: 0x20,
        unwind_info: 0x30,
    };
    let table = 0x8000;
    assert!(tables.add(table, 1, 0x1000, |_, _| row));
    assert!(tables.add(table, 1, 0x1000, |_, _| row));
    assert!(tables.delete(table));
    let mut base = 0;
    assert_eq!(
        lookup(&tables, 0x1010, &mut base, |_, _| row, no_callback),
        Some(row)
    );
    assert!(tables.delete(table));
    assert!(!tables.delete(table));
}

#[test]
fn empty_table_is_linked_and_deletable() {
    let mut tables = DynamicFunctionTables::new();
    let marker = 0x1234;
    assert!(tables.add(marker, 0, 0x1000, NO_ROWS));
    assert_eq!(tables.list_head().len(), 1);
    assert!(tables.delete(marker));
    assert!(tables.list_head().is_empty());
}

#[test]
fn lookup_miss_preserves_image_base_output() {
    let tables = DynamicFunctionTables::new();
    let mut base = 0xDEAD_BEEF;
    assert!(lookup(&tables, 0x1234, &mut base, NO_ROWS, no_callback).is_none());
    assert_eq!(base, 0xDEAD_BEEF);
}

const CALLBACK_ROW: RuntimeFunction = RuntimeFunction {
    begin: 0x20,
    end: 0x40,
    unwind_info: 0x60,
};

fn callback(address: u64, pc: u64, context: u64) -> Option<RuntimeFunction> {
    assert_eq!(address, 0xF00D);
    assert_eq!(context, 0xCAFE);
    if pc == 0x2020 {
        Some(CALLBACK_ROW)
    } else {
        None
    }
}

#[test]
fn callback_validation_range_context_and_delete() {
    let mut tables = DynamicFunctionTables::new();
    assert!(!tables.install_callback(0x1000, 0x2000, 0x100, Some(0xF00D), 0, None));
    let dll = [b'j' as u16, b'i' as u16, b't' as u16, 0];
    assert!(tables.install_callback(0x1003, 0x2000, 0x100, Some(0xF00D), 0xCAFE, Some(&dll)));
    let mut base = 0;
    assert!(lookup(&tables, 0x2000, &mut base, NO_ROWS, callback).is_none());
    assert_eq!(base, 0x2000);
    assert_eq!(
        lookup(&tables, 0x2020, &mut base, NO_ROWS, callback),
        Some(CALLBACK_ROW)
    );
    assert_eq!(base, 0x2000);
    assert!(lookup(&tables, 0x2100, &mut base, NO_ROWS, callback).is_none());
    assert_eq!(tables.list_head()[0].table_type, RF_CALLBACK);
    assert!(tables.delete(0x1003));
}

#[test]
fn callback_dll_name_is_owned_by_registration() {
    let mut tables = DynamicFunctionTables::new();
    let mut dll = [b'j' as u16, b'i' as u16, b't' as u16, 0];
    assert!(tables.install_callback(0x3003, 0x5000, 0x100, None, 0, Some(&dll)));
    dll[0] = b'x' as u16;
    assert_eq!(dll[0], b'x' as u16);
    let copied = tables.list_head()[0].out_of_process_callback_dll.as_ref().unwrap();
    assert_eq!(copied, &[b'j' as u16, b'i' as u16, b't' as u16, 0]);
}

#[test]
fn callback_can_delete_its_registration() {
    let mut tables = DynamicFunctionTables::new();
    let identifier = 0x4003;
    assert!(tables.install_callback(identifier, 0x6000, 0x100, Some(0xBEEF), 0x77, None));
    let found = tables.lookup(0x6020, NO_ROWS);
    let row = match found {
        DynamicLookup::Callback { callback, context, .. } => {
            assert_eq!((callback, context), (0xBEEF, 0x77));
            assert!(tables.delete(identifier));
            Some(CALLBACK_ROW)
        }
        _ => None,
    };
    assert_eq!(row, Some(CALLBACK_ROW));
    assert!(!tables.delete(identifier));
}

#[test]
fn null_callback_does_not_hide_later_fixed_registration() {
    let mut tables = DynamicFunctionTables::new();
    assert!(tables.install_callback(0x6003, 0x7000, 0x100, None, 0, None));
    let row = RuntimeFunction {
        begin: 0x20,
        end: 0x40,
        unwind_info: 0x80,
    };
    let read = |table: u64, _: u32| {
        assert_eq!(table, 0x9000);
        row
    };
    assert!(tables.add(0x9000, 1, 0x7000, read));
    let mut base = 0;
    assert_eq!(
        lookup(&tables, 0x7020, &mut base, read, no_callback),
        Some(row)
    );
}
