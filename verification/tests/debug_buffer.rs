use nt_ntdll::debug_buffer::{CommitPlan, DEBUG_INFORMATION_SIZE, DEFAULT_VIEW_SIZE, HeapSnapshotPlan, LDR_DLL_BASE_OFFSET, LDR_FLAGS_OFFSET, LDR_FULL_DLL_NAME_OFFSET, LDR_IN_LOAD_ORDER_LIST_OFFSET, LDR_LOAD_COUNT_OFFSET, LDR_SIZE_OF_IMAGE_OFFSET, PAGE_SIZE, PEB_LDR_OFFSET, RTL_PROCESS_MODULES_HEADER_SIZE, RTL_PROCESS_MODULE_INFORMATION_SIZE, RemoteModuleLayoutError, RemoteModuleSnapshot, RemoteModuleSnapshotError, RtlHeapEntryDetails, heap_entry_from_walk, initial_information, plan_commit, plan_heap_snapshot, query_remote_process_modules, reservation_size};
use nt_ntdll::heap::{RTL_HEAP_BUSY, RTL_HEAP_SEGMENT, RTL_HEAP_SETTABLE_VALUE, RtlHeapWalkBlock, RtlHeapWalkDetails, RtlHeapWalkEntry, RtlHeapWalkSegment};

const TEST_READ_FAILURE: u32 = 0xc123_4567;

struct RemoteMemory {
    base: u64,
    bytes: Vec<u8>,
    fail_at: Option<u64>,
}

impl RemoteMemory {
    fn new(base: u64, size: usize) -> Self {
        Self {
            base,
            bytes: vec![0; size],
            fail_at: None,
        }
    }

    fn offset(&self, address: u64, length: usize) -> usize {
        let offset = usize::try_from(address - self.base).unwrap();
        assert!(offset.checked_add(length).unwrap() <= self.bytes.len());
        offset
    }

    fn write(&mut self, address: u64, bytes: &[u8]) {
        let offset = self.offset(address, bytes.len());
        self.bytes[offset..offset + bytes.len()].copy_from_slice(bytes);
    }

    fn write_u16(&mut self, address: u64, value: u16) {
        self.write(address, &value.to_le_bytes());
    }

    fn write_u32(&mut self, address: u64, value: u32) {
        self.write(address, &value.to_le_bytes());
    }

    fn write_u64(&mut self, address: u64, value: u64) {
        self.write(address, &value.to_le_bytes());
    }

    fn fetch(&mut self, address: u64, length: usize) -> Result<Vec<u8>, u32> {
        let mut output = vec![0; length];
        self.read(address, &mut output)?;
        Ok(output)
    }

    fn read(&mut self, address: u64, output: &mut [u8]) -> Result<(), u32> {
        let end = address.checked_add(output.len() as u64).unwrap();
        if self
            .fail_at
            .is_some_and(|failure| address <= failure && failure < end)
        {
            return Err(TEST_READ_FAILURE);
        }
        let Some(relative) = address.checked_sub(self.base) else {
            return Err(TEST_READ_FAILURE);
        };
        let Ok(offset) = usize::try_from(relative) else {
            return Err(TEST_READ_FAILURE);
        };
        let Some(bytes) = self.bytes.get(offset..offset.saturating_add(output.len())) else {
            return Err(TEST_READ_FAILURE);
        };
        output.copy_from_slice(bytes);
        Ok(())
    }
}

struct RemoteModulesFixture {
    memory: RemoteMemory,
    peb: u64,
    entries: Vec<u64>,
    names: Vec<u64>,
}

fn utf16(value: &str) -> Vec<u16> {
    value.encode_utf16().collect()
}

fn remote_modules_fixture(module_names: &[Vec<u16>]) -> RemoteModulesFixture {
    let base = 0x1000_0000;
    let peb = base + 0x100;
    let ldr = base + 0x400;
    let head = ldr + LDR_IN_LOAD_ORDER_LIST_OFFSET;
    let mut memory = RemoteMemory::new(base, 0x20_000);
    memory.write_u64(peb + PEB_LDR_OFFSET, ldr);

    let entries: Vec<u64> = (0..module_names.len())
        .map(|index| base + 0x1000 + index as u64 * 0x200)
        .collect();
    let names: Vec<u64> = (0..module_names.len())
        .map(|index| base + 0x8000 + index as u64 * 0x4000)
        .collect();
    let first = entries.first().copied().unwrap_or(head);
    let last = entries.last().copied().unwrap_or(head);
    memory.write_u64(head, first);
    memory.write_u64(head + 8, last);

    for (index, name) in module_names.iter().enumerate() {
        let entry = entries[index];
        let flink = entries.get(index + 1).copied().unwrap_or(head);
        let blink = index
            .checked_sub(1)
            .and_then(|previous| entries.get(previous).copied())
            .unwrap_or(head);
        let image_base = 0x2000_0000 + index as u64 * 0x10_0000;
        let name_bytes = name.len() * 2;

        memory.write_u64(entry, flink);
        memory.write_u64(entry + 8, blink);
        memory.write_u64(entry + LDR_DLL_BASE_OFFSET as u64, image_base);
        memory.write_u32(
            entry + LDR_SIZE_OF_IMAGE_OFFSET as u64,
            0x12_000 + index as u32 * 0x1000,
        );
        memory.write_u16(entry + LDR_FULL_DLL_NAME_OFFSET as u64, name_bytes as u16);
        memory.write_u16(
            entry + LDR_FULL_DLL_NAME_OFFSET as u64 + 2,
            name_bytes as u16,
        );
        memory.write_u64(entry + LDR_FULL_DLL_NAME_OFFSET as u64 + 8, names[index]);
        memory.write_u32(entry + LDR_FLAGS_OFFSET as u64, 0x1000_0000 | index as u32);
        memory.write_u16(entry + LDR_LOAD_COUNT_OFFSET as u64, 3 + index as u16);
        for (unit_index, unit) in name.iter().enumerate() {
            memory.write_u16(names[index] + unit_index as u64 * 2, *unit);
        }
    }

    RemoteModulesFixture {
        memory,
        peb,
        entries,
        names,
    }
}

#[test]
fn heap_snapshot_plan_checks_all_record_arithmetic() {
    assert_eq!(
        plan_heap_snapshot(2, 5),
        Some(HeapSnapshotPlan {
            heap_information_offset: 0x08,
            entries_offset: 0xb8,
            total_size: 0x158,
        })
    );
    assert_eq!(plan_heap_snapshot(usize::MAX, 0), None);
    assert_eq!(plan_heap_snapshot(0, usize::MAX), None);
}

#[test]
fn heap_walk_segment_converts_to_debug_segment() {
    let walk = RtlHeapWalkEntry {
        data_address: 0x1000,
        data_size: 0,
        overhead_bytes: 0,
        segment_index: 0,
        flags: RTL_HEAP_SEGMENT,
        details: RtlHeapWalkDetails::Segment(
            RtlHeapWalkSegment {
                committed_size: 0x3000,
                uncommitted_size: 0x1000,
                first_entry: 0x1040,
                last_entry: 0x5000,
            },
        ),
    };

    let converted = heap_entry_from_walk(&walk).unwrap();
    assert_eq!(converted.size, 0x4000);
    assert_eq!(converted.flags, RTL_HEAP_SEGMENT);
    assert_eq!(converted.allocator_back_trace_index, 0);
    let RtlHeapEntryDetails::Segment(details) = converted.details else {
        panic!("not a segment");
    };
    assert_eq!(details.committed_size, 0x3000);
    assert_eq!(details.first_block, 0x1040);
}

#[test]
fn heap_walk_busy_and_free_rows_convert_to_debug_blocks() {
    let mut walk = RtlHeapWalkEntry {
        data_address: 0x2040,
        data_size: 17,
        overhead_bytes: 47,
        segment_index: 0,
        flags: RTL_HEAP_BUSY | RTL_HEAP_SETTABLE_VALUE | 0x00a0,
        details: RtlHeapWalkDetails::Block(
            RtlHeapWalkBlock {
                settable: 0x1234,
                tag_index: 7,
                allocator_back_trace_index: 9,
                reserved: [0; 2],
            },
        ),
    };

    let busy = heap_entry_from_walk(&walk).unwrap();
    assert_eq!(busy.size, 64);
    assert_eq!(busy.flags, walk.flags);
    assert_eq!(busy.allocator_back_trace_index, 9);
    let RtlHeapEntryDetails::Block(details) = busy.details else {
        panic!("not a block");
    };
    assert_eq!(details.settable, 0x1234);
    assert_eq!(details.tag, 7);

    walk.data_size = 96;
    walk.overhead_bytes = 32;
    walk.flags = 0;
    walk.details = RtlHeapWalkDetails::Block(
        RtlHeapWalkBlock {
            settable: 0,
            tag_index: 0,
            allocator_back_trace_index: 0,
            reserved: [0; 2],
        },
    );
    let free = heap_entry_from_walk(&walk).unwrap();
    assert_eq!(free.size, 128);
    assert_eq!(free.flags, 0);
    let RtlHeapEntryDetails::Block(details) = free.details else {
        panic!("not a block");
    };
    assert_eq!(details.settable, 0);

    walk.flags = RTL_HEAP_SEGMENT | RTL_HEAP_BUSY;
    assert!(heap_entry_from_walk(&walk).is_none());
}

#[test]
fn reservation_sizes_match_native_rounding() {
    assert_eq!(reservation_size(0), Some(DEFAULT_VIEW_SIZE));
    assert_eq!(reservation_size(1), Some(PAGE_SIZE));
    assert_eq!(reservation_size(0x1000), Some(PAGE_SIZE));
    assert_eq!(reservation_size(0x1001), Some(0x2000));
}

#[test]
fn initial_header_owns_the_first_committed_page() {
    let base = 0x1234_0000usize;
    let info = initial_information(base, DEFAULT_VIEW_SIZE);
    assert_eq!(info.view_base_client, base);
    assert_eq!(info.offset_free, DEBUG_INFORMATION_SIZE);
    assert_eq!(info.commit_size, PAGE_SIZE);
    assert_eq!(info.view_size, DEFAULT_VIEW_SIZE);
    assert_eq!(info.flags, 0);
    assert_eq!(info.modules, 0);
}

#[test]
fn commit_plan_grows_by_pages_but_advances_by_requested_bytes() {
    let plan = plan_commit(0xff0, 0x1000, 0x4000, 0x30).unwrap();
    assert_eq!(
        plan,
        CommitPlan {
            result_offset: 0xff0,
            commit_offset: 0x1000,
            commit_size: 0x1000,
            new_commit_size: 0x2000,
            new_offset_free: 0x1020,
        }
    );
    assert_eq!(
        plan_commit(0xd0, 0x1000, 0x1000, 0x20).unwrap().commit_size,
        0
    );
}

#[test]
fn commit_plan_rejects_view_and_integer_overflow() {
    assert_eq!(plan_commit(0xff0, 0x1000, 0x1000, 0x20), None);
    assert_eq!(plan_commit(usize::MAX, usize::MAX, usize::MAX, 1), None);
    assert_eq!(plan_commit(0x2000, 0x1000, 0x4000, 1), None);
}

#[test]
fn remote_module_snapshot_handles_empty_loader_list() {
    let mut fixture = remote_modules_fixture(&[]);
    let sizing = query_remote_process_modules(fixture.peb, None, |address, length| {
        fixture.memory.fetch(address, length)
    })
    .unwrap();
    assert_eq!(
        sizing,
        RemoteModuleSnapshot {
            module_count: 0,
            required_size: RTL_PROCESS_MODULES_HEADER_SIZE,
        }
    );

    let mut output = [0xaa; RTL_PROCESS_MODULES_HEADER_SIZE];
    let encoded =
        query_remote_process_modules(fixture.peb, Some(&mut output), |address, length| {
        fixture.memory.fetch(address, length)
    })
        .unwrap();
    assert_eq!(encoded, sizing);
    assert_eq!(output, [0; RTL_PROCESS_MODULES_HEADER_SIZE]);
}

#[test]
fn remote_module_snapshot_encodes_exact_x64_row_fields() {
    let name = utf16(r"\SystemRoot\system32\kernel32.dll");
    let expected_offset = name.iter().rposition(|unit| *unit == b'\\' as u16).unwrap() + 1;
    let mut fixture = remote_modules_fixture(&[name.clone()]);
    let required = RTL_PROCESS_MODULES_HEADER_SIZE + RTL_PROCESS_MODULE_INFORMATION_SIZE;
    let mut output = vec![0xcc; required];
    let snapshot =
        query_remote_process_modules(fixture.peb, Some(&mut output), |address, length| {
        fixture.memory.fetch(address, length)
    })
        .unwrap();

    assert_eq!(snapshot.module_count, 1);
    assert_eq!(snapshot.required_size, required);
    assert_eq!(u32::from_le_bytes(output[0..4].try_into().unwrap()), 1);
    let row = &output[RTL_PROCESS_MODULES_HEADER_SIZE..];
    assert_eq!(u64::from_le_bytes(row[0..8].try_into().unwrap()), 0);
    assert_eq!(u64::from_le_bytes(row[8..16].try_into().unwrap()), 0);
    assert_eq!(
        u64::from_le_bytes(row[0x10..0x18].try_into().unwrap()),
        0x2000_0000
    );
    assert_eq!(
        u32::from_le_bytes(row[0x18..0x1c].try_into().unwrap()),
        0x12_000
    );
    assert_eq!(
        u32::from_le_bytes(row[0x1c..0x20].try_into().unwrap()),
        0x1000_0000
    );
    assert_eq!(u16::from_le_bytes(row[0x20..0x22].try_into().unwrap()), 0);
    assert_eq!(u16::from_le_bytes(row[0x22..0x24].try_into().unwrap()), 0);
    assert_eq!(u16::from_le_bytes(row[0x24..0x26].try_into().unwrap()), 3);
    assert_eq!(
        u16::from_le_bytes(row[0x26..0x28].try_into().unwrap()),
        expected_offset as u16
    );
    let expected_path: Vec<u8> = name.iter().map(|unit| *unit as u8).collect();
    assert_eq!(&row[0x28..0x28 + expected_path.len()], &expected_path);
    assert_eq!(row[0x28 + expected_path.len()], 0);
}

#[test]
fn remote_module_snapshot_sizes_and_indexes_two_modules() {
    let mut fixture = remote_modules_fixture(&[
        utf16(r"\SystemRoot\system32\ntdll.dll"),
        utf16(r"\SystemRoot\system32\kernel32.dll"),
    ]);
    let required = RTL_PROCESS_MODULES_HEADER_SIZE + 2 * RTL_PROCESS_MODULE_INFORMATION_SIZE;
    let sizing = query_remote_process_modules(fixture.peb, None, |address, length| {
        fixture.memory.fetch(address, length)
    })
    .unwrap();
    assert_eq!(sizing.module_count, 2);
    assert_eq!(sizing.required_size, required);

    let mut output = vec![0; required];
    query_remote_process_modules(fixture.peb, Some(&mut output), |address, length| {
        fixture.memory.fetch(address, length)
    })
    .unwrap();
    let second = RTL_PROCESS_MODULES_HEADER_SIZE + RTL_PROCESS_MODULE_INFORMATION_SIZE;
    assert_eq!(
        u16::from_le_bytes(output[second + 0x20..second + 0x22].try_into().unwrap()),
        1
    );
    assert_eq!(
        u16::from_le_bytes(output[second + 0x24..second + 0x26].try_into().unwrap()),
        4
    );
}

#[test]
fn remote_module_snapshot_truncates_path_and_keeps_stored_filename_offset() {
    let mut name = vec![b'a' as u16; 300];
    name[200] = b'\\' as u16;
    name[270] = b'\\' as u16;
    let mut fixture = remote_modules_fixture(&[name]);
    let required = RTL_PROCESS_MODULES_HEADER_SIZE + RTL_PROCESS_MODULE_INFORMATION_SIZE;
    let mut output = vec![0; required];
    query_remote_process_modules(fixture.peb, Some(&mut output), |address, length| {
        fixture.memory.fetch(address, length)
    })
    .unwrap();

    let row = &output[RTL_PROCESS_MODULES_HEADER_SIZE..];
    assert_eq!(u16::from_le_bytes(row[0x26..0x28].try_into().unwrap()), 201);
    assert_eq!(row[0x28 + 200], b'\\');
    assert_eq!(row[0x28 + 254], b'a');
    assert_eq!(row[0x28 + 255], 0);
}

#[test]
fn remote_module_snapshot_distinguishes_output_capacity() {
    let mut fixture = remote_modules_fixture(&[utf16("ntdll.dll")]);
    let required = RTL_PROCESS_MODULES_HEADER_SIZE + RTL_PROCESS_MODULE_INFORMATION_SIZE;
    let mut output = vec![0; required - 1];
    assert_eq!(
        query_remote_process_modules(fixture.peb, Some(&mut output), |address, length| {
        fixture.memory.fetch(address, length)
    }),
        Err(RemoteModuleSnapshotError::BufferTooSmall { required })
    );
}

#[test]
fn remote_module_snapshot_rejects_null_cycle_broken_link_and_name() {
    let mut null_ldr = remote_modules_fixture(&[]);
    null_ldr.memory.write_u64(null_ldr.peb + PEB_LDR_OFFSET, 0);
    assert!(matches!(
        query_remote_process_modules(null_ldr.peb, None, |address, length| {
        null_ldr.memory.fetch(address, length)
    }),
        Err(RemoteModuleSnapshotError::Malformed(
            RemoteModuleLayoutError::InvalidAddress
        ))
    ));

    let mut cycle = remote_modules_fixture(&[utf16("one.dll")]);
    cycle.memory.write_u64(cycle.entries[0], cycle.entries[0]);
    assert!(matches!(
        query_remote_process_modules(cycle.peb, None, |address, length| {
        cycle.memory.fetch(address, length)
    }),
        Err(RemoteModuleSnapshotError::Malformed(
            RemoteModuleLayoutError::InvalidList
        ))
    ));

    let mut broken_link = remote_modules_fixture(&[utf16("one.dll")]);
    broken_link.memory.write_u64(broken_link.entries[0] + 8, 0);
    assert!(matches!(
        query_remote_process_modules(broken_link.peb, None, |address, length| {
        broken_link.memory.fetch(address, length)
    }),
        Err(RemoteModuleSnapshotError::Malformed(
            RemoteModuleLayoutError::InvalidList
        ))
    ));

    let mut invalid_name = remote_modules_fixture(&[utf16("one.dll")]);
    invalid_name
        .memory
        .write_u16(invalid_name.entries[0] + LDR_FULL_DLL_NAME_OFFSET as u64, 3);
    assert!(matches!(
        query_remote_process_modules(invalid_name.peb, None, |address, length| {
        invalid_name.memory.fetch(address, length)
    }),
        Err(RemoteModuleSnapshotError::Malformed(
            RemoteModuleLayoutError::InvalidUnicodeString
        ))
    ));
}

#[test]
fn remote_module_snapshot_preserves_reader_status() {
    let mut fixture = remote_modules_fixture(&[utf16("ntdll.dll")]);
    fixture.memory.fail_at = Some(fixture.names[0]);
    assert_eq!(
        query_remote_process_modules(fixture.peb, None, |address, length| {
        fixture.memory.fetch(address, length)
    }),
        Err(RemoteModuleSnapshotError::Read(TEST_READ_FAILURE))
    );
}

#[test]
fn a_module_without_a_size_is_refused() {
    let mut fixture = remote_modules_fixture(&[utf16("one.dll")]);
    fixture
        .memory
        .write_u32(fixture.entries[0] + LDR_SIZE_OF_IMAGE_OFFSET as u64, 0);
    let mut output = vec![0; 0x400];
    assert_eq!(
        query_remote_process_modules(fixture.peb, Some(&mut output), |address, length| {
            fixture.memory.fetch(address, length)
        }),
        Err(RemoteModuleSnapshotError::Malformed(
            RemoteModuleLayoutError::InvalidModule
        ))
    );
}

#[test]
fn a_list_that_grows_between_two_walks_is_noticed() {
    let mut fixture = remote_modules_fixture(&[utf16("one.dll"), utf16("two.dll")]);
    let head = fixture.memory.base + 0x400 + LDR_IN_LOAD_ORDER_LIST_OFFSET;
    let (first, second) = (fixture.entries[0], fixture.entries[1]);
    fixture.memory.write_u64(first, head);
    fixture.memory.write_u64(head + 8, first);
    let required = RTL_PROCESS_MODULES_HEADER_SIZE + RTL_PROCESS_MODULE_INFORMATION_SIZE;
    let mut output = vec![0; required];
    let mut walks = 0;
    let peb = fixture.peb;
    let result = query_remote_process_modules(peb, Some(&mut output), |address, length| {
        if address == peb + PEB_LDR_OFFSET {
            walks += 1;
            if walks == 2 {
                fixture.memory.write_u64(first, second);
                fixture.memory.write_u64(head + 8, second);
            }
        }
        fixture.memory.fetch(address, length)
    });
    assert_eq!(
        result,
        Err(RemoteModuleSnapshotError::Malformed(
            RemoteModuleLayoutError::SnapshotChanged
        ))
    );
}
