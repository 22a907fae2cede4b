use nt_ntdll::activation::{STATUS_BUFFER_TOO_SMALL};
use nt_ntdll::STATUS_INVALID_PARAMETER;
use std::mem::size_of;
use nt_ntdll::activation_query::{runlevel_required_size, ActivationContextDetailedInformation64, ActivationContextAssemblyDetailedInformation64, ASSEMBLY_DETAILED_INFORMATION_POINTER_FIELDS, AssemblyFileDetailedInformation64, ASSEMBLY_FILE_DETAILED_INFORMATION_POINTER_FIELDS, ActivationContextRunLevelInformation, ActivationContextCompatibilityInformationHeader, ACTCTX_COMPATIBILITY_ELEMENT_TYPE_MITIGATION, ACTCTX_COMPATIBILITY_ELEMENT_TYPE_OS, ACTCTX_COMPATIBILITY_ELEMENT_TYPE_UNKNOWN, ACTCTX_RUN_LEVEL_AS_INVOKER, ACTCTX_RUN_LEVEL_HIGHEST_AVAILABLE, ACTCTX_RUN_LEVEL_REQUIRE_ADMIN, ACTCTX_RUN_LEVEL_UNSPECIFIED, ACTIVATION_CONTEXT_PATH_TYPE_NONE, ACTIVATION_CONTEXT_PATH_TYPE_WIN32_FILE, ACTIVATION_CONTEXT_SECTION_DLL_REDIRECTION, ActivationContextQueryIndex, AssemblyDetailedQuery, CompatibilityContextElement, CompatibilityGuid, DETAILED_INFORMATION_POINTER_FIELDS, DetailedQuery, FileDetailedQuery, RunLevelQuery, STATUS_NO_MEMORY, assembly_detailed_required_size, checked_required_size, compatibility_required_size, detailed_required_size, file_detailed_required_size, pack_assembly_detailed, pack_assembly_detailed_into, pack_compatibility, pack_compatibility_into, pack_detailed, pack_detailed_into, pack_file_detailed, pack_file_detailed_into, pack_runlevel, pack_runlevel_into, validate_file_query_index, validate_roster_index};

fn wide(value: &str) -> Vec<u16> {
    value.encode_utf16().collect()
}

fn u32_at(buffer: &[u8], offset: usize) -> u32 {
    u32::from_le_bytes(buffer[offset..offset + 4].try_into().unwrap())
}

fn u16_at(buffer: &[u8], offset: usize) -> u16 {
    u16::from_le_bytes(buffer[offset..offset + 2].try_into().unwrap())
}

fn u64_at(buffer: &[u8], offset: usize) -> u64 {
    u64::from_le_bytes(buffer[offset..offset + 8].try_into().unwrap())
}

fn utf16_z_at(buffer: &[u8], offset: usize) -> Vec<u16> {
    let mut output = Vec::new();
    let mut cursor = offset;
    loop {
        let unit = u16::from_le_bytes(buffer[cursor..cursor + 2].try_into().unwrap());
        cursor += 2;
        if unit == 0 {
            return output;
        }
        output.push(unit);
    }
}

#[test]
fn x64_layouts_match_the_native_abi() {
    assert_eq!(size_of::<ActivationContextDetailedInformation64>(), 0x40);
    assert_eq!(DETAILED_INFORMATION_POINTER_FIELDS, [0x28, 0x30, 0x38]);
    assert_eq!(
        size_of::<ActivationContextAssemblyDetailedInformation64>(),
        0x68
    );
    assert_eq!(
        ASSEMBLY_DETAILED_INFORMATION_POINTER_FIELDS,
        [0x40, 0x48, 0x50, 0x58]
    );
    assert_eq!(size_of::<ActivationContextQueryIndex>(), 0x08);
    assert_eq!(size_of::<AssemblyFileDetailedInformation64>(), 0x20);
    assert_eq!(
        ASSEMBLY_FILE_DETAILED_INFORMATION_POINTER_FIELDS,
        [0x10, 0x18]
    );
    assert_eq!(size_of::<ActivationContextRunLevelInformation>(), 0x0c);
    assert_eq!(size_of::<CompatibilityGuid>(), 0x10);
    assert_eq!(size_of::<CompatibilityContextElement>(), 0x20);
    assert_eq!(
        size_of::<ActivationContextCompatibilityInformationHeader>(),
        0x08
    );
}

#[test]
fn empty_detailed_information_has_only_fixed_metadata() {
    let query = DetailedQuery {
        format_version: 0,
        assembly_count: 0,
        root_manifest_path_type: 0,
        root_manifest_path: None,
        root_configuration_path_type: ACTIVATION_CONTEXT_PATH_TYPE_NONE,
        root_configuration_path: None,
        application_directory_path_type: 0,
        application_directory_path: None,
    };
    let packed = pack_detailed(&query).unwrap();
    assert_eq!(packed.len(), 0x40);
    assert_eq!(u32_at(&packed, 0x14), ACTIVATION_CONTEXT_PATH_TYPE_NONE);
    for field in DETAILED_INFORMATION_POINTER_FIELDS {
        assert_eq!(u64_at(&packed, field), 0);
    }
}

#[test]
fn detailed_strings_are_nul_terminated_and_packed_in_abi_order() {
    let manifest = wide("C:\\app\\demo.exe");
    let config = wide("C:\\app\\demo.exe.config");
    let appdir = wide("C:\\app\\");
    let query = DetailedQuery {
        format_version: 1,
        assembly_count: 1,
        root_manifest_path_type: ACTIVATION_CONTEXT_PATH_TYPE_WIN32_FILE,
        root_manifest_path: Some(&manifest),
        root_configuration_path_type: ACTIVATION_CONTEXT_PATH_TYPE_WIN32_FILE,
        root_configuration_path: Some(&config),
        application_directory_path_type: ACTIVATION_CONTEXT_PATH_TYPE_WIN32_FILE,
        application_directory_path: Some(&appdir),
    };
    let packed = pack_detailed(&query).unwrap();
    let manifest_offset = 0x40;
    let config_offset = manifest_offset + (manifest.len() + 1) * 2;
    let appdir_offset = config_offset + (config.len() + 1) * 2;
    assert_eq!(packed.len(), appdir_offset + (appdir.len() + 1) * 2);
    assert_eq!(u32_at(&packed, 0x10), manifest.len() as u32);
    assert_eq!(u32_at(&packed, 0x18), config.len() as u32);
    assert_eq!(u32_at(&packed, 0x20), appdir.len() as u32);
    assert_eq!(u64_at(&packed, 0x28), manifest_offset as u64);
    assert_eq!(u64_at(&packed, 0x30), config_offset as u64);
    assert_eq!(u64_at(&packed, 0x38), appdir_offset as u64);
    assert_eq!(utf16_z_at(&packed, manifest_offset), manifest);
    assert_eq!(utf16_z_at(&packed, config_offset), config);
    assert_eq!(utf16_z_at(&packed, appdir_offset), appdir);
}

#[test]
fn short_detailed_buffer_is_not_modified() {
    let manifest = wide("a.manifest");
    let query = DetailedQuery {
        format_version: 1,
        assembly_count: 1,
        root_manifest_path_type: ACTIVATION_CONTEXT_PATH_TYPE_WIN32_FILE,
        root_manifest_path: Some(&manifest),
        root_configuration_path_type: ACTIVATION_CONTEXT_PATH_TYPE_NONE,
        root_configuration_path: None,
        application_directory_path_type: ACTIVATION_CONTEXT_PATH_TYPE_WIN32_FILE,
        application_directory_path: None,
    };
    let required = detailed_required_size(&query).unwrap();
    let mut short = std::vec![0xa5; required - 1];
    assert_eq!(
        pack_detailed_into(&query, &mut short),
        Err(STATUS_BUFFER_TOO_SMALL)
    );
    assert!(short.iter().all(|byte| *byte == 0xa5));
    let mut exact = std::vec![0; required];
    assert_eq!(pack_detailed_into(&query, &mut exact), Ok(required));
}

#[test]
fn assembly_lengths_are_bytes_and_reserved_fields_are_zero() {
    let identity = wide("demo,type=\"win32\",version=\"1.0.0.0\"");
    let manifest = wide("C:\\app\\demo.exe");
    let directory = wide("x86_demo_deadbeef_1.0.0.0_none_deadbeef");
    let query = AssemblyDetailedQuery {
        encoded_assembly_identity: Some(&identity),
        manifest_path_type: ACTIVATION_CONTEXT_PATH_TYPE_WIN32_FILE,
        manifest_path: Some(&manifest),
        assembly_directory_name: Some(&directory),
        file_count: 7,
    };
    let packed = pack_assembly_detailed(&query).unwrap();
    let identity_offset = 0x68;
    let manifest_offset = identity_offset + (identity.len() + 1) * 2;
    let directory_offset = manifest_offset + (manifest.len() + 1) * 2;
    assert_eq!(packed.len(), directory_offset + (directory.len() + 1) * 2);
    assert_eq!(u32_at(&packed, 0x04), (identity.len() * 2) as u32);
    assert_eq!(u32_at(&packed, 0x0c), (manifest.len() * 2) as u32);
    assert_eq!(u32_at(&packed, 0x3c), (directory.len() * 2) as u32);
    assert_eq!(u64_at(&packed, 0x40), identity_offset as u64);
    assert_eq!(u64_at(&packed, 0x48), manifest_offset as u64);
    assert_eq!(u64_at(&packed, 0x50), 0);
    assert_eq!(u64_at(&packed, 0x58), directory_offset as u64);
    assert_eq!(u32_at(&packed, 0x18), ACTIVATION_CONTEXT_PATH_TYPE_NONE);
    assert_eq!(u32_at(&packed, 0x2c), 1);
    assert_eq!(u32_at(&packed, 0x60), 7);
    assert!(packed[0x10..0x18].iter().all(|byte| *byte == 0));
    assert!(packed[0x20..0x28].iter().all(|byte| *byte == 0));
    assert_eq!(utf16_z_at(&packed, identity_offset), identity);
    assert_eq!(utf16_z_at(&packed, manifest_offset), manifest);
    assert_eq!(utf16_z_at(&packed, directory_offset), directory);
}

#[test]
fn short_assembly_buffer_is_not_modified() {
    let identity = wide("demo,version=\"1.0.0.0\"");
    let query = AssemblyDetailedQuery {
        encoded_assembly_identity: Some(&identity),
        manifest_path_type: ACTIVATION_CONTEXT_PATH_TYPE_NONE,
        manifest_path: None,
        assembly_directory_name: None,
        file_count: 0,
    };
    let required = assembly_detailed_required_size(&query).unwrap();
    let mut short = std::vec![0x5a; required - 1];
    assert_eq!(
        pack_assembly_detailed_into(&query, &mut short),
        Err(STATUS_BUFFER_TOO_SMALL)
    );
    assert!(short.iter().all(|byte| *byte == 0x5a));
    let mut exact = std::vec![0; required];
    assert_eq!(
        pack_assembly_detailed_into(&query, &mut exact),
        Ok(required)
    );
}

#[test]
fn roster_indices_are_one_based() {
    assert_eq!(validate_roster_index(1, 2), Ok(0));
    assert_eq!(validate_roster_index(2, 2), Ok(1));
    assert_eq!(validate_roster_index(0, 2), Err(STATUS_INVALID_PARAMETER));
    assert_eq!(validate_roster_index(3, 2), Err(STATUS_INVALID_PARAMETER));
}

#[test]
fn file_indices_are_zero_based_and_validate_each_dimension() {
    let counts = [1, 2];
    assert_eq!(
        validate_file_query_index(
            ActivationContextQueryIndex {
                assembly_index: 0,
                file_index_in_assembly: 0,
            },
            &counts,
        ),
        Ok((0, 0))
    );
    assert_eq!(
        validate_file_query_index(
            ActivationContextQueryIndex {
                assembly_index: 1,
                file_index_in_assembly: 1,
            },
            &counts,
        ),
        Ok((1, 1))
    );
    assert_eq!(
        validate_file_query_index(
            ActivationContextQueryIndex {
                assembly_index: 2,
                file_index_in_assembly: 0,
            },
            &counts,
        ),
        Err(STATUS_INVALID_PARAMETER)
    );
    assert_eq!(
        validate_file_query_index(
            ActivationContextQueryIndex {
                assembly_index: 0,
                file_index_in_assembly: 1,
            },
            &counts,
        ),
        Err(STATUS_INVALID_PARAMETER)
    );
}

#[test]
fn file_information_uses_byte_length_and_relative_pointer() {
    let file_name = wide("testlib.dll");
    let query = FileDetailedQuery {
        file_name: Some(&file_name),
    };
    let packed = pack_file_detailed(&query).unwrap();
    assert_eq!(packed.len(), 0x20 + (file_name.len() + 1) * 2);
    assert_eq!(
        u32_at(&packed, 0),
        ACTIVATION_CONTEXT_SECTION_DLL_REDIRECTION
    );
    assert_eq!(u32_at(&packed, 0x04), (file_name.len() * 2) as u32);
    assert_eq!(u32_at(&packed, 0x08), 0);
    assert_eq!(u64_at(&packed, 0x10), 0x20);
    assert_eq!(u64_at(&packed, 0x18), 0);
    assert_eq!(utf16_z_at(&packed, 0x20), file_name);
}

#[test]
fn short_file_information_buffer_is_not_modified() {
    let file_name = wide("testlib.dll");
    let query = FileDetailedQuery {
        file_name: Some(&file_name),
    };
    let required = file_detailed_required_size(&query).unwrap();
    let mut short = std::vec![0x3c; required - 1];
    assert_eq!(
        pack_file_detailed_into(&query, &mut short),
        Err(STATUS_BUFFER_TOO_SMALL)
    );
    assert!(short.iter().all(|byte| *byte == 0x3c));

    let packed = pack_file_detailed(&FileDetailedQuery { file_name: None }).unwrap();
    assert_eq!(packed.len(), 0x20);
    assert_eq!(u64_at(&packed, 0x10), 0);
}

#[test]
fn runlevel_information_has_fixed_native_layout() {
    for (run_level, ui_access) in [
        (ACTCTX_RUN_LEVEL_UNSPECIFIED, false),
        (ACTCTX_RUN_LEVEL_AS_INVOKER, false),
        (ACTCTX_RUN_LEVEL_HIGHEST_AVAILABLE, true),
        (ACTCTX_RUN_LEVEL_REQUIRE_ADMIN, true),
    ] {
        let packed = pack_runlevel(RunLevelQuery {
            run_level,
            ui_access,
        })
        .unwrap();
        assert_eq!(packed.len(), 0x0c);
        assert_eq!(u32_at(&packed, 0), 0);
        assert_eq!(u32_at(&packed, 0x04), run_level);
        assert_eq!(u32_at(&packed, 0x08), u32::from(ui_access));
    }

    let mut short = [0xa7; 0x0b];
    assert_eq!(
        pack_runlevel_into(RunLevelQuery::default(), &mut short),
        Err(STATUS_BUFFER_TOO_SMALL)
    );
    assert_eq!(short, [0xa7; 0x0b]);
}

#[test]
fn compatibility_information_preserves_guid_fields_and_order() {
    let elements = [
        CompatibilityContextElement {
            id: CompatibilityGuid {
                data1: 0xe201_1457,
                data2: 0x1546,
                data3: 0x43c5,
                data4: [0xa5, 0xfe, 0x00, 0x8d, 0xee, 0xe3, 0xd3, 0xf0],
            },
            element_type: ACTCTX_COMPATIBILITY_ELEMENT_TYPE_OS,
            padding: 0,
            max_version_tested: 0,
        },
        CompatibilityContextElement {
            id: CompatibilityGuid {
                data1: 0x1234_5566,
                data2: 0x1111,
                data3: 0x2222,
                data4: [0x33, 0x33, 0x44, 0x44, 0x44, 0x44, 0x44, 0x44],
            },
            element_type: ACTCTX_COMPATIBILITY_ELEMENT_TYPE_MITIGATION,
            padding: 0,
            max_version_tested: 0x000a_0000_47b6_0000,
        },
    ];
    let packed = pack_compatibility(&elements).unwrap();
    assert_eq!(packed.len(), 8 + 2 * 32);
    assert_eq!(u32_at(&packed, 0), 2);
    assert_eq!(u32_at(&packed, 0x08), 0xe201_1457);
    assert_eq!(u16_at(&packed, 0x0c), 0x1546);
    assert_eq!(u16_at(&packed, 0x0e), 0x43c5);
    assert_eq!(&packed[0x10..0x18], &elements[0].id.data4);
    assert_eq!(u32_at(&packed, 0x18), ACTCTX_COMPATIBILITY_ELEMENT_TYPE_OS);
    assert_eq!(u32_at(&packed, 0x28), 0x1234_5566);
    assert_eq!(
        u32_at(&packed, 0x38),
        ACTCTX_COMPATIBILITY_ELEMENT_TYPE_MITIGATION
    );
    assert_eq!(u64_at(&packed, 0x40), 0x000a_0000_47b6_0000);
}

#[test]
fn compatibility_empty_and_short_buffers_follow_kernelbase_abi() {
    let empty = pack_compatibility(&[]).unwrap();
    assert_eq!(empty.len(), 8);
    assert_eq!(u32_at(&empty, 0), 0);

    let element = CompatibilityContextElement {
        id: CompatibilityGuid::default(),
        element_type: ACTCTX_COMPATIBILITY_ELEMENT_TYPE_UNKNOWN,
        padding: 0,
        max_version_tested: 0,
    };
    let required = compatibility_required_size(&[element]).unwrap();
    assert_eq!(required, 40);
    let mut short = std::vec![0xd2; required - 1];
    assert_eq!(
        pack_compatibility_into(&[element], &mut short),
        Err(STATUS_BUFFER_TOO_SMALL)
    );
    assert!(short.iter().all(|byte| *byte == 0xd2));
}

#[test]
fn embedded_nuls_are_rejected() {
    let invalid = [b'a' as u16, 0, b'b' as u16];
    let query = AssemblyDetailedQuery {
        encoded_assembly_identity: Some(&invalid),
        manifest_path_type: ACTIVATION_CONTEXT_PATH_TYPE_WIN32_FILE,
        manifest_path: None,
        assembly_directory_name: None,
        file_count: 0,
    };
    assert_eq!(
        assembly_detailed_required_size(&query),
        Err(STATUS_INVALID_PARAMETER)
    );
}

#[test]
fn checked_size_arithmetic_reports_no_memory() {
    assert_eq!(
        checked_required_size(usize::MAX, &[Some(&[])]),
        Err(STATUS_NO_MEMORY)
    );
}

#[test]
fn a_longer_buffer_keeps_what_is_behind_the_answer() {
    let mut buffer = [0xeeu8; 0x10];
    let query = RunLevelQuery {
        run_level: ACTCTX_RUN_LEVEL_REQUIRE_ADMIN,
        ui_access: true,
    };
    assert_eq!(pack_runlevel_into(query, &mut buffer), Ok(0x0c));
    assert_eq!(u32_at(&buffer, 4), 3);
    assert_eq!(u32_at(&buffer, 8), 1);
    assert_eq!(&buffer[0x0c..], [0xee; 4]);
    assert_eq!(runlevel_required_size(), 0x0c);
}

#[test]
fn texts_with_a_zero_are_refused_everywhere() {
    let invalid = [b'a' as u16, 0];
    assert_eq!(
        pack_file_detailed(&FileDetailedQuery {
            file_name: Some(&invalid)
        }),
        Err(STATUS_INVALID_PARAMETER)
    );
    let query = DetailedQuery {
        format_version: 1,
        assembly_count: 1,
        root_manifest_path_type: 0,
        root_manifest_path: None,
        root_configuration_path_type: 0,
        root_configuration_path: None,
        application_directory_path_type: 0,
        application_directory_path: Some(&invalid),
    };
    let mut buffer = [0x11u8; 0x80];
    assert_eq!(
        pack_detailed_into(&query, &mut buffer),
        Err(STATUS_INVALID_PARAMETER)
    );
    assert_eq!(buffer, [0x11; 0x80]);
}
