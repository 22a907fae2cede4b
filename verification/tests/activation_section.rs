use nt_ntdll::activation::{DllRedirect};
use nt_ntdll::activation_manifest::{ManifestClrSurrogate, ManifestWindowClass};
use nt_ntdll::activation_section::{ClrSurrogateAssembly, ClrSurrogateMatch, DLL_REDIRECTION_PATH_EXPAND, DLL_REDIRECTION_PATH_INCLUDES_BASE_NAME, DLL_REDIRECTION_PATH_OMITS_ASSEMBLY_ROOT, DllRedirectAssembly, DllRedirectionData, DllRedirectionSection, GUIDSECTION_MAGIC, GUID_HEADER_SIZE, GUID_INDEX_SIZE, HEADER_SIZE, INDEX_SIZE, REDIRECTION_SIZE, STATUS_NO_MEMORY, STATUS_SXS_INVALID_ACTCTXDATA_FORMAT, STRSECTION_MAGIC, WindowClassAssembly, WindowClassRedirectionSection, align4, build_clr_surrogate_section, build_dll_redirection_section, build_dll_redirection_section_for_assemblies, build_window_class_redirection_section, checked_section_size, decode_dll_redirection, find_clr_surrogate, find_dll_redirection, find_window_class_redirection, read_guid, read_offset, read_u16, read_u32, utf16_bytes_len, validate_dll_redirection_section, validate_window_class_redirection_section, write_u32, write_utf16};
use nt_ntdll::guid::{Guid};

fn wide(value: &str) -> Vec<u16> {
    value.encode_utf16().collect()
}

fn surrogate_guid(last: u8) -> Guid {
    Guid {
        data1: 0x9666_6666,
        data2: 0x8888,
        data3: 0x7777,
        data4: [0x66, 0x66, 0x55, 0x55, 0x55, 0x55, 0x55, last],
    }
}

#[test]
fn builds_exact_clr_surrogate_guid_section() {
    let surrogates = [ManifestClrSurrogate {
        clsid: surrogate_guid(0x55),
        name: wide("testsurrogate"),
        runtime_version: Some(wide("v2.0.50727")),
    }];
    let section = build_clr_surrogate_section(&[ClrSurrogateAssembly {
        surrogates: &surrogates,
    }])
    .unwrap();
    assert_eq!(section.len(), 160);
    assert_eq!(read_u32(&section, 0), Ok(GUIDSECTION_MAGIC));
    assert_eq!(read_u32(&section, 4), Ok(40));
    assert_eq!(read_u32(&section, 20), Ok(1));
    assert_eq!(read_u32(&section, 24), Ok(40));
    assert_eq!(read_guid(&section, 40), Ok(surrogate_guid(0x55)));
    assert_eq!(read_u32(&section, 56), Ok(68));
    assert_eq!(read_u32(&section, 60), Ok(92));
    assert_eq!(read_u32(&section, 64), Ok(1));
    assert_eq!(read_u32(&section, 68), Ok(40));
    assert_eq!(read_guid(&section, 76), Ok(surrogate_guid(0x55)));
    assert_eq!(read_u32(&section, 92), Ok(40));
    assert_eq!(read_u32(&section, 96), Ok(20));
    assert_eq!(read_u32(&section, 100), Ok(62));
    assert_eq!(read_u32(&section, 104), Ok(26));
    assert_eq!(read_wide(&section, 108, 20), wide("v2.0.50727"));
    assert_eq!(read_wide(&section, 130, 26), wide("testsurrogate"));
    assert_eq!(
        find_clr_surrogate(&section, &surrogate_guid(0x55)),
        Ok(Some(ClrSurrogateMatch {
            data_offset: 68,
            data_length: 90,
            assembly_roster_index: 1,
        }))
    );
    assert_eq!(
        find_clr_surrogate(&section, &surrogate_guid(0x54)),
        Ok(None)
    );
}

#[test]
fn clr_surrogate_sections_preserve_rosters_and_empty_version_storage() {
    let absent = [ManifestClrSurrogate {
        clsid: surrogate_guid(0x55),
        name: wide("plain"),
        runtime_version: None,
    }];
    let empty = [ManifestClrSurrogate {
        clsid: surrogate_guid(0x56),
        name: wide("empty"),
        runtime_version: Some(Vec::new()),
    }];
    let section = build_clr_surrogate_section(&[
        ClrSurrogateAssembly { surrogates: &[] },
        ClrSurrogateAssembly {
            surrogates: &absent,
        },
        ClrSurrogateAssembly { surrogates: &empty },
    ])
    .unwrap();
    let absent_match = find_clr_surrogate(&section, &surrogate_guid(0x55))
        .unwrap()
        .unwrap();
    let empty_match = find_clr_surrogate(&section, &surrogate_guid(0x56))
        .unwrap()
        .unwrap();
    assert_eq!(absent_match.assembly_roster_index, 2);
    assert_eq!(empty_match.assembly_roster_index, 3);
    assert_eq!(absent_match.data_length, 52);
    assert_eq!(empty_match.data_length, 52);
    let first_storage = read_u32(&section, GUID_HEADER_SIZE + 20).unwrap();
    let second_storage = read_u32(&section, GUID_HEADER_SIZE + GUID_INDEX_SIZE + 20).unwrap();
    assert_eq!(first_storage, 52);
    assert_eq!(second_storage, 56);
}

#[test]
fn clr_surrogate_builder_and_finder_reject_invalid_data() {
    let invalid = [ManifestClrSurrogate {
        clsid: Guid::default(),
        name: Vec::new(),
        runtime_version: None,
    }];
    assert_eq!(
        build_clr_surrogate_section(&[ClrSurrogateAssembly {
            surrogates: &invalid,
        }]),
        Err(STATUS_SXS_INVALID_ACTCTXDATA_FORMAT)
    );

    let valid = [ManifestClrSurrogate {
        clsid: surrogate_guid(0x55),
        name: wide("testsurrogate"),
        runtime_version: Some(wide("v2.0.50727")),
    }];
    let original =
        build_clr_surrogate_section(&[ClrSurrogateAssembly { surrogates: &valid }]).unwrap();
    for (offset, value) in [
        (0, 0),
        (8, 1),
        (24, 0),
        (56, 0),
        (60, 88),
        (64, 0),
        (68, 0),
        (72, 1),
        (92, 0),
        (96, 21),
        (100, 40),
        (104, 0),
    ] {
        let mut section = original.clone();
        write_u32(&mut section, offset, value).unwrap();
        assert_eq!(
            find_clr_surrogate(&section, &surrogate_guid(0x55)),
            Err(STATUS_SXS_INVALID_ACTCTXDATA_FORMAT),
            "offset {offset}"
        );
    }
    let mut truncated = original.clone();
    truncated.pop();
    assert_eq!(
        find_clr_surrogate(&truncated, &surrogate_guid(0x55)),
        Err(STATUS_SXS_INVALID_ACTCTXDATA_FORMAT)
    );
    let mut trailing = original;
    trailing.push(0);
    assert_eq!(
        find_clr_surrogate(&trailing, &surrogate_guid(0x55)),
        Err(STATUS_SXS_INVALID_ACTCTXDATA_FORMAT)
    );
}

#[test]
fn builds_exact_header_index_and_header_only_redirection() {
    let section = build_dll_redirection_section(&[DllRedirect {
        name: wide("Test.dll"),
        load_from: None,
    }])
    .unwrap();

    assert_eq!(section.len(), 108);
    assert_eq!(read_u32(&section, 0), Ok(STRSECTION_MAGIC));
    assert_eq!(read_u32(&section, 4), Ok(44));
    assert_eq!(read_u32(&section, 20), Ok(1));
    assert_eq!(read_u32(&section, 24), Ok(44));
    assert_eq!(read_u32(&section, 48), Ok(68));
    assert_eq!(read_u32(&section, 52), Ok(16));
    assert_eq!(read_u32(&section, 56), Ok(88));
    assert_eq!(read_u32(&section, 60), Ok(20));
    assert_eq!(read_u32(&section, 64), Ok(1));
    assert_eq!(read_u32(&section, 88), Ok(20));
    assert_eq!(
        read_u32(&section, 92),
        Ok(DLL_REDIRECTION_PATH_OMITS_ASSEMBLY_ROOT)
    );
    assert_eq!(
        validate_dll_redirection_section(&section),
        Ok(DllRedirectionSection {
            count: 1,
            index_offset: 44,
            length: 108,
        })
    );
}

#[test]
fn builds_dll_redirection_for_two_assemblies_in_declaration_order() {
    let root = [DllRedirect {
        name: wide("root.dll"),
        load_from: None,
    }];
    let dependency = [DllRedirect {
        name: wide("dependency.dll"),
        load_from: Some(wide("side\\dependency.dll")),
    }];
    let section = build_dll_redirection_section_for_assemblies(&[
        DllRedirectAssembly { redirects: &root },
        DllRedirectAssembly {
            redirects: &dependency,
        },
    ])
    .unwrap();

    assert_eq!(
        validate_dll_redirection_section(&section),
        Ok(DllRedirectionSection {
            count: 2,
            index_offset: 44,
            length: section.len() as u32,
        })
    );
    let root_match = find_dll_redirection(&section, &wide("ROOT.DLL"))
        .unwrap()
        .unwrap();
    let dependency_match = find_dll_redirection(&section, &wide("DEPENDENCY.DLL"))
        .unwrap()
        .unwrap();
    assert_eq!(root_match.index_offset, HEADER_SIZE as u32);
    assert_eq!(root_match.assembly_roster_index, 1);
    assert_eq!(
        dependency_match.index_offset,
        (HEADER_SIZE + INDEX_SIZE) as u32
    );
    assert_eq!(dependency_match.assembly_roster_index, 2);
}

#[test]
fn empty_dll_redirect_assemblies_retain_their_roster_positions() {
    let redirects = [DllRedirect {
        name: wide("only.dll"),
        load_from: None,
    }];
    let empty = DllRedirectAssembly { redirects: &[] };

    let empty_first = build_dll_redirection_section_for_assemblies(&[
        empty,
        DllRedirectAssembly {
            redirects: &redirects,
        },
    ])
    .unwrap();
    assert_eq!(
        find_dll_redirection(&empty_first, &wide("only.dll"))
            .unwrap()
            .unwrap()
            .assembly_roster_index,
        2
    );

    let empty_second = build_dll_redirection_section_for_assemblies(&[
        DllRedirectAssembly {
            redirects: &redirects,
        },
        empty,
    ])
    .unwrap();
    assert_eq!(
        find_dll_redirection(&empty_second, &wide("only.dll"))
            .unwrap()
            .unwrap()
            .assembly_roster_index,
        1
    );
}

#[test]
fn duplicate_dll_name_across_assemblies_returns_roster_one() {
    let root = [DllRedirect {
        name: wide("same.dll"),
        load_from: None,
    }];
    let dependency = [DllRedirect {
        name: wide("SAME.DLL"),
        load_from: Some(wide("dependency.dll")),
    }];
    let section = build_dll_redirection_section_for_assemblies(&[
        DllRedirectAssembly { redirects: &root },
        DllRedirectAssembly {
            redirects: &dependency,
        },
    ])
    .unwrap();

    let found = find_dll_redirection(&section, &wide("same.dll"))
        .unwrap()
        .unwrap();
    assert_eq!(found.index_offset, HEADER_SIZE as u32);
    assert_eq!(found.data_length, REDIRECTION_SIZE as u32);
    assert_eq!(found.assembly_roster_index, 1);
}

#[test]
fn validates_multi_assembly_dll_roster_indices() {
    let root = [DllRedirect {
        name: wide("root.dll"),
        load_from: None,
    }];
    let dependency = [DllRedirect {
        name: wide("dependency.dll"),
        load_from: None,
    }];
    let mut section = build_dll_redirection_section_for_assemblies(&[
        DllRedirectAssembly { redirects: &root },
        DllRedirectAssembly {
            redirects: &dependency,
        },
    ])
    .unwrap();

    assert_eq!(read_u32(&section, HEADER_SIZE + 20), Ok(1));
    assert_eq!(
        read_u32(&section, HEADER_SIZE + INDEX_SIZE + 20),
        Ok(2)
    );
    write_u32(&mut section, HEADER_SIZE + INDEX_SIZE + 20, 0).unwrap();
    assert_eq!(
        validate_dll_redirection_section(&section),
        Err(STATUS_SXS_INVALID_ACTCTXDATA_FORMAT)
    );
}

#[test]
fn lookup_is_case_insensitive_but_exactly_counted() {
    let mut stored_name = wide("Test.dll");
    stored_name[1] = 0x00e9;
    let section = build_dll_redirection_section(&[DllRedirect {
        name: stored_name,
        load_from: None,
    }])
    .unwrap();

    let mut query = wide("tEST.DLL");
    query[1] = 0x00c9;
    let found = find_dll_redirection(&section, &query).unwrap().unwrap();
    assert_eq!(found.index_offset, 44);
    assert_eq!(found.name_offset, 68);
    assert_eq!(found.data_length, 20);
    assert_eq!(found.assembly_roster_index, 1);
    let mut short_query = wide("tEst");
    short_query[1] = 0x00c9;
    assert_eq!(find_dll_redirection(&section, &short_query), Ok(None));
    let mut nul_terminated = query;
    nul_terminated.push(0);
    assert_eq!(find_dll_redirection(&section, &nul_terminated), Ok(None));
}

#[test]
fn emits_one_relative_path_segment_and_expand_flag() {
    let section = build_dll_redirection_section(&[DllRedirect {
        name: wide("mapped.dll"),
        load_from: Some(wide("%ROOT%\\side\\mapped.dll")),
    }])
    .unwrap();
    let found = find_dll_redirection(&section, &wide("MAPPED.DLL"))
        .unwrap()
        .unwrap();
    let data = found.data_offset as usize;

    assert_eq!(found.data_length, 28);
    assert_eq!(read_u32(&section, 60), Ok(20));
    assert_eq!(read_u32(&section, data), Ok(28));
    assert_eq!(
        read_u32(&section, data + 4),
        Ok(DLL_REDIRECTION_PATH_EXPAND | DLL_REDIRECTION_PATH_INCLUDES_BASE_NAME)
    );
    assert_eq!(read_u32(&section, data + 12), Ok(1));
    assert_eq!(read_u32(&section, data + 16), Ok((data + 20) as u32));
    assert_eq!(read_u32(&section, data + 24), Ok((data + 28) as u32));
}

#[test]
fn explicit_empty_load_from_still_emits_a_path_segment() {
    let section = build_dll_redirection_section(&[DllRedirect {
        name: wide("empty.dll"),
        load_from: Some(Vec::new()),
    }])
    .unwrap();
    let found = find_dll_redirection(&section, &wide("empty.dll"))
        .unwrap()
        .unwrap();
    let data = found.data_offset as usize;

    assert_eq!(found.data_length, 28);
    assert_eq!(read_u32(&section, data + 4), Ok(0));
    assert_eq!(read_u32(&section, data + 8), Ok(0));
    assert_eq!(read_u32(&section, data + 12), Ok(1));
    assert_eq!(read_u32(&section, data + 20), Ok(0));
    assert_eq!(read_u32(&section, data + 24), Ok((data + 28) as u32));
    assert_eq!(section.len(), data + 28);
}

#[test]
fn validates_and_decodes_multiple_native_path_segments() {
    let mut section = build_dll_redirection_section(&[DllRedirect {
        name: wide("mapped.dll"),
        load_from: Some(wide("ab")),
    }])
    .unwrap();
    let found = find_dll_redirection(&section, &wide("mapped.dll"))
        .unwrap()
        .unwrap();
    let data = found.data_offset as usize;
    section.truncate(data + 20);
    section.resize(data + 44, 0);
    write_u32(&mut section, data, 36).unwrap();
    write_u32(
        &mut section,
        data + 4,
        DLL_REDIRECTION_PATH_INCLUDES_BASE_NAME,
    )
    .unwrap();
    write_u32(&mut section, data + 8, 8).unwrap();
    write_u32(&mut section, data + 12, 2).unwrap();
    write_u32(&mut section, data + 16, (data + 20) as u32).unwrap();
    write_u32(&mut section, data + 20, 2).unwrap();
    write_u32(&mut section, data + 24, (data + 36) as u32).unwrap();
    write_u32(&mut section, data + 28, 2).unwrap();
    write_u32(&mut section, data + 32, (data + 40) as u32).unwrap();
    write_utf16(&mut section, data + 36, &wide("a")).unwrap();
    write_utf16(&mut section, data + 40, &wide("b")).unwrap();

    let found = find_dll_redirection(&section, &wide("mapped.dll"))
        .unwrap()
        .unwrap();
    assert_eq!(
        decode_dll_redirection(&section, found),
        Ok(DllRedirectionData {
            flags: DLL_REDIRECTION_PATH_INCLUDES_BASE_NAME,
            path_segments: vec![wide("a"), wide("b")],
        })
    );
}

#[test]
fn returns_first_duplicate_in_manifest_order() {
    let section = build_dll_redirection_section(&[
        DllRedirect {
            name: wide("same.dll"),
            load_from: None,
        },
        DllRedirect {
            name: wide("SAME.DLL"),
            load_from: Some(wide("other.dll")),
        },
    ])
    .unwrap();
    let found = find_dll_redirection(&section, &wide("same.dll"))
        .unwrap()
        .unwrap();
    assert_eq!(found.index_offset, 44);
    assert_eq!(found.data_length, 20);
}

#[test]
fn validation_rejects_corrupt_offsets_hashes_and_records() {
    let original = build_dll_redirection_section(&[DllRedirect {
        name: wide("test.dll"),
        load_from: Some(wide("side.dll")),
    }])
    .unwrap();
    for (offset, value) in [(0, 0), (44, 0), (48, u32::MAX), (56, u32::MAX), (64, 0)] {
        let mut section = original.clone();
        write_u32(&mut section, offset, value).unwrap();
        assert_eq!(
            validate_dll_redirection_section(&section),
            Err(STATUS_SXS_INVALID_ACTCTXDATA_FORMAT)
        );
    }
    let mut truncated = original.clone();
    truncated.pop();
    assert_eq!(
        find_dll_redirection(&truncated, &wide("test.dll")),
        Err(STATUS_SXS_INVALID_ACTCTXDATA_FORMAT)
    );
}

#[test]
fn checked_alignment_rejects_overflow() {
    assert_eq!(align4(usize::MAX), None);
    assert_eq!(utf16_bytes_len(usize::MAX), Err(STATUS_NO_MEMORY));
    assert_eq!(
        build_dll_redirection_section(&[DllRedirect {
            name: Vec::new(),
            load_from: None,
        }]),
        Err(STATUS_SXS_INVALID_ACTCTXDATA_FORMAT)
    );
    assert_eq!(
        build_dll_redirection_section(&[DllRedirect {
            name: vec![b'a' as u16, 0, b'b' as u16],
            load_from: None,
        }]),
        Err(STATUS_SXS_INVALID_ACTCTXDATA_FORMAT)
    );
    assert_eq!(
        build_dll_redirection_section(&[]),
        Ok(vec![
            0x53, 0x73, 0x48, 0x64, 44, 0, 0, 0, 0, 0, 0, 0, 0, 0, 0, 0, 0, 0, 0, 0, 0, 0, 0,
            0, 44, 0, 0, 0, 0, 0, 0, 0, 0, 0, 0, 0, 0, 0, 0, 0, 0, 0, 0, 0,
        ])
    );
}

fn window_section(version: [u16; 4], class: &str, module: &str, versioned: bool) -> Vec<u8> {
    let files = [DllRedirect {
        name: wide(module),
        load_from: Some(wide("ignored-load-from.dll")),
    }];
    let classes = [ManifestWindowClass {
        file_index: 0,
        name: wide(class),
        versioned,
    }];
    build_window_class_redirection_section(&[WindowClassAssembly {
        version,
        files: &files,
        classes: &classes,
    }])
    .unwrap()
}

fn read_wide(section: &[u8], offset: usize, length: usize) -> Vec<u16> {
    (offset..offset + length)
        .step_by(2)
        .map(|position| read_u16(section, position).unwrap())
        .collect()
}

#[test]
fn builds_exact_versioned_window_class_layout() {
    let files = [DllRedirect {
        name: wide("testlib1.dll"),
        load_from: None,
    }];
    let classes = [ManifestWindowClass {
        file_index: 0,
        name: wide("wndClass1"),
        versioned: true,
    }];
    let empty_files = [];
    let empty_classes = [];
    let section = build_window_class_redirection_section(&[
        WindowClassAssembly {
            version: [0; 4],
            files: &empty_files,
            classes: &empty_classes,
        },
        WindowClassAssembly {
            version: [1, 2, 3, 4],
            files: &files,
            classes: &classes,
        },
    ])
    .unwrap();

    assert_eq!(section.len(), 176);
    assert_eq!(read_u32(&section, 20), Ok(1));
    assert_eq!(read_u32(&section, 24), Ok(44));
    assert_eq!(read_u32(&section, 48), Ok(68));
    assert_eq!(read_u32(&section, 52), Ok(18));
    assert_eq!(read_u32(&section, 56), Ok(88));
    assert_eq!(read_u32(&section, 60), Ok(86));
    assert_eq!(read_u32(&section, 64), Ok(2));
    assert_eq!(read_u32(&section, 88), Ok(24));
    assert_eq!(read_u32(&section, 96), Ok(34));
    assert_eq!(read_u32(&section, 100), Ok(24));
    assert_eq!(read_u32(&section, 104), Ok(24));
    assert_eq!(read_u32(&section, 108), Ok(148));
    assert_eq!(read_wide(&section, 112, 34), wide("1.2.3.4!wndClass1"));
    assert_eq!(read_wide(&section, 148, 24), wide("testlib1.dll"));
    assert_eq!(
        validate_window_class_redirection_section(&section, 2),
        Ok(WindowClassRedirectionSection {
            count: 1,
            index_offset: 44,
            length: 176,
        })
    );
}

#[test]
fn builds_unversioned_window_class_and_uses_file_name() {
    let section = window_section([4, 3, 2, 1], "wndClass3", "testlib2.dll", false);
    assert_eq!(section.len(), 160);
    let found = find_window_class_redirection(&section, 1, &wide("WNDcLASS3"))
        .unwrap()
        .unwrap();
    assert_eq!(found.data_offset, 88);
    assert_eq!(found.data_length, 70);
    assert_eq!(found.versioned_name_offset, 112);
    assert_eq!(found.versioned_name_length, 18);
    assert_eq!(found.module_offset, 132);
    assert_eq!(found.module_length, 24);
    assert_eq!(found.assembly_roster_index, 1);
    assert_eq!(read_wide(&section, 112, 18), wide("wndClass3"));
    assert_eq!(read_wide(&section, 132, 24), wide("testlib2.dll"));
}

#[test]
fn preserves_assembly_order_empty_rosters_and_first_duplicate() {
    let root_files = [DllRedirect {
        name: wide("root.dll"),
        load_from: None,
    }];
    let root_classes = [ManifestWindowClass {
        file_index: 0,
        name: wide("SharedClass"),
        versioned: false,
    }];
    let dependency_files = [DllRedirect {
        name: wide("dependency.dll"),
        load_from: None,
    }];
    let dependency_classes = [ManifestWindowClass {
        file_index: 0,
        name: wide("sHAREDcLASS"),
        versioned: true,
    }];
    let section = build_window_class_redirection_section(&[
        WindowClassAssembly {
            version: [1, 0, 0, 0],
            files: &root_files,
            classes: &root_classes,
        },
        WindowClassAssembly {
            version: [2, 0, 0, 0],
            files: &[],
            classes: &[],
        },
        WindowClassAssembly {
            version: [3, 0, 0, 0],
            files: &dependency_files,
            classes: &dependency_classes,
        },
    ])
    .unwrap();
    let found = find_window_class_redirection(&section, 3, &wide("sharedclass"))
        .unwrap()
        .unwrap();
    assert_eq!(found.assembly_roster_index, 1);
    assert_eq!(
        read_wide(
            &section,
            found.module_offset as usize,
            found.module_length as usize
        ),
        wide("root.dll")
    );
    let dependency_index = HEADER_SIZE + INDEX_SIZE;
    assert_eq!(read_u32(&section, dependency_index + 20), Ok(3));
    let dependency_data = read_offset(&section, dependency_index + 12).unwrap();
    let dependency_module = read_offset(&section, dependency_data + 20).unwrap();
    let dependency_module_length = read_offset(&section, dependency_data + 16).unwrap();
    assert_eq!(
        read_wide(&section, dependency_module, dependency_module_length),
        wide("dependency.dll")
    );
    assert_eq!(
        validate_window_class_redirection_section(&section, 2),
        Err(STATUS_SXS_INVALID_ACTCTXDATA_FORMAT)
    );
}

#[test]
fn window_class_lookup_is_exactly_counted_and_formats_version_bounds() {
    for (version, expected) in [
        ([0; 4], "0.0.0.0!Class"),
        ([u16::MAX; 4], "65535.65535.65535.65535!Class"),
    ] {
        let section = window_section(version, "Class", "module.dll", true);
        let found = find_window_class_redirection(&section, 1, &wide("class"))
            .unwrap()
            .unwrap();
        assert_eq!(
            read_wide(
                &section,
                found.versioned_name_offset as usize,
                found.versioned_name_length as usize,
            ),
            wide(expected)
        );
        let mut counted_with_nul = wide("Class");
        counted_with_nul.push(0);
        assert_eq!(
            find_window_class_redirection(&section, 1, &counted_with_nul),
            Ok(None)
        );
    }
}

#[test]
fn window_class_builder_rejects_invalid_model_input() {
    let files = [DllRedirect {
        name: wide("module.dll"),
        load_from: None,
    }];
    for class in [
        ManifestWindowClass {
            file_index: 1,
            name: wide("Class"),
            versioned: false,
        },
        ManifestWindowClass {
            file_index: 0,
            name: Vec::new(),
            versioned: false,
        },
        ManifestWindowClass {
            file_index: 0,
            name: vec![b'C' as u16, 0],
            versioned: false,
        },
    ] {
        assert_eq!(
            build_window_class_redirection_section(&[WindowClassAssembly {
                version: [1; 4],
                files: &files,
                classes: &[class],
            }]),
            Err(STATUS_SXS_INVALID_ACTCTXDATA_FORMAT)
        );
    }
    let bad_file = [DllRedirect {
        name: Vec::new(),
        load_from: None,
    }];
    let class = [ManifestWindowClass {
        file_index: 0,
        name: wide("Class"),
        versioned: false,
    }];
    assert_eq!(
        build_window_class_redirection_section(&[WindowClassAssembly {
            version: [1; 4],
            files: &bad_file,
            classes: &class,
        }]),
        Err(STATUS_SXS_INVALID_ACTCTXDATA_FORMAT)
    );
    let nul_file = [DllRedirect {
        name: vec![b'm' as u16, 0, b'd' as u16],
        load_from: None,
    }];
    assert_eq!(
        build_window_class_redirection_section(&[WindowClassAssembly {
            version: [1; 4],
            files: &nul_file,
            classes: &class,
        }]),
        Err(STATUS_SXS_INVALID_ACTCTXDATA_FORMAT)
    );
    assert_eq!(
        build_window_class_redirection_section(&[]),
        Ok(vec![
            0x53, 0x73, 0x48, 0x64, 44, 0, 0, 0, 0, 0, 0, 0, 0, 0, 0, 0, 0, 0, 0, 0, 0, 0, 0,
            0, 44, 0, 0, 0, 0, 0, 0, 0, 0, 0, 0, 0, 0, 0, 0, 0, 0, 0, 0, 0,
        ])
    );
}

#[test]
fn window_class_validation_rejects_corruption_and_trailing_bytes() {
    let original = window_section([1, 2, 3, 4], "wndClass1", "testlib1.dll", true);
    for (offset, value) in [
        (0, 0),
        (8, 1),
        (44, 0),
        (48, u32::MAX),
        (52, 17),
        (56, u32::MAX),
        (60, 1),
        (64, 0),
        (88, 20),
        (92, 1),
        (96, 0),
        (100, 0),
        (104, 0),
        (108, 0),
    ] {
        let mut section = original.clone();
        write_u32(&mut section, offset, value).unwrap();
        assert_eq!(
            validate_window_class_redirection_section(&section, 1),
            Err(STATUS_SXS_INVALID_ACTCTXDATA_FORMAT),
            "offset {offset}"
        );
    }
    let mut bad_redirected_name = original.clone();
    let bang_offset = 112 + wide("1.2.3.4").len() * 2;
    bad_redirected_name[bang_offset..bang_offset + 2]
        .copy_from_slice(&(b'.' as u16).to_le_bytes());
    assert_eq!(
        validate_window_class_redirection_section(&bad_redirected_name, 1),
        Err(STATUS_SXS_INVALID_ACTCTXDATA_FORMAT)
    );
    for (offset, value) in [
        (86, b'X' as u16),  // original-name terminator
        (114, 0),           // redirected-name interior NUL
        (120, b'x' as u16), // non-decimal version component
        (144, b'X' as u16), // redirected suffix differs from original
        (172, b'X' as u16), // module-name terminator
    ] {
        let mut section = original.clone();
        section[offset..offset + 2].copy_from_slice(&value.to_le_bytes());
        assert_eq!(
            validate_window_class_redirection_section(&section, 1),
            Err(STATUS_SXS_INVALID_ACTCTXDATA_FORMAT),
            "UTF-16 offset {offset}"
        );
    }
    let mut truncated = original.clone();
    truncated.pop();
    assert_eq!(
        find_window_class_redirection(&truncated, 1, &wide("wndClass1")),
        Err(STATUS_SXS_INVALID_ACTCTXDATA_FORMAT)
    );
    let mut trailing = original;
    trailing.push(0);
    assert_eq!(
        validate_window_class_redirection_section(&trailing, 1),
        Err(STATUS_SXS_INVALID_ACTCTXDATA_FORMAT)
    );
    if let Ok(too_large) = usize::try_from(u64::from(u32::MAX) + 1) {
        assert_eq!(checked_section_size(too_large), Err(STATUS_NO_MEMORY));
    }
}
