use nt_ntdll::activation_redirection::{STATUS_NO_MEMORY, STATUS_SXS_KEY_NOT_FOUND, OutputSelection, STATUS_BUFFER_TOO_SMALL, STATUS_INVALID_PARAMETER, STATUS_NAME_TOO_LONG, absolute_path_is_system32, compose_redirected_path, file_part_prefix_cch, prepare_isolation_name, redirection_applies_to_path, select_output};
use nt_ntdll::activation_section::{DLL_REDIRECTION_PATH_INCLUDES_BASE_NAME, DLL_REDIRECTION_PATH_OMITS_ASSEMBLY_ROOT, DLL_REDIRECTION_PATH_SYSTEM_DEFAULT_REDIRECTED_SYSTEM32_DLL, DllRedirectionData};

fn wide(value: &str) -> Vec<u16> {
    value.encode_utf16().collect()
}

#[test]
fn prepares_counted_leaf_and_extension_without_parent_dot_confusion() {
    let prepared =
        prepare_isolation_name(0, &wide("dir.with.dot\\library"), Some(&wide(".dll"))).unwrap();
    assert_eq!(prepared.lookup_name, wide("library.dll"));
    assert!(prepared.path_is_relative);
    assert!(prepared.actctx_lookup_allowed);
    let prepared =
        prepare_isolation_name(0, &wide("C:\\dir\\library.ocx"), Some(&wide(".dll"))).unwrap();
    assert_eq!(prepared.lookup_name, wide("library.ocx"));
    assert!(!prepared.path_is_relative);
    assert!(prepared.actctx_lookup_allowed);
    let prepared = prepare_isolation_name(0, &wide("library"), None).unwrap();
    assert_eq!(prepared.lookup_name, wide("library"));
    assert!(!prepared.actctx_lookup_allowed);
    assert_eq!(
        prepare_isolation_name(0, &vec![b'x' as u16; 32_766], Some(&wide(".dll"))),
        Err(STATUS_NAME_TOO_LONG)
    );
    assert_eq!(
        prepare_isolation_name(2, &wide("x.dll"), None),
        Err(STATUS_INVALID_PARAMETER)
    );
}

#[test]
fn recognizes_only_system32_absolute_inputs_for_actctx_lookup() {
    assert!(absolute_path_is_system32(
        &wide("C:\\ReactOS\\System32\\comctl32.dll"),
        &wide("c:\\reactos")
    ));
    assert!(!absolute_path_is_system32(
        &wide("C:\\comctl32.dll"),
        &wide("C:\\ReactOS")
    ));
    assert!(redirection_applies_to_path(0, true));
    assert!(!redirection_applies_to_path(0, false));
    assert!(redirection_applies_to_path(
        DLL_REDIRECTION_PATH_SYSTEM_DEFAULT_REDIRECTED_SYSTEM32_DLL,
        false
    ));
}

#[test]
fn composes_local_global_and_load_from_paths() {
    let omitted = DllRedirectionData {
        flags: DLL_REDIRECTION_PATH_OMITS_ASSEMBLY_ROOT,
        path_segments: Vec::new(),
    };
    assert_eq!(
        compose_redirected_path(
            &omitted,
            &wide("C:\\app\\sample.manifest"),
            &[],
            &wide("C:\\ReactOS"),
            &wide("test.dll"),
        )
        .unwrap(),
        wide("C:\\app\\test.dll")
    );
    assert_eq!(
        compose_redirected_path(
            &omitted,
            &wide("C:\\ReactOS\\WinSxS\\x86_test.manifest"),
            &wide("x86_test"),
            &wide("C:\\ReactOS"),
            &wide("test.dll"),
        )
        .unwrap(),
        wide("C:\\ReactOS\\winsxs\\x86_test\\test.dll")
    );

    let complete = DllRedirectionData {
        flags: DLL_REDIRECTION_PATH_INCLUDES_BASE_NAME,
        path_segments: vec![wide("bin\\renamed.dll")],
    };
    assert_eq!(
        compose_redirected_path(
            &complete,
            &wide("C:\\app\\sample.manifest"),
            &[],
            &wide("C:\\ReactOS"),
            &wide("test.dll"),
        )
        .unwrap(),
        wide("bin\\renamed.dll")
    );
    let directory = DllRedirectionData {
        flags: 0,
        path_segments: vec![wide("bin\\")],
    };
    assert_eq!(
        compose_redirected_path(
            &directory,
            &wide("C:\\app\\sample.manifest"),
            &[],
            &wide("C:\\ReactOS"),
            &wide("test.dll"),
        )
        .unwrap(),
        wide("bin\\test.dll")
    );
    let segmented = DllRedirectionData {
        flags: DLL_REDIRECTION_PATH_INCLUDES_BASE_NAME,
        path_segments: vec![wide("%ROOT%\\"), wide("renamed.dll")],
    };
    assert_eq!(
        compose_redirected_path(
            &segmented,
            &wide("C:\\app\\sample.manifest"),
            &[],
            &wide("C:\\ReactOS"),
            &wide("test.dll"),
        )
        .unwrap(),
        wide("%ROOT%\\renamed.dll")
    );
}

#[test]
fn output_selection_accepts_exact_static_capacity() {
    assert_eq!(
        select_output(4, Some(10), false, false),
        Ok((OutputSelection::Static, 10))
    );
    assert_eq!(
        select_output(4, Some(8), true, false),
        Ok((OutputSelection::Dynamic, 10))
    );
    assert_eq!(
        select_output(4, None, false, false),
        Ok((OutputSelection::ExistenceOnly, 10))
    );
    assert_eq!(
        select_output(4, None, false, true),
        Err(STATUS_BUFFER_TOO_SMALL)
    );
    assert_eq!(file_part_prefix_cch(&wide("C:\\app\\x.dll")), 7);
}

#[test]
fn decodes_generated_redirection_data() {
    let redirects = vec![
        nt_ntdll::activation::DllRedirect {
            name: wide("plain.dll"),
            load_from: None,
        },
        nt_ntdll::activation::DllRedirect {
            name: wide("mapped.dll"),
            load_from: Some(wide("bin\\mapped.dll")),
        },
    ];
    let section =
        nt_ntdll::activation_section::build_dll_redirection_section(&redirects).unwrap();
    let plain =
        nt_ntdll::activation_section::find_dll_redirection(&section, &wide("plain.dll"))
            .unwrap()
            .unwrap();
    assert_eq!(
        nt_ntdll::activation_section::decode_dll_redirection(&section, plain).unwrap(),
        DllRedirectionData {
            flags: DLL_REDIRECTION_PATH_OMITS_ASSEMBLY_ROOT,
            path_segments: Vec::new(),
        }
    );
    let mapped =
        nt_ntdll::activation_section::find_dll_redirection(&section, &wide("mapped.dll"))
            .unwrap()
            .unwrap();
    assert_eq!(
        nt_ntdll::activation_section::decode_dll_redirection(&section, mapped).unwrap(),
        DllRedirectionData {
            flags: DLL_REDIRECTION_PATH_INCLUDES_BASE_NAME,
            path_segments: vec![wide("bin\\mapped.dll")],
        }
    );

    let empty_section = nt_ntdll::activation_section::build_dll_redirection_section(&[
        nt_ntdll::activation::DllRedirect {
            name: wide("empty.dll"),
            load_from: Some(Vec::new()),
        },
    ])
    .unwrap();
    let empty_match = nt_ntdll::activation_section::find_dll_redirection(
        &empty_section,
        &wide("empty.dll"),
    )
    .unwrap()
    .unwrap();
    let empty =
        nt_ntdll::activation_section::decode_dll_redirection(&empty_section, empty_match)
            .unwrap();
    assert_eq!(
        empty,
        DllRedirectionData {
            flags: 0,
            path_segments: vec![Vec::new()],
        }
    );
    assert_eq!(
        compose_redirected_path(
            &empty,
            &wide("C:\\app\\sample.manifest"),
            &[],
            &wide("C:\\ReactOS"),
            &wide("empty.dll"),
        )
        .unwrap(),
        wide("empty.dll")
    );
}

#[test]
fn names_need_something_to_look_up() {
    assert_eq!(
        prepare_isolation_name(0, &[], Some(&wide(".dll"))),
        Err(STATUS_SXS_KEY_NOT_FOUND)
    );
    let prepared = prepare_isolation_name(1, &wide("dir/"), Some(&[])).unwrap();
    assert_eq!(prepared.lookup_name, wide(""));
    assert!(!prepared.actctx_lookup_allowed);
    let prepared = prepare_isolation_name(0, &wide("/a.b/c"), None).unwrap();
    assert!(!prepared.path_is_relative);
    assert_eq!(prepared.lookup_name, wide("c"));
    let longest = vec![b'x' as u16; 32_762];
    assert_eq!(
        prepare_isolation_name(0, &longest, Some(&wide(".dll")))
            .unwrap()
            .lookup_name
            .len(),
        32_766
    );
}

#[test]
fn a_path_that_is_too_long_has_no_size() {
    assert_eq!(
        select_output(usize::MAX, Some(usize::MAX), true, false),
        Err(STATUS_NO_MEMORY)
    );
    assert_eq!(
        select_output(4, Some(9), false, false),
        Err(STATUS_BUFFER_TOO_SMALL)
    );
    assert_eq!(file_part_prefix_cch(&wide("plain")), 0);
    assert!(!absolute_path_is_system32(&wide("x.dll"), &wide("C:\\R")));
    assert!(absolute_path_is_system32(
        &wide("C:\\R\\System32\\\\x.dll"),
        &wide("C:\\R\\")
    ));
}
