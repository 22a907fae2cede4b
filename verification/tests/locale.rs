use nt_ntdll::locale::{MUI_THREAD_LANGUAGES, MUI_UI_FALLBACK, MUI_FULL_LANGUAGE, MUI_LANGUAGE_ID, MUI_LANGUAGE_NAME, MUI_MACHINE_LANGUAGE_SETTINGS, PreferredUiLanguageKind, STATUS_BUFFER_TOO_SMALL, STATUS_INVALID_PARAMETER, STATUS_SUCCESS, preferred_ui_languages, query_preferred_ui_languages};

#[test]
fn language_id_is_hex_multi_sz() {
    let languages =
        preferred_ui_languages(PreferredUiLanguageKind::System, MUI_LANGUAGE_ID).unwrap();
    assert_eq!(languages.count, 1);
    assert_eq!(languages.required, 6);
    assert_eq!(
        languages.units,
        std::vec![b'0' as u16, b'4' as u16, b'0' as u16, b'9' as u16, 0, 0]
    );
}

#[test]
fn language_name_is_locale_name_multi_sz() {
    let languages =
        preferred_ui_languages(PreferredUiLanguageKind::User, MUI_LANGUAGE_NAME).unwrap();
    assert_eq!(languages.count, 1);
    assert_eq!(languages.required, 7);
    assert_eq!(
        languages.units,
        std::vec![
            b'e' as u16,
            b'n' as u16,
            b'-' as u16,
            b'U' as u16,
            b'S' as u16,
            0,
            0
        ]
    );
}

#[test]
fn defaults_match_kernelbase_expectations() {
    assert_eq!(
        preferred_ui_languages(PreferredUiLanguageKind::System, 0)
            .unwrap()
            .required,
        7
    );
    assert_eq!(
        preferred_ui_languages(PreferredUiLanguageKind::User, 0)
            .unwrap()
            .required,
        7
    );
    assert_eq!(
        preferred_ui_languages(PreferredUiLanguageKind::Thread, 0)
            .unwrap()
            .required,
        6
    );
}

#[test]
fn invalid_flag_combinations_are_rejected() {
    assert_eq!(
        preferred_ui_languages(PreferredUiLanguageKind::User, MUI_FULL_LANGUAGE),
        Err(STATUS_INVALID_PARAMETER)
    );
    assert_eq!(
        preferred_ui_languages(
            PreferredUiLanguageKind::User,
            MUI_LANGUAGE_ID | MUI_LANGUAGE_NAME
        ),
        Err(STATUS_INVALID_PARAMETER)
    );
    assert_eq!(
        preferred_ui_languages(
            PreferredUiLanguageKind::User,
            MUI_LANGUAGE_ID | MUI_MACHINE_LANGUAGE_SETTINGS
        ),
        Err(STATUS_INVALID_PARAMETER)
    );
}

#[test]
fn query_without_buffer_reports_required_size() {
    let query =
        query_preferred_ui_languages(PreferredUiLanguageKind::System, MUI_LANGUAGE_ID, false, 0);
    assert_eq!(query.status, STATUS_SUCCESS);
    assert_eq!(query.count, 1);
    assert_eq!(query.required, 6);
    assert!(query.units.is_empty());
}

#[test]
fn query_rejects_null_buffer_with_nonzero_capacity() {
    let query =
        query_preferred_ui_languages(PreferredUiLanguageKind::User, MUI_LANGUAGE_ID, false, 1);
    assert_eq!(query.status, STATUS_INVALID_PARAMETER);
    assert_eq!(query.count, 0);
    assert_eq!(query.required, 6);
}

#[test]
fn query_reports_too_small_without_copy_payload() {
    let query =
        query_preferred_ui_languages(PreferredUiLanguageKind::Thread, MUI_LANGUAGE_ID, true, 5);
    assert_eq!(query.status, STATUS_BUFFER_TOO_SMALL);
    assert_eq!(query.count, 1);
    assert_eq!(query.required, 6);
    assert!(query.units.is_empty());
}

#[test]
fn a_buffer_that_fits_gets_the_list() {
    let query =
        query_preferred_ui_languages(PreferredUiLanguageKind::Thread, MUI_LANGUAGE_NAME, true, 7);
    assert_eq!(query.status, STATUS_SUCCESS);
    assert_eq!(query.required, 7);
    assert_eq!(query.units, "en-US\0\0".encode_utf16().collect::<Vec<_>>());
    let query = query_preferred_ui_languages(
        PreferredUiLanguageKind::Thread,
        MUI_THREAD_LANGUAGES | MUI_UI_FALLBACK,
        true,
        6,
    );
    assert_eq!(query.units, "0409\0\0".encode_utf16().collect::<Vec<_>>());
    let query = query_preferred_ui_languages(
        PreferredUiLanguageKind::System,
        MUI_THREAD_LANGUAGES,
        true,
        60,
    );
    assert_eq!(query.status, STATUS_INVALID_PARAMETER);
    assert_eq!((query.count, query.required), (0, 0));
}
