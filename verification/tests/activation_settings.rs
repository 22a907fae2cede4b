use nt_ntdll::activation_manifest::{ManifestApplicationSetting};
use nt_ntdll::activation_settings::{is_valid_namespace, STATUS_BUFFER_TOO_SMALL, STATUS_INVALID_PARAMETER, STATUS_SXS_KEY_NOT_FOUND, WINDOWS_SETTINGS_2005, query_application_setting};

fn wide(value: &str) -> Vec<u16> {
    value.encode_utf16().collect()
}

fn setting(namespace: &str, name: &str, value: &str) -> ManifestApplicationSetting {
    ManifestApplicationSetting {
        namespace: wide(namespace),
        name: wide(name),
        value: wide(value),
    }
}

#[test]
fn defaults_to_2005_and_preserves_insertion_order() {
    let settings = vec![
        setting(WINDOWS_SETTINGS_2005, "dpiAware", "first"),
        setting(WINDOWS_SETTINGS_2005, "dpiAware", "second"),
    ];
    let query =
        query_application_setting(&settings, None, &wide("dpiAware"), usize::MAX).unwrap();
    assert_eq!(query.value, wide("first"));
    assert_eq!(query.required_chars, 6);
    assert_eq!(query.status, 0);
}

#[test]
fn validates_namespaces_and_matches_name_case() {
    let settings = vec![setting(
        "http://schemas.microsoft.com/SMI/2016/WindowsSettings",
        "dpiAwareness",
        "true",
    )];
    assert_eq!(
        query_application_setting(
            &settings,
            Some(&wide("urn:invalid")),
            &wide("dpiAwareness"),
            8,
        ),
        Err(STATUS_INVALID_PARAMETER)
    );
    assert_eq!(
        query_application_setting(
            &settings,
            Some(&wide(
                "http://schemas.microsoft.com/SMI/2016/WindowsSettings"
            )),
            &wide("DpiAwareness"),
            8,
        ),
        Err(STATUS_SXS_KEY_NOT_FOUND)
    );
}

#[test]
fn reports_native_buffer_boundary_and_required_terminator() {
    let settings = vec![setting(WINDOWS_SETTINGS_2005, "dpiAware", "true")];
    let exact_native =
        query_application_setting(&settings, None, &wide("dpiAware"), 4).unwrap();
    assert_eq!(exact_native.required_chars, 5);
    assert_eq!(exact_native.status, 0);
    let short = query_application_setting(&settings, None, &wide("dpiAware"), 3).unwrap();
    assert_eq!(short.required_chars, 5);
    assert_eq!(short.status, STATUS_BUFFER_TOO_SMALL);
}

#[test]
fn supports_explicit_empty_values() {
    let settings = vec![setting(WINDOWS_SETTINGS_2005, "dpiAware", "")];
    let query = query_application_setting(&settings, None, &wide("dpiAware"), 0).unwrap();
    assert_eq!(query.value, []);
    assert_eq!(query.required_chars, 1);
    assert_eq!(query.status, 0);
}

#[test]
fn every_known_namespace_can_be_asked_for() {
    for year in ["2005", "2011", "2016", "2017", "2019", "2020"] {
        let namespace = format!("http://schemas.microsoft.com/SMI/{year}/WindowsSettings");
        assert!(is_valid_namespace(&wide(&namespace)));
        let settings = [setting(&namespace, "n", "v")];
        let query =
            query_application_setting(&settings, Some(&wide(&namespace)), &wide("n"), 1).unwrap();
        assert_eq!(query.value, wide("v"));
    }
    assert!(!is_valid_namespace(&wide(
        "http://schemas.microsoft.com/SMI/2012/WindowsSettings"
    )));
    assert!(!is_valid_namespace(&[]));
    let settings = [setting(
        "http://schemas.microsoft.com/SMI/2016/WindowsSettings",
        "n",
        "v",
    )];
    assert_eq!(
        query_application_setting(&settings, None, &wide("n"), 1),
        Err(STATUS_SXS_KEY_NOT_FOUND)
    );
}
