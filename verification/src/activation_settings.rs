//! Looking up the settings that a manifest makes for its application.

use vstd::prelude::*;

use crate::activation_manifest::xml::{ascii_slice_eq, spells};
use crate::activation_manifest::ManifestApplicationSetting;
use crate::bytes::same_units;
use crate::NtStatus;

pub mod laws;

verus! {

pub const STATUS_BUFFER_TOO_SMALL: NtStatus = 0xC000_0023;

pub const STATUS_INVALID_PARAMETER: NtStatus = 0xC000_000D;

pub const STATUS_SXS_KEY_NOT_FOUND: NtStatus = 0xC015_0008;

/// The namespace of a setting that is asked for without one.
pub const WINDOWS_SETTINGS_2005: &'static str = "http://schemas.microsoft.com/SMI/2005/WindowsSettings";

/// What a setting is, and whether a buffer can hold it.
#[derive(Clone, Copy, Debug, PartialEq, Eq)]
pub struct ApplicationSettingQuery<'a> {
    pub value: &'a [u16],
    /// The length of the value with its terminator.
    pub required_chars: usize,
    pub status: NtStatus,
}

/// Whether a namespace is one of those that settings can be in.
pub open spec fn known_namespace(namespace: Seq<u16>) -> bool {
    spells(namespace, "http://schemas.microsoft.com/SMI/2005/WindowsSettings"@) || spells(
        namespace,
        "http://schemas.microsoft.com/SMI/2011/WindowsSettings"@,
    ) || spells(namespace, "http://schemas.microsoft.com/SMI/2016/WindowsSettings"@) || spells(
        namespace,
        "http://schemas.microsoft.com/SMI/2017/WindowsSettings"@,
    ) || spells(namespace, "http://schemas.microsoft.com/SMI/2019/WindowsSettings"@) || spells(
        namespace,
        "http://schemas.microsoft.com/SMI/2020/WindowsSettings"@,
    )
}

/// Whether a setting is the one that is asked for.
pub open spec fn setting_matches(
    setting: ManifestApplicationSetting,
    namespace: Option<&[u16]>,
    name: Seq<u16>,
) -> bool {
    setting.name@ == name && match namespace {
        Some(namespace) => setting.namespace@ == namespace@,
        None => spells(setting.namespace@, "http://schemas.microsoft.com/SMI/2005/WindowsSettings"@),
    }
}

/// The first setting at or behind `i` that is the one asked for.
pub open spec fn first_setting(
    settings: Seq<ManifestApplicationSetting>,
    namespace: Option<&[u16]>,
    name: Seq<u16>,
    i: int,
) -> Option<int>
    decreases settings.len() - i,
{
    if i >= settings.len() {
        None
    } else if setting_matches(settings[i], namespace, name) {
        Some(i)
    } else {
        first_setting(settings, namespace, name, i + 1)
    }
}

/// Whether a namespace is one of those that settings can be in.
pub fn is_valid_namespace(namespace: &[u16]) -> (valid: bool)
    ensures
        valid == known_namespace(namespace@),
{
    ascii_slice_eq(namespace, "http://schemas.microsoft.com/SMI/2005/WindowsSettings")
        || ascii_slice_eq(namespace, "http://schemas.microsoft.com/SMI/2011/WindowsSettings")
        || ascii_slice_eq(namespace, "http://schemas.microsoft.com/SMI/2016/WindowsSettings")
        || ascii_slice_eq(namespace, "http://schemas.microsoft.com/SMI/2017/WindowsSettings")
        || ascii_slice_eq(namespace, "http://schemas.microsoft.com/SMI/2019/WindowsSettings")
        || ascii_slice_eq(namespace, "http://schemas.microsoft.com/SMI/2020/WindowsSettings")
}

fn is_setting(setting: &ManifestApplicationSetting, namespace: Option<&[u16]>, name: &[u16]) -> (yes:
    bool)
    ensures
        yes == setting_matches(*setting, namespace, name@),
{
    let same_namespace: bool = match namespace {
        Some(namespace) => same_units(setting.namespace.as_slice(), namespace),
        None => ascii_slice_eq(
            setting.namespace.as_slice(),
            "http://schemas.microsoft.com/SMI/2005/WindowsSettings",
        ),
    };
    same_namespace && same_units(setting.name.as_slice(), name)
}

/// Look up the first setting of a name. A buffer is held to be large enough if it can take the
/// value without its terminator.
pub fn query_application_setting<'a>(
    settings: &'a [ManifestApplicationSetting],
    namespace: Option<&[u16]>,
    name: &[u16],
    buffer_chars: usize,
) -> (r: Result<ApplicationSettingQuery<'a>, NtStatus>)
    ensures
        if namespace is Some && !known_namespace(namespace->Some_0@) {
            r == Err::<ApplicationSettingQuery<'a>, NtStatus>(STATUS_INVALID_PARAMETER)
        } else {
            match first_setting(settings@, namespace, name@, 0) {
                None => r == Err::<ApplicationSettingQuery<'a>, NtStatus>(STATUS_SXS_KEY_NOT_FOUND),
                Some(i) => {
                    let value = settings@[i].value@;
                    if value.len() == usize::MAX {
                        r == Err::<ApplicationSettingQuery<'a>, NtStatus>(STATUS_BUFFER_TOO_SMALL)
                    } else {
                        &&& r is Ok
                        &&& r->Ok_0.value@ == value
                        &&& r->Ok_0.required_chars == value.len() + 1
                        &&& r->Ok_0.status == if buffer_chars < value.len() {
                            STATUS_BUFFER_TOO_SMALL
                        } else {
                            0
                        }
                    }
                },
            }
        },
{
    match namespace {
        Some(text) => {
            if !is_valid_namespace(text) {
                return Err(STATUS_INVALID_PARAMETER);
            }
        },
        None => {},
    }
    let mut i: usize = 0;
    while i < settings.len() && !is_setting(&settings[i], namespace, name)
        invariant
            i <= settings@.len(),
            first_setting(settings@, namespace, name@, 0) == first_setting(
                settings@,
                namespace,
                name@,
                i as int,
            ),
        decreases settings@.len() - i,
    {
        i += 1;
    }
    if i == settings.len() {
        return Err(STATUS_SXS_KEY_NOT_FOUND);
    }
    let value = settings[i].value.as_slice();
    if value.len() == usize::MAX {
        return Err(STATUS_BUFFER_TOO_SMALL);
    }
    Ok(
        ApplicationSettingQuery {
            value,
            required_chars: value.len() + 1,
            status: if buffer_chars < value.len() {
                STATUS_BUFFER_TOO_SMALL
            } else {
                0
            },
        },
    )
}

} // verus!
