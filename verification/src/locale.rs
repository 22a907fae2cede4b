//! Preferred languages of the user interface.
//!
//! There is one: English of the United States.

use vstd::prelude::*;

use crate::activation_manifest::{extend_ascii, wide};

pub mod laws;

verus! {

pub const STATUS_SUCCESS: u32 = 0x0000_0000;

pub const STATUS_BUFFER_TOO_SMALL: u32 = 0xC000_0023;

pub const STATUS_INVALID_PARAMETER: u32 = 0xC000_000D;

pub const MUI_FULL_LANGUAGE: u32 = 0x0001;

pub const MUI_LANGUAGE_ID: u32 = 0x0004;

pub const MUI_LANGUAGE_NAME: u32 = 0x0008;

pub const MUI_MERGE_SYSTEM_FALLBACK: u32 = 0x0010;

pub const MUI_MERGE_USER_FALLBACK: u32 = 0x0020;

pub const MUI_UI_FALLBACK: u32 = 0x0030;

pub const MUI_THREAD_LANGUAGES: u32 = 0x0040;

pub const MUI_MACHINE_LANGUAGE_SETTINGS: u32 = 0x0400;

/// Whose languages are asked for.
#[derive(Clone, Copy, Debug, PartialEq, Eq, Structural)]
pub enum PreferredUiLanguageKind {
    System,
    Thread,
    User,
}

/// How a language is written.
#[derive(Clone, Copy, Debug, PartialEq, Eq, Structural)]
enum PreferredUiLanguageFormat {
    LanguageId,
    LanguageName,
}

/// A list of languages, each with a zero behind it, and one more zero.
#[derive(Clone, Debug, PartialEq, Eq)]
pub struct PreferredUiLanguages {
    pub count: u32,
    /// How many code units the list takes.
    pub required: u32,
    pub units: Vec<u16>,
}

/// The answer to a query.
#[derive(Clone, Debug, PartialEq, Eq)]
pub struct PreferredUiLanguageQuery {
    pub status: u32,
    pub count: u32,
    pub required: u32,
    /// What is copied to the buffer.
    pub units: Vec<u16>,
}

/// Whether a flag is set.
pub open spec fn flag_set(flags: u32, flag: u32) -> bool {
    flags & flag != 0
}

/// The flags that can be used.
pub open spec fn allowed_flags(kind: PreferredUiLanguageKind) -> u32 {
    match kind {
        PreferredUiLanguageKind::System => 0x43c,
        PreferredUiLanguageKind::Thread => 0x7c,
        PreferredUiLanguageKind::User => 0x3c,
    }
}

/// Whether flags are in order: all can be used, and they do not ask for both ways of writing.
pub open spec fn flags_ok(kind: PreferredUiLanguageKind, flags: u32) -> bool {
    flags & !allowed_flags(kind) == 0 && !(flag_set(flags, MUI_LANGUAGE_ID) && flag_set(
        flags,
        MUI_LANGUAGE_NAME,
    ))
}

/// Whether languages are written as numbers. Without flags, those of a thread are.
pub open spec fn as_number(kind: PreferredUiLanguageKind, flags: u32) -> bool {
    flag_set(flags, MUI_LANGUAGE_ID) || (!flag_set(flags, MUI_LANGUAGE_NAME) && kind
        == PreferredUiLanguageKind::Thread)
}

/// The list of languages.
pub open spec fn language_list(kind: PreferredUiLanguageKind, flags: u32) -> Seq<u16> {
    (if as_number(kind, flags) {
        wide("0409"@)
    } else {
        wide("en-US"@)
    }) + seq![0u16, 0]
}

fn preferred_format(kind: PreferredUiLanguageKind, flags: u32) -> (r: Result<
    PreferredUiLanguageFormat,
    u32,
>)
    ensures
        if flags_ok(kind, flags) {
            r == Ok::<PreferredUiLanguageFormat, u32>(
                if as_number(kind, flags) {
                    PreferredUiLanguageFormat::LanguageId
                } else {
                    PreferredUiLanguageFormat::LanguageName
                },
            )
        } else {
            r == Err::<PreferredUiLanguageFormat, u32>(STATUS_INVALID_PARAMETER)
        },
{
    let number: bool = flags & MUI_LANGUAGE_ID != 0;
    let name: bool = flags & MUI_LANGUAGE_NAME != 0;
    let allowed: u32 = match kind {
        PreferredUiLanguageKind::System => MUI_LANGUAGE_ID | MUI_LANGUAGE_NAME | MUI_UI_FALLBACK
            | MUI_MACHINE_LANGUAGE_SETTINGS,
        PreferredUiLanguageKind::Thread => MUI_LANGUAGE_ID | MUI_LANGUAGE_NAME | MUI_UI_FALLBACK
            | MUI_THREAD_LANGUAGES,
        PreferredUiLanguageKind::User => MUI_LANGUAGE_ID | MUI_LANGUAGE_NAME | MUI_UI_FALLBACK,
    };
    assert(4u32 | 8 | 0x30 | 0x400 == 0x43c && 4u32 | 8 | 0x30 | 0x40 == 0x7c && 4u32 | 8 | 0x30
        == 0x3c) by (bit_vector);
    if (number && name) || flags & !allowed != 0 {
        return Err(STATUS_INVALID_PARAMETER);
    }
    if number {
        return Ok(PreferredUiLanguageFormat::LanguageId);
    }
    if name {
        return Ok(PreferredUiLanguageFormat::LanguageName);
    }
    match kind {
        PreferredUiLanguageKind::Thread => Ok(PreferredUiLanguageFormat::LanguageId),
        _ => Ok(PreferredUiLanguageFormat::LanguageName),
    }
}

/// Asking for full languages is never in order.
pub proof fn full_languages_are_refused(kind: PreferredUiLanguageKind, flags: u32)
    requires
        flag_set(flags, MUI_FULL_LANGUAGE),
    ensures
        !flags_ok(kind, flags),
{
    let allowed = allowed_flags(kind);
    assert(flags & 1 != 0 && (allowed == 0x43c || allowed == 0x7c || allowed == 0x3c) ==> flags
        & !allowed != 0) by (bit_vector);
}

/// The preferred languages.
pub fn preferred_ui_languages(kind: PreferredUiLanguageKind, flags: u32) -> (r: Result<
    PreferredUiLanguages,
    u32,
>)
    ensures
        if flags_ok(kind, flags) {
            &&& r is Ok
            &&& r->Ok_0.count == 1
            &&& r->Ok_0.units@ == language_list(kind, flags)
            &&& r->Ok_0.required == language_list(kind, flags).len()
        } else {
            r == Err::<PreferredUiLanguages, u32>(STATUS_INVALID_PARAMETER)
        },
{
    let format: PreferredUiLanguageFormat = match preferred_format(kind, flags) {
        Ok(format) => format,
        Err(e) => {
            return Err(e);
        },
    };
    let mut units: Vec<u16> = Vec::new();
    proof {
        reveal_strlit("0409");
        reveal_strlit("en-US");
    }
    match format {
        PreferredUiLanguageFormat::LanguageId => extend_ascii(&mut units, "0409"),
        PreferredUiLanguageFormat::LanguageName => extend_ascii(&mut units, "en-US"),
    }
    units.push(0);
    units.push(0);
    assert(units@ =~= language_list(kind, flags));
    Ok(PreferredUiLanguages { count: 1, required: units.len() as u32, units })
}

/// Ask for the preferred languages, with a buffer or for the size that it has to have.
pub fn query_preferred_ui_languages(
    kind: PreferredUiLanguageKind,
    flags: u32,
    buffer_present: bool,
    buffer_capacity: u32,
) -> (r: PreferredUiLanguageQuery)
    ensures
        ({
            let list = language_list(kind, flags);
            if !flags_ok(kind, flags) {
                r.status == STATUS_INVALID_PARAMETER && r.count == 0 && r.required == 0 && r.units@
                    == Seq::<u16>::empty()
            } else if !buffer_present && buffer_capacity != 0 {
                r.status == STATUS_INVALID_PARAMETER && r.count == 0 && r.required == list.len()
                    && r.units@ == Seq::<u16>::empty()
            } else if buffer_present && buffer_capacity < list.len() {
                r.status == STATUS_BUFFER_TOO_SMALL && r.count == 1 && r.required == list.len()
                    && r.units@ == Seq::<u16>::empty()
            } else {
                r.status == STATUS_SUCCESS && r.count == 1 && r.required == list.len() && r.units@
                    == if buffer_present {
                    list
                } else {
                    Seq::empty()
                }
            }
        }),
{
    let languages: PreferredUiLanguages = match preferred_ui_languages(kind, flags) {
        Ok(languages) => languages,
        Err(status) => {
            return PreferredUiLanguageQuery { status, count: 0, required: 0, units: Vec::new() };
        },
    };
    if !buffer_present && buffer_capacity != 0 {
        return PreferredUiLanguageQuery {
            status: STATUS_INVALID_PARAMETER,
            count: 0,
            required: languages.required,
            units: Vec::new(),
        };
    }
    if buffer_present && buffer_capacity < languages.required {
        return PreferredUiLanguageQuery {
            status: STATUS_BUFFER_TOO_SMALL,
            count: languages.count,
            required: languages.required,
            units: Vec::new(),
        };
    }
    PreferredUiLanguageQuery {
        status: STATUS_SUCCESS,
        count: languages.count,
        required: languages.required,
        units: if buffer_present {
            languages.units
        } else {
            Vec::new()
        },
    }
}

} // verus!
