//! Verified runtime-library routines for a Windows-style `ntdll`.

use vstd::prelude::*;

pub mod activation;
pub mod activation_dependency;
pub mod activation_manifest;
pub mod activation_query;
pub mod activation_redirection;
pub mod activation_section;
pub mod activation_settings;
pub mod avl_table;
pub mod bitmap;
pub mod bytes;
pub mod compression;
pub mod convert;
pub mod debug_buffer;
pub mod decimal;
pub mod dos8dot3;
pub mod dynamic_function_table;
pub mod encode;
pub mod environment;
pub mod exception;
pub mod fls;
pub mod generic_table;
pub mod guid;
pub mod heap;
pub mod image;
pub mod image_verify;
pub mod import_table_hash;
pub mod integer;
pub mod locale;
pub mod memory;
pub mod memstream;
pub mod message;
pub mod pe;
pub mod splay;
pub mod strings;
pub mod utf16;

verus! {

/// A native status code.
pub type NtStatus = u32;

/// A parameter was out of range.
pub const STATUS_INVALID_PARAMETER: NtStatus = 0xC000_000D;

} // verus!
