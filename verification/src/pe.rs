//! The parts of a PE32+ image that the loader routines look at, and lookups by relative virtual
//! address.

use vstd::prelude::*;

verus! {

/// Where a data directory is. One whose address is zero is absent.
#[derive(Clone, Copy, Debug, PartialEq, Eq, Structural)]
pub struct DataDirectory {
    pub virtual_address: u32,
    pub size: u32,
}

/// One section of an image.
#[derive(Clone, Debug, PartialEq, Eq)]
pub struct PeSection {
    pub name: String,
    pub virtual_address: u32,
    pub virtual_size: u32,
    pub size_of_raw_data: u32,
}

/// The headers of an image.
#[derive(Clone, Debug, PartialEq, Eq)]
pub struct PeHeaders {
    /// Where the NT headers start in the file.
    pub nt_offset: usize,
    pub characteristics: u16,
    /// The preferred load address.
    pub image_base: u64,
    pub entry_point_rva: u32,
    pub size_of_image: u32,
    pub subsystem: u16,
    pub directories: [DataDirectory; 16],
    pub sections: Vec<PeSection>,
}

/// What stands in an image: the bytes at an address, and the text at an address up to its
/// terminator.
pub struct Contents {
    pub bytes: spec_fn(u32, int) -> Option<Seq<u8>>,
    pub text: spec_fn(u32) -> Option<Seq<u8>>,
}

/// The bytes of a lookup.
pub open spec fn found(r: Option<Vec<u8>>) -> Option<Seq<u8>> {
    match r {
        Some(v) => Some(v@),
        None => None,
    }
}

/// Whether the lookups can be asked for everything, and give as many bytes as they are asked for.
pub open spec fn looks_up_fully<
    B: Fn(u32, usize) -> Option<Vec<u8>>,
    T: Fn(u32) -> Option<Vec<u8>>,
>(bytes_at: B, text_at: T) -> bool {
    &&& forall|rva: u32, n: usize| #[trigger] call_requires(bytes_at, (rva, n))
    &&& forall|rva: u32| #[trigger] call_requires(text_at, (rva,))
    &&& forall|rva: u32, n: usize, v: Vec<u8>| #[trigger]
        call_ensures(bytes_at, (rva, n), Some(v)) ==> v@.len() == n
}

/// Whether the lookups give what stands in an image.
pub open spec fn looks_up<
    B: Fn(u32, usize) -> Option<Vec<u8>>,
    T: Fn(u32) -> Option<Vec<u8>>,
>(bytes_at: B, text_at: T, contents: Contents) -> bool {
    &&& forall|rva: u32, n: usize, r: Option<Vec<u8>>| #[trigger]
        call_ensures(bytes_at, (rva, n), r) ==> found(r) == (contents.bytes)(rva, n as int)
    &&& forall|rva: u32, r: Option<Vec<u8>>| #[trigger]
        call_ensures(text_at, (rva,), r) ==> found(r) == (contents.text)(rva)
}

} // verus!
