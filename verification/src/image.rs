//! Queries about a mapped image, given its headers.

use vstd::prelude::*;

use crate::pe::{PeHeaders, PeSection};

pub mod directory;
pub mod laws;

verus! {

/// The header fields that matter for loading.
#[derive(Clone, Debug, PartialEq, Eq, Structural)]
pub struct ImageInfo {
    /// The preferred load address.
    pub image_base: u64,
    /// Where the entry point is.
    pub entry_point_rva: u32,
    /// How much address space the image takes.
    pub size_of_image: u32,
    pub subsystem: u16,
}

/// The header fields that matter for loading; `None` where there are no valid headers.
pub fn image_nt_header(headers: Option<&PeHeaders>) -> (r: Option<ImageInfo>)
    ensures
        r == match headers {
            Some(pe) => Some(
                ImageInfo {
                    image_base: pe.image_base,
                    entry_point_rva: pe.entry_point_rva,
                    size_of_image: pe.size_of_image,
                    subsystem: pe.subsystem,
                },
            ),
            None => None,
        },
{
    match headers {
        Some(pe) => Some(
            ImageInfo {
                image_base: pe.image_base,
                entry_point_rva: pe.entry_point_rva,
                size_of_image: pe.size_of_image,
                subsystem: pe.subsystem,
            },
        ),
        None => None,
    }
}

/// The address and size of a data directory. `None` where the index is unknown or the directory is
/// absent.
pub fn image_directory_entry(headers: Option<&PeHeaders>, index: usize) -> (r: Option<(u32, u32)>)
    ensures
        r == match headers {
            Some(pe) => if index < 16 && pe.directories@[index as int].virtual_address != 0
                && pe.directories@[index as int].size != 0 {
                Some(
                    (
                        pe.directories@[index as int].virtual_address,
                        pe.directories@[index as int].size,
                    ),
                )
            } else {
                None
            },
            None => None,
        },
{
    if index >= 16 {
        return None;
    }
    match headers {
        Some(pe) => {
            let d = pe.directories[index];
            if d.virtual_address == 0 || d.size == 0 {
                None
            } else {
                Some((d.virtual_address, d.size))
            }
        },
        None => None,
    }
}

/// The virtual address of a relative one that lies inside the image.
pub fn image_rva_to_va(headers: Option<&PeHeaders>, load_base: u64, rva: u32) -> (r: Option<u64>)
    requires
        headers matches Some(pe) ==> rva < pe.size_of_image ==> load_base + rva <= u64::MAX,
    ensures
        r == match headers {
            Some(pe) => if rva < pe.size_of_image {
                Some((load_base + rva) as u64)
            } else {
                None
            },
            None => None,
        },
{
    match headers {
        Some(pe) => if rva < pe.size_of_image {
            Some(load_base + rva as u64)
        } else {
            None
        },
        None => None,
    }
}

/// How much address space a section takes: the larger of its two sizes.
pub open spec fn section_extent(s: PeSection) -> int {
    if s.virtual_size > s.size_of_raw_data {
        s.virtual_size as int
    } else {
        s.size_of_raw_data as int
    }
}

/// Whether a section covers an address.
pub open spec fn covers(s: PeSection, rva: u32) -> bool {
    s.virtual_address <= rva < s.virtual_address + section_extent(s)
}

/// The first section at or behind `i` that covers an address.
pub open spec fn covering_from(sections: Seq<PeSection>, i: int, rva: u32) -> Option<int>
    decreases sections.len() - i,
{
    if i >= sections.len() {
        None
    } else if covers(sections[i], rva) {
        Some(i)
    } else {
        covering_from(sections, i + 1, rva)
    }
}

/// How many sections are looked at for an address: all up to the first that covers it.
pub open spec fn looked_at(sections: Seq<PeSection>, rva: u32) -> int {
    match covering_from(sections, 0, rva) {
        Some(i) => i + 1,
        None => sections.len() as int,
    }
}

proof fn lemma_covering_from(sections: Seq<PeSection>, i: int, rva: u32)
    ensures
        covering_from(sections, i, rva) matches Some(k) ==> i <= k < sections.len(),
    decreases sections.len() - i,
{
    if i < sections.len() && !covers(sections[i], rva) {
        lemma_covering_from(sections, i + 1, rva);
    }
}

/// The name of the first section that covers an address. Each section that is looked at has to end
/// inside the address space.
pub fn image_rva_to_section<'a>(headers: Option<&'a PeHeaders>, rva: u32) -> (r: Option<&'a str>)
    requires
        headers matches Some(pe) ==> forall|i: int|
            0 <= i < looked_at(pe.sections@, rva) ==> (#[trigger] pe.sections@[i]).virtual_address
                + section_extent(pe.sections@[i]) <= u32::MAX,
    ensures
        match headers {
            Some(pe) => match covering_from(pe.sections@, 0, rva) {
                Some(i) => r matches Some(name) && name@ == pe.sections@[i].name@,
                None => r is None,
            },
            None => r is None,
        },
{
    let pe = match headers {
        Some(pe) => pe,
        None => {
            return None;
        },
    };
    let mut i: usize = 0;
    while i < pe.sections.len()
        invariant
            i <= pe.sections@.len(),
            headers == Some(pe),
            forall|k: int|
                0 <= k < looked_at(pe.sections@, rva) ==> (
                #[trigger] pe.sections@[k]).virtual_address + section_extent(pe.sections@[k])
                    <= u32::MAX,
            covering_from(pe.sections@, 0, rva) == covering_from(pe.sections@, i as int, rva),
        decreases pe.sections@.len() - i,
    {
        proof {
            lemma_covering_from(pe.sections@, i as int, rva);
        }
        let s = &pe.sections[i];
        let extent: u32 = if s.virtual_size > s.size_of_raw_data {
            s.virtual_size
        } else {
            s.size_of_raw_data
        };
        assert(*s == pe.sections@[i as int]);
        if rva >= s.virtual_address && rva < s.virtual_address + extent {
            return Some(s.name.as_str());
        }
        i += 1;
    }
    None
}

/// The load address of an image, where the program counter is inside it.
pub fn pc_to_file_header(headers: Option<&PeHeaders>, load_base: u64, pc: u64) -> (r: Option<u64>)
    requires
        headers matches Some(pe) ==> load_base + pe.size_of_image <= u64::MAX,
    ensures
        r == match headers {
            Some(pe) => if load_base <= pc < load_base + pe.size_of_image {
                Some(load_base)
            } else {
                None
            },
            None => None,
        },
{
    match headers {
        Some(pe) => if pc >= load_base && pc < load_base + pe.size_of_image as u64 {
            Some(load_base)
        } else {
            None
        },
        None => None,
    }
}

} // verus!
