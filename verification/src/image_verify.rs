//! Verification of an image file: its checksum and the names of the modules that it imports.

use vstd::prelude::*;

use crate::bytes::{get_u16, get_u32, le16, le32};
use crate::pe::{looks_up, looks_up_fully, Contents, PeHeaders};

pub mod laws;

verus! {

/// The largest image file that is verified.
pub const MAX_IMAGE_FILE_BYTES: usize = 268_435_456;

/// Where the checksum is in the optional header.
pub const CHECKSUM_OFFSET_IN_OPTIONAL_HEADER: usize = 64;

/// Where the optional header is behind the NT headers.
pub const OPTIONAL_HEADER_OFFSET_FROM_NT_HEADER: usize = 24;

/// How many import descriptors are read.
pub const MAX_IMPORT_DESCRIPTORS: usize = 256;

#[derive(Clone, Copy, Debug, PartialEq, Eq, Structural)]
pub enum ImageVerificationError {
    MalformedImage,
    ChecksumMismatch,
}

/// What was found of an image.
#[derive(Debug, PartialEq, Eq)]
pub struct VerifiedImage {
    pub characteristics: u16,
    /// The names of the imported modules, in the order of their descriptors.
    pub import_names: Vec<Vec<u8>>,
    pub stored_checksum: u32,
    pub calculated_checksum: u32,
}

// ---------------------------------------------------------------------------------------------
// The checksum
// ---------------------------------------------------------------------------------------------

/// The word `i` of an image as it is summed up: the checksum itself counts as zero, and a last
/// single byte as a word.
pub open spec fn summed_word(image: Seq<u8>, checksum_offset: int, i: int) -> int {
    let at = 2 * i;
    if at == checksum_offset || at == checksum_offset + 2 {
        0
    } else if at + 1 < image.len() {
        le16(image, at) as int
    } else {
        image[at] as int
    }
}

/// A sum with its carry added in.
pub open spec fn folded(sum: int) -> int {
    sum % 0x1_0000 + sum / 0x1_0000
}

/// The sum of the first `n` words, each carry added in.
pub open spec fn word_sum(image: Seq<u8>, checksum_offset: int, n: nat) -> int
    decreases n,
{
    if n == 0 {
        0
    } else {
        folded(
            word_sum(image, checksum_offset, (n - 1) as nat) + summed_word(
                image,
                checksum_offset,
                n - 1,
            ),
        )
    }
}

/// The checksum of an image: the folded sum of its words, and its length.
pub open spec fn image_checksum(image: Seq<u8>, checksum_offset: int) -> u32 {
    ((folded(folded(word_sum(image, checksum_offset, ((image.len() + 1) / 2) as nat)))
        + image.len()) % 0x1_0000_0000) as u32
}

/// Whether a checksum can stand at an offset.
pub open spec fn checksum_place_ok(image: Seq<u8>, checksum_offset: int) -> bool {
    image.len() <= u32::MAX && checksum_offset % 2 == 0 && checksum_offset + 4 <= image.len()
}

proof fn lemma_word_sum(image: Seq<u8>, checksum_offset: int, n: nat)
    requires
        2 * n <= image.len() + 1,
    ensures
        0 <= word_sum(image, checksum_offset, n) <= 0xffff,
    decreases n,
{
    if n > 0 {
        lemma_word_sum(image, checksum_offset, (n - 1) as nat);
        let sum = word_sum(image, checksum_offset, (n - 1) as nat);
        let word = summed_word(image, checksum_offset, n - 1);
        assert(0 <= word <= 0xffff);
        assert(sum + word <= 0x1_fffe);
    }
}

proof fn lemma_word_sum_same(a: Seq<u8>, b: Seq<u8>, checksum_offset: int, n: nat)
    requires
        a.len() == b.len(),
        checksum_offset % 2 == 0,
        forall|i: int|
            0 <= i < a.len() && !(checksum_offset <= i < checksum_offset + 4) ==> #[trigger] a[i]
                == b[i],
        2 * n <= a.len() + 1,
    ensures
        word_sum(a, checksum_offset, n) == word_sum(b, checksum_offset, n),
    decreases n,
{
    if n > 0 {
        lemma_word_sum_same(a, b, checksum_offset, (n - 1) as nat);
        let at = 2 * (n - 1);
        if at != checksum_offset && at != checksum_offset + 2 {
            reveal(le16);
            assert(a[at] == b[at]);
            if at + 1 < a.len() {
                assert(a[at + 1] == b[at + 1]);
            }
        }
    }
}

/// The checksum does not depend on the bytes in which it is stored, so an image whose checksum was
/// stored still has that checksum.
pub proof fn checksum_ignores_its_field(a: Seq<u8>, b: Seq<u8>, checksum_offset: int)
    requires
        a.len() == b.len(),
        checksum_offset % 2 == 0,
        forall|i: int|
            0 <= i < a.len() && !(checksum_offset <= i < checksum_offset + 4) ==> #[trigger] a[i]
                == b[i],
    ensures
        image_checksum(a, checksum_offset) == image_checksum(b, checksum_offset),
{
    lemma_word_sum_same(a, b, checksum_offset, ((a.len() + 1) / 2) as nat);
}

/// The checksum of an image that stores it at an even offset.
pub fn calculate_checksum(image: &[u8], checksum_offset: usize) -> (r: Option<u32>)
    ensures
        r == if checksum_place_ok(image@, checksum_offset as int) {
            Some(image_checksum(image@, checksum_offset as int))
        } else {
            None
        },
{
    let total: usize = image.len();
    if total as u64 > 0xffff_ffff || checksum_offset % 2 != 0 || total < 4 || checksum_offset
        > total - 4 {
        return None;
    }
    let count: usize = total / 2 + total % 2;
    let mut sum: u64 = 0;
    let mut i: usize = 0;
    while i < count
        invariant
            i <= count,
            count == (total + 1) / 2,
            total == image@.len() <= usize::MAX,
            checksum_offset + 4 <= total,
            sum == word_sum(image@, checksum_offset as int, i as nat),
            sum <= 0xffff,
        decreases count - i,
    {
        let at: usize = 2 * i;
        let word: u64 = if at == checksum_offset || at == checksum_offset + 2 {
            0
        } else if total - at >= 2 {
            get_u16(image, at) as u64
        } else {
            image[at] as u64
        };
        sum = sum + word;
        sum = sum % 0x1_0000 + sum / 0x1_0000;
        i += 1;
        proof {
            lemma_word_sum(image@, checksum_offset as int, i as nat);
        }
    }
    sum = sum % 0x1_0000 + sum / 0x1_0000;
    sum = sum % 0x1_0000 + sum / 0x1_0000;
    Some(((sum + total as u64) % 0x1_0000_0000) as u32)
}

// ---------------------------------------------------------------------------------------------
// Imports
// ---------------------------------------------------------------------------------------------

/// The texts of owned byte strings.
pub open spec fn byte_texts(names: Seq<Vec<u8>>) -> Seq<Seq<u8>> {
    names.map_values(|v: Vec<u8>| v@)
}

/// The names of the modules that the descriptors from `rva` on import. At most `left` descriptors
/// are read, and one without a name ends the list.
pub open spec fn import_names_from(contents: Contents, rva: u32, left: nat) -> Option<Seq<Seq<u8>>>
    decreases left,
{
    if left == 0 {
        None
    } else {
        match (contents.bytes)(rva, 20) {
            Some(descriptor) => if le32(descriptor, 12) == 0 {
                Some(Seq::empty())
            } else {
                match (contents.text)(le32(descriptor, 12)) {
                    Some(name) => if rva + 20 > u32::MAX {
                        None
                    } else {
                        match import_names_from(contents, (rva + 20) as u32, (left - 1) as nat) {
                            Some(rest) => Some(seq![name] + rest),
                            None => None,
                        }
                    },
                    None => None,
                }
            },
            None => None,
        }
    }
}

/// The import names that verification gives.
pub open spec fn import_names(pe: PeHeaders, contents: Contents, enumerate: bool) -> Option<
    Seq<Seq<u8>>,
> {
    let directory = pe.directories@[1];
    if enumerate && directory.virtual_address != 0 && directory.size != 0 {
        import_names_from(contents, directory.virtual_address, MAX_IMPORT_DESCRIPTORS as nat)
    } else {
        Some(Seq::empty())
    }
}

/// The names in front of others.
pub open spec fn names_then(done: Seq<Seq<u8>>, rest: Option<Seq<Seq<u8>>>) -> Option<
    Seq<Seq<u8>>,
> {
    match rest {
        Some(rest) => Some(done + rest),
        None => None,
    }
}

/// The names of a list.
pub open spec fn listed(names: Option<Vec<Vec<u8>>>) -> Option<Seq<Seq<u8>>> {
    match names {
        Some(names) => Some(byte_texts(names@)),
        None => None,
    }
}

fn collect_import_names<B: Fn(u32, usize) -> Option<Vec<u8>>, T: Fn(u32) -> Option<Vec<u8>>>(
    start: u32,
    bytes_at: &B,
    text_at: &T,
) -> (r: Option<Vec<Vec<u8>>>)
    requires
        looks_up_fully(*bytes_at, *text_at),
    ensures
        forall|contents: Contents| #[trigger]
            looks_up(*bytes_at, *text_at, contents) ==> listed(r) == import_names_from(
                contents,
                start,
                MAX_IMPORT_DESCRIPTORS as nat,
            ),
{
    let mut names: Vec<Vec<u8>> = Vec::new();
    let mut rva: u32 = start;
    let mut left: usize = MAX_IMPORT_DESCRIPTORS;
    assert(byte_texts(names@) =~= Seq::empty());
    proof {
        assert forall|contents: Contents| #[trigger]
            looks_up(*bytes_at, *text_at, contents) implies import_names_from(
            contents,
            start,
            MAX_IMPORT_DESCRIPTORS as nat,
        ) == names_then(
            byte_texts(names@),
            import_names_from(contents, rva, left as nat),
        ) by {
            if let Some(rest) = import_names_from(contents, rva, left as nat) {
                assert(byte_texts(names@) + rest =~= rest);
            }
        }
    }
    while left > 0
        invariant
            left <= MAX_IMPORT_DESCRIPTORS,
            looks_up_fully(*bytes_at, *text_at),
            forall|contents: Contents| #[trigger]
                looks_up(*bytes_at, *text_at, contents) ==> import_names_from(
                    contents,
                    start,
                    MAX_IMPORT_DESCRIPTORS as nat,
                ) == names_then(
                    byte_texts(names@),
                    import_names_from(contents, rva, left as nat),
                ),
        decreases left,
    {
        let descriptor = match bytes_at(rva, 20) {
            Some(descriptor) => descriptor,
            None => {
                return None;
            },
        };
        let name_rva: u32 = get_u32(&descriptor, 12);
        if name_rva == 0 {
            proof {
                assert(byte_texts(names@) + Seq::empty() =~= byte_texts(names@));
            }
            return Some(names);
        }
        let name = match text_at(name_rva) {
            Some(name) => name,
            None => {
                return None;
            },
        };
        if rva > u32::MAX - 20 {
            return None;
        }
        let ghost was = byte_texts(names@);
        let ghost held = name@;
        let ghost here = rva;
        names.push(name);
        rva = rva + 20;
        left -= 1;
        proof {
            assert(byte_texts(names@) =~= was.push(held));
            assert forall|contents: Contents| #[trigger]
                looks_up(*bytes_at, *text_at, contents) implies import_names_from(
                contents,
                start,
                MAX_IMPORT_DESCRIPTORS as nat,
            ) == names_then(
                byte_texts(names@),
                import_names_from(contents, rva, left as nat),
            ) by {
                assert(import_names_from(contents, here, (left + 1) as nat) == names_then(
                    seq![held],
                    import_names_from(contents, rva, left as nat),
                ));
                if let Some(rest) = import_names_from(contents, rva, left as nat) {
                    assert(was + (seq![held] + rest) =~= was.push(held) + rest);
                }
            }
        }
    }
    None
}

// ---------------------------------------------------------------------------------------------
// Verification
// ---------------------------------------------------------------------------------------------

/// What is found of an image.
pub struct VerifiedModel {
    pub characteristics: u16,
    pub import_names: Seq<Seq<u8>>,
    pub stored_checksum: u32,
    pub calculated_checksum: u32,
}

impl View for VerifiedImage {
    type V = VerifiedModel;

    open spec fn view(&self) -> VerifiedModel {
        VerifiedModel {
            characteristics: self.characteristics,
            import_names: byte_texts(self.import_names@),
            stored_checksum: self.stored_checksum,
            calculated_checksum: self.calculated_checksum,
        }
    }
}

/// Where the checksum of an image is.
pub open spec fn checksum_place(pe: PeHeaders) -> int {
    pe.nt_offset + OPTIONAL_HEADER_OFFSET_FROM_NT_HEADER + CHECKSUM_OFFSET_IN_OPTIONAL_HEADER
}

/// The verification of an image. A stored checksum of zero is not held against the image.
pub open spec fn verification(
    image: Seq<u8>,
    headers: Option<PeHeaders>,
    bypass_checksum: bool,
    enumerate_imports: bool,
    contents: Contents,
) -> Result<VerifiedModel, ImageVerificationError> {
    match headers {
        Some(pe) => {
            let place = checksum_place(pe);
            let stored = le32(image, place);
            let calculated = image_checksum(image, place);
            if image.len() > MAX_IMAGE_FILE_BYTES || !checksum_place_ok(image, place) {
                Err(ImageVerificationError::MalformedImage)
            } else if !bypass_checksum && stored != 0 && stored != calculated {
                Err(ImageVerificationError::ChecksumMismatch)
            } else {
                match import_names(pe, contents, enumerate_imports) {
                    Some(names) => Ok(
                        VerifiedModel {
                            characteristics: pe.characteristics,
                            import_names: names,
                            stored_checksum: stored,
                            calculated_checksum: calculated,
                        },
                    ),
                    None => Err(ImageVerificationError::MalformedImage),
                }
            }
        },
        None => Err(ImageVerificationError::MalformedImage),
    }
}

/// Contents in which nothing is found.
pub open spec fn no_contents() -> Contents {
    Contents { bytes: |rva: u32, length: int| None, text: |rva: u32| None }
}

/// Whether the outcome of a verification is the one that was told.
pub open spec fn told(
    r: Result<VerifiedImage, ImageVerificationError>,
    outcome: Result<VerifiedModel, ImageVerificationError>,
) -> bool {
    match (r, outcome) {
        (Ok(image), Ok(model)) => image@ == model,
        (Err(a), Err(b)) => a == b,
        _ => false,
    }
}

/// Verify an image file, given its headers, where they are valid, and lookups into its contents.
/// `bypass_checksum` passes over a wrong checksum but over nothing else.
pub fn verify_image<B: Fn(u32, usize) -> Option<Vec<u8>>, T: Fn(u32) -> Option<Vec<u8>>>(
    image: &[u8],
    headers: Option<&PeHeaders>,
    bypass_checksum: bool,
    enumerate_imports: bool,
    bytes_at: B,
    text_at: T,
) -> (r: Result<VerifiedImage, ImageVerificationError>)
    requires
        looks_up_fully(bytes_at, text_at),
    ensures
        forall|contents: Contents| #[trigger]
            looks_up(bytes_at, text_at, contents) ==> told(
                r,
                verification(
                    image@,
                    match headers {
                        Some(pe) => Some(*pe),
                        None => None,
                    },
                    bypass_checksum,
                    enumerate_imports,
                    contents,
                ),
            ),
        !enumerate_imports ==> told(
            r,
            verification(
                image@,
                match headers {
                    Some(pe) => Some(*pe),
                    None => None,
                },
                bypass_checksum,
                false,
                no_contents(),
            ),
        ),
        r matches Ok(verified) ==> bypass_checksum || verified.stored_checksum == 0
            || verified.stored_checksum == verified.calculated_checksum,
{
    let total: usize = image.len();
    let pe = match headers {
        Some(pe) => pe,
        None => {
            return Err(ImageVerificationError::MalformedImage);
        },
    };
    if total > MAX_IMAGE_FILE_BYTES {
        return Err(ImageVerificationError::MalformedImage);
    }
    let place: usize = match pe.nt_offset.checked_add(
        OPTIONAL_HEADER_OFFSET_FROM_NT_HEADER + CHECKSUM_OFFSET_IN_OPTIONAL_HEADER,
    ) {
        Some(place) => place,
        None => {
            return Err(ImageVerificationError::MalformedImage);
        },
    };
    let calculated_checksum: u32 = match calculate_checksum(image, place) {
        Some(checksum) => checksum,
        None => {
            return Err(ImageVerificationError::MalformedImage);
        },
    };
    let stored_checksum: u32 = get_u32(image, place);
    if !bypass_checksum && stored_checksum != 0 && stored_checksum != calculated_checksum {
        return Err(ImageVerificationError::ChecksumMismatch);
    }
    let directory = pe.directories[1];
    let mut import_names: Vec<Vec<u8>> = Vec::new();
    assert(byte_texts(import_names@) =~= Seq::empty());
    if enumerate_imports && directory.virtual_address != 0 && directory.size != 0 {
        import_names =
        match collect_import_names(directory.virtual_address, &bytes_at, &text_at) {
            Some(names) => names,
            None => {
                return Err(ImageVerificationError::MalformedImage);
            },
        };
    }
    Ok(
        VerifiedImage {
            characteristics: pe.characteristics,
            import_names,
            stored_checksum,
            calculated_checksum,
        },
    )
}

} // verus!
