//! What a checksum is, and which imports are read.

use vstd::prelude::*;

use super::{
    folded, image_checksum, import_names_from, summed_word, verification, word_sum,
    ImageVerificationError, VerifiedModel,
};
use crate::bytes::{le16, le32};
use crate::pe::{Contents, PeHeaders};

verus! {

/// What the byte `i` of an image adds: bytes at odd places count 256 times, those of the checksum not
/// at all.
pub open spec fn byte_weight(image: Seq<u8>, checksum_offset: int, i: int) -> int {
    if checksum_offset <= i < checksum_offset + 4 {
        0
    } else if i % 2 == 0 {
        image[i] as int
    } else {
        image[i] * 256
    }
}

/// What the first `n` bytes add up to.
pub open spec fn byte_total(image: Seq<u8>, checksum_offset: int, n: int) -> int
    decreases n,
{
    if n <= 0 {
        0
    } else {
        byte_total(image, checksum_offset, n - 1) + byte_weight(image, checksum_offset, n - 1)
    }
}

/// The end of the bytes that `n` words take.
pub open spec fn words_end(image: Seq<u8>, n: int) -> int {
    if 2 * n <= image.len() {
        2 * n
    } else {
        image.len() as int
    }
}

proof fn lemma_folded(sum: int)
    requires
        0 <= sum <= 0x1_fffe,
    ensures
        0 <= folded(sum) <= 0xffff,
        (folded(sum) - sum) % 0xffff == 0,
        folded(sum) == 0 <==> sum == 0,
{
    assert(folded(sum) == sum || folded(sum) == sum - 0xffff);
}

proof fn lemma_word(image: Seq<u8>, checksum_offset: int, n: int)
    requires
        checksum_offset % 2 == 0,
        0 < n,
        2 * n <= image.len() + 1,
    ensures
        byte_total(image, checksum_offset, words_end(image, n)) == byte_total(
            image,
            checksum_offset,
            words_end(image, n - 1),
        ) + summed_word(image, checksum_offset, n - 1),
        0 <= summed_word(image, checksum_offset, n - 1) <= 0xffff,
{
    reveal(le16);
    reveal_with_fuel(byte_total, 3);
    let at = 2 * (n - 1);
    assert(words_end(image, n - 1) == at);
    if at + 1 < image.len() {
        assert(words_end(image, n) == at + 2);
    } else {
        assert(words_end(image, n) == at + 1);
    }
}

proof fn lemma_total(image: Seq<u8>, checksum_offset: int, n: int)
    requires
        checksum_offset % 2 == 0,
        0 <= n,
        2 * n <= image.len() + 1,
    ensures
        0 <= word_sum(image, checksum_offset, n as nat) <= 0xffff,
        0 <= byte_total(image, checksum_offset, words_end(image, n)),
        (word_sum(image, checksum_offset, n as nat) - byte_total(
            image,
            checksum_offset,
            words_end(image, n),
        )) % 0xffff == 0,
        word_sum(image, checksum_offset, n as nat) == 0 <==> byte_total(
            image,
            checksum_offset,
            words_end(image, n),
        ) == 0,
    decreases n,
{
    if n > 0 {
        lemma_total(image, checksum_offset, n - 1);
        lemma_word(image, checksum_offset, n);
        let before = word_sum(image, checksum_offset, (n - 1) as nat);
        lemma_folded(before + summed_word(image, checksum_offset, n - 1));
    }
}

/// The checksum is the length of the image and a number of sixteen bits: the total of the bytes modulo
/// 2^16 - 1, where zero stands for a total of zero alone.
pub proof fn checksums_are_totals(image: Seq<u8>, checksum_offset: int)
    requires
        checksum_offset % 2 == 0,
        image.len() + 0xffff <= u32::MAX,
    ensures
        ({
            let sum = image_checksum(image, checksum_offset) - image.len();
            let total = byte_total(image, checksum_offset, image.len() as int);
            &&& 0 <= sum <= 0xffff
            &&& (sum - total) % 0xffff == 0
            &&& sum == 0 <==> total == 0
        }),
{
    let n = (image.len() + 1) / 2;
    lemma_total(image, checksum_offset, n as int);
    assert(words_end(image, n as int) == image.len());
    let sum = word_sum(image, checksum_offset, n as nat);
    assert(folded(sum) == sum);
}

proof fn lemma_total_changes(a: Seq<u8>, b: Seq<u8>, checksum_offset: int, n: int, i: int)
    requires
        a.len() == b.len(),
        0 <= n <= a.len(),
        0 <= i < a.len(),
        forall|k: int| 0 <= k < a.len() && k != i ==> #[trigger] a[k] == b[k],
    ensures
        byte_total(b, checksum_offset, n) - byte_total(a, checksum_offset, n) == if i < n {
            byte_weight(b, checksum_offset, i) - byte_weight(a, checksum_offset, i)
        } else {
            0
        },
    decreases n,
{
    if n > 0 {
        lemma_total_changes(a, b, checksum_offset, n - 1, i);
        if n - 1 != i {
            assert(a[n - 1] == b[n - 1]);
        }
    }
}

/// A single byte that is changed changes the checksum, unless it is one of the checksum itself.
pub proof fn single_changes_are_noticed(a: Seq<u8>, b: Seq<u8>, checksum_offset: int, i: int)
    requires
        checksum_offset % 2 == 0,
        a.len() == b.len(),
        a.len() + 0xffff <= u32::MAX,
        0 <= i < a.len(),
        !(checksum_offset <= i < checksum_offset + 4),
        a[i] != b[i],
        forall|k: int| 0 <= k < a.len() && k != i ==> #[trigger] a[k] == b[k],
    ensures
        image_checksum(a, checksum_offset) != image_checksum(b, checksum_offset),
{
    checksums_are_totals(a, checksum_offset);
    checksums_are_totals(b, checksum_offset);
    lemma_total_changes(a, b, checksum_offset, a.len() as int, i);
    let (s, t) = (
        image_checksum(a, checksum_offset) - a.len(),
        byte_total(a, checksum_offset, a.len() as int),
    );
    let u = byte_total(b, checksum_offset, b.len() as int);
    let change = u - t;
    assert(-0xffff < change < 0xffff && change != 0);
    if image_checksum(a, checksum_offset) == image_checksum(b, checksum_offset) {
        assert((s - t) % 0xffff == 0 && (s - u) % 0xffff == 0);
        assert(change % 0xffff == 0);
    }
}

/// An image that holds its checksum, 88 bytes behind its NT headers, passes; one that holds another
/// number there, but for zero, does not unless the checksum is passed over.
pub proof fn sealed_images_pass(image: Seq<u8>, pe: PeHeaders, contents: Contents)
    requires
        image.len() <= 0x1000_0000,
        pe.nt_offset % 2 == 0,
        pe.nt_offset + 92 <= image.len(),
    ensures
        ({
            let stored = le32(image, pe.nt_offset + 88);
            let right = image_checksum(image, pe.nt_offset + 88);
            let strict = verification(image, Some(pe), false, false, contents);
            let lenient = verification(image, Some(pe), true, false, contents);
            &&& stored == right || stored == 0 ==> strict is Ok
            &&& stored != right && stored != 0 ==> strict == Err::<
                VerifiedModel,
                ImageVerificationError,
            >(ImageVerificationError::ChecksumMismatch)
            &&& lenient matches Ok(found) && found.stored_checksum == stored
                && found.calculated_checksum == right && found.characteristics == pe.characteristics
                && found.import_names == Seq::<Seq<u8>>::empty()
        }),
{
}

/// An image without headers, one of more than 256 megabytes, and one whose checksum is at an odd place
/// or not inside it are refused, whatever is passed over.
pub proof fn unusual_images_are_refused(
    image: Seq<u8>,
    pe: PeHeaders,
    bypass: bool,
    enumerate: bool,
    contents: Contents,
)
    ensures
        verification(image, None, bypass, enumerate, contents) == Err::<
            VerifiedModel,
            ImageVerificationError,
        >(ImageVerificationError::MalformedImage),
        image.len() > 256 * 1024 * 1024 || pe.nt_offset % 2 == 1 || pe.nt_offset + 92 > image.len()
            ==> verification(image, Some(pe), bypass, enumerate, contents) == Err::<
            VerifiedModel,
            ImageVerificationError,
        >(ImageVerificationError::MalformedImage),
{
}

/// The imports are listed where that is asked for and the image has some.
pub proof fn imports_are_listed_on_request(
    image: Seq<u8>,
    pe: PeHeaders,
    contents: Contents,
    names: Seq<Seq<u8>>,
)
    requires
        image.len() <= 0x1000_0000,
        pe.nt_offset % 2 == 0,
        pe.nt_offset + 92 <= image.len(),
        pe.directories@[1].virtual_address != 0,
        pe.directories@[1].size != 0,
        imports_stand(contents, pe.directories@[1].virtual_address, names),
    ensures
        names.len() < 256 ==> (verification(image, Some(pe), true, true, contents) matches Ok(found)
            && found.import_names == names),
        names.len() >= 256 ==> verification(image, Some(pe), true, true, contents) is Err,
{
    imports_are_listed(contents, pe.directories@[1].virtual_address, names, 256);
}

/// The descriptors of imports: twenty bytes each from `rva` on, with the address of a name twelve
/// bytes behind the start, and one without a name behind the last.
pub open spec fn imports_stand(contents: Contents, rva: u32, names: Seq<Seq<u8>>) -> bool {
    &&& rva + 20 * names.len() <= u32::MAX
    &&& forall|k: int|
        0 <= k < names.len() ==> {
            &&& (#[trigger] (contents.bytes)((rva + 20 * k) as u32, 20)) matches Some(d)
            &&& le32(d, 12) != 0
            &&& (contents.text)(le32(d, 12)) == Some(names[k])
        }
    &&& (contents.bytes)((rva + 20 * names.len()) as u32, 20) matches Some(d)
    &&& le32(d, 12) == 0
}

/// The names of the imports of an image are read in order, as long as there are fewer than 256; more
/// are refused.
pub proof fn imports_are_listed(contents: Contents, rva: u32, names: Seq<Seq<u8>>, left: nat)
    requires
        imports_stand(contents, rva, names),
    ensures
        import_names_from(contents, rva, left) == if names.len() < left {
            Some(names)
        } else {
            None::<Seq<Seq<u8>>>
        },
    decreases left,
{
    if left > 0 {
        if names.len() > 0 {
            let next = (rva + 20) as u32;
            let rest = names.skip(1);
            assert((contents.bytes)((rva + 20 * 0) as u32, 20) is Some);
            assert forall|k: int| 0 <= k < rest.len() implies {
                &&& (#[trigger] (contents.bytes)((next + 20 * k) as u32, 20)) matches Some(d)
                &&& le32(d, 12) != 0
                &&& (contents.text)(le32(d, 12)) == Some(rest[k])
            } by {
                assert(next + 20 * k == rva + 20 * (k + 1));
                assert((contents.bytes)((rva + 20 * (k + 1)) as u32, 20) is Some);
            }
            assert(next + 20 * rest.len() == rva + 20 * names.len());
            imports_are_listed(contents, next, rest, (left - 1) as nat);
            assert(seq![names[0]] + rest =~= names);
        } else {
            assert(names =~= Seq::empty());
        }
    }
}

} // verus!
