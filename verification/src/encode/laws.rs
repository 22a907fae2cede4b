//! What encoded texts and hashes of times are made of.

use vstd::prelude::*;

use super::{first_byte, hash_of_time, mask, run_decoded, run_encoded, text_decodes, time_bits};

verus! {

proof fn lemma_mix(x: u8, m: u8, p: u8, h: u8)
    by (bit_vector)
    ensures
        (x ^ m) ^ x == m,
        ((x ^ (p ^ h)) ^ p) ^ x == h,
{
}

/// Of each two neighbours, the text and its encoding differ by the hash; the first byte is mixed with
/// the hash and 0x43.
pub proof fn neighbours_differ_by_the_hash(hash: u8, bytes: Seq<u8>, i: int)
    requires
        0 <= i < bytes.len(),
    ensures
        i == 0 ==> run_encoded(hash, bytes)[0] ^ bytes[0] == hash | 0x43,
        i > 0 ==> (run_encoded(hash, bytes)[i] ^ run_encoded(hash, bytes)[i - 1]) ^ bytes[i] == hash,
    decreases bytes.len(),
{
    let front = run_encoded(hash, bytes.drop_last());
    let all = run_encoded(hash, bytes);
    text_decodes(hash, bytes.drop_last());
    if i < bytes.len() - 1 {
        neighbours_differ_by_the_hash(hash, bytes.drop_last(), i);
        assert(all[i] == front[i]);
    } else {
        let p = if i == 0 {
            0
        } else {
            front[i - 1]
        };
        lemma_mix(bytes[i], mask(hash, front, i), p, hash);
    }
}

/// Decoding undoes the mixing byte by byte.
pub proof fn decoding_mixes_again(hash: u8, encoded: Seq<u8>, i: int)
    requires
        0 <= i < encoded.len(),
    ensures
        run_decoded(hash, encoded).len() == encoded.len(),
        run_decoded(hash, encoded)[i] == encoded[i] ^ (if i == 0 {
            hash | 0x43
        } else {
            encoded[i - 1] ^ hash
        }),
{
}

/// The byte of a number at a place.
pub open spec fn byte_at(v: int, place: int) -> int
    decreases place,
{
    if place <= 0 {
        v % 0x100
    } else {
        byte_at(v / 0x100, place - 1)
    }
}

proof fn lemma_first_byte(v: int, left: int, k: int)
    requires
        0 <= k < left,
        byte_at(v, k) != 0,
        forall|j: int| 0 <= j < k ==> #[trigger] byte_at(v, j) == 0,
    ensures
        first_byte(v, left) == byte_at(v, k),
    decreases left,
{
    if k > 0 {
        assert(byte_at(v, 0) == 0);
        assert forall|j: int| 0 <= j < k - 1 implies #[trigger] byte_at(v / 0x100, j) == 0 by {
            assert(byte_at(v, j + 1) == 0);
        }
        lemma_first_byte(v / 0x100, left - 1, k - 1);
    }
}

proof fn lemma_no_byte(v: int, left: int)
    requires
        forall|j: int| 0 <= j < left ==> #[trigger] byte_at(v, j) == 0,
    ensures
        first_byte(v, left) == 1,
    decreases left,
{
    if left > 0 {
        assert(byte_at(v, 0) == 0);
        assert forall|j: int| 0 <= j < left - 1 implies #[trigger] byte_at(v / 0x100, j) == 0 by {
            assert(byte_at(v, j + 1) == 0);
        }
        lemma_no_byte(v / 0x100, left - 1);
    }
}

/// The hash of a time is the first of its bytes one to seven that is not zero.
pub proof fn hashes_are_bytes_of_the_time(time: i64, k: int)
    requires
        1 <= k <= 7,
        byte_at(time_bits(time), k) != 0,
        forall|j: int| 1 <= j < k ==> #[trigger] byte_at(time_bits(time), j) == 0,
    ensures
        hash_of_time(Some(time)) == byte_at(time_bits(time), k),
{
    let v = time_bits(time);
    assert forall|j: int| 0 <= j < k - 1 implies #[trigger] byte_at(v / 0x100, j) == 0 by {
        assert(byte_at(v, j + 1) == 0);
    }
    lemma_first_byte(v / 0x100, 7, k - 1);
}

/// Where these bytes are all zero, or there is no time, the hash is one.
pub proof fn empty_times_hash_to_one(time: i64)
    requires
        forall|j: int| 1 <= j <= 7 ==> #[trigger] byte_at(time_bits(time), j) == 0,
    ensures
        hash_of_time(Some(time)) == 1,
        hash_of_time(None) == 1,
{
    let v = time_bits(time);
    assert forall|j: int| 0 <= j < 7 implies #[trigger] byte_at(v / 0x100, j) == 0 by {
        assert(byte_at(v, j + 1) == 0);
    }
    lemma_no_byte(v / 0x100, 7);
}

/// The bits of a time, read as a signed number of sixty-four bits, are the time.
pub proof fn bits_are_those_of_the_time(time: i64)
    ensures
        0 <= time_bits(time) < 0x1_0000_0000_0000_0000,
        time_bits(time) - time == 0 || time_bits(time) - time == 0x1_0000_0000_0000_0000,
{
}

} // verus!
