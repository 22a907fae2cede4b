//! Hiding pointers and text by exclusive-or.

use vstd::prelude::*;

pub mod laws;

verus! {

/// A pointer with its low half mixed with a cookie.
pub fn encode_pointer(ptr: u64, cookie: u32) -> (r: u64)
    ensures
        r == ptr ^ (cookie as u64),
{
    ptr ^ (cookie as u64)
}

/// What was encoded.
pub fn decode_pointer(encoded: u64, cookie: u32) -> (r: u64)
    ensures
        r == encoded ^ (cookie as u64),
{
    encode_pointer(encoded, cookie)
}

/// A pointer with its low half mixed with the cookie of the system.
pub fn encode_system_pointer(ptr: u64, system_cookie: u32) -> (r: u64)
    ensures
        r == ptr ^ (system_cookie as u64),
{
    encode_pointer(ptr, system_cookie)
}

/// What was encoded with the cookie of the system.
pub fn decode_system_pointer(encoded: u64, system_cookie: u32) -> (r: u64)
    ensures
        r == encoded ^ (system_cookie as u64),
{
    decode_pointer(encoded, system_cookie)
}

/// Decoding undoes encoding, and the high half of a pointer is not touched.
pub proof fn pointers_decode(ptr: u64, cookie: u32)
    ensures
        (ptr ^ (cookie as u64)) ^ (cookie as u64) == ptr,
        (ptr ^ (cookie as u64)) >> 32 == ptr >> 32,
{
    assert((ptr ^ (cookie as u64)) ^ (cookie as u64) == ptr && (ptr ^ (cookie as u64)) >> 32 == ptr
        >> 32) by (bit_vector);
}

/// The bytes of a text once they were encoded: each is mixed with the one before it.
pub open spec fn run_encoded(hash: u8, bytes: Seq<u8>) -> Seq<u8>
    decreases bytes.len(),
{
    if bytes.len() == 0 {
        Seq::empty()
    } else {
        let front = run_encoded(hash, bytes.drop_last());
        front.push(bytes.last() ^ mask(hash, front, front.len() as int))
    }
}

/// What a byte is mixed with: the encoded byte before it and the hash.
pub open spec fn mask(hash: u8, encoded: Seq<u8>, i: int) -> u8 {
    if i == 0 {
        hash | 0x43
    } else {
        encoded[i - 1] ^ hash
    }
}

/// The bytes of a text once they were decoded.
pub open spec fn run_decoded(hash: u8, encoded: Seq<u8>) -> Seq<u8> {
    Seq::new(encoded.len(), |i: int| encoded[i] ^ mask(hash, encoded, i))
}

/// Decoding gives back what was encoded.
pub proof fn text_decodes(hash: u8, bytes: Seq<u8>)
    ensures
        run_encoded(hash, bytes).len() == bytes.len(),
        run_decoded(hash, run_encoded(hash, bytes)) == bytes,
    decreases bytes.len(),
{
    if bytes.len() > 0 {
        text_decodes(hash, bytes.drop_last());
        let front = run_encoded(hash, bytes.drop_last());
        let all = run_encoded(hash, bytes);
        let n = front.len() as int;
        assert forall|i: int| 0 <= i < bytes.len() implies run_decoded(hash, all)[i] == bytes[i] by {
            if i < n {
                assert(all[i] == front[i]);
                assert(run_decoded(hash, front)[i] == bytes.drop_last()[i]);
            } else {
                let (x, m) = (bytes[i], mask(hash, front, n));
                assert((x ^ m) ^ m == x) by (bit_vector);
            }
        }
    }
    assert(run_decoded(hash, run_encoded(hash, bytes)) =~= bytes);
}

/// Encode the bytes of a text in place.
pub fn run_encode_unicode_bytes(hash: u8, bytes: &mut [u8])
    ensures
        final(bytes)@ == run_encoded(hash, old(bytes)@),
{
    let length: usize = bytes.len();
    let ghost before = bytes@;
    let mut i: usize = 0;
    assert(before.take(0) =~= Seq::empty());
    while i < length
        invariant
            i <= length == bytes@.len() == before.len(),
            bytes@.take(i as int) == run_encoded(hash, before.take(i as int)),
            forall|j: int| i <= j < length ==> #[trigger] bytes@[j] == before[j],
        decreases length - i,
    {
        let m: u8 = if i == 0 {
            hash | 0x43
        } else {
            bytes[i - 1] ^ hash
        };
        let ghost front = bytes@.take(i as int);
        let ghost earlier = bytes@;
        bytes[i] = bytes[i] ^ m;
        proof {
            assert(i > 0 ==> earlier[i - 1] == front[i - 1]);
            assert(before.take(i + 1).drop_last() =~= before.take(i as int));
            assert(bytes@.take(i + 1) =~= front.push(before[i as int] ^ m));
        }
        i += 1;
    }
    assert(bytes@.take(i as int) =~= bytes@);
    assert(before.take(i as int) =~= before);
}

/// Decode the bytes of a text in place.
pub fn run_decode_unicode_bytes(hash: u8, bytes: &mut [u8])
    ensures
        final(bytes)@ == run_decoded(hash, old(bytes)@),
{
    let ghost before = bytes@;
    let mut i: usize = bytes.len();
    while i > 0
        invariant
            i <= bytes@.len() == before.len(),
            forall|j: int| 0 <= j < i ==> #[trigger] bytes@[j] == before[j],
            forall|j: int|
                i <= j < before.len() ==> #[trigger] bytes@[j] == run_decoded(hash, before)[j],
        decreases i,
    {
        i -= 1;
        let m: u8 = if i == 0 {
            hash | 0x43
        } else {
            bytes[i - 1] ^ hash
        };
        assert(m == mask(hash, before, i as int));
        bytes[i] = bytes[i] ^ m;
    }
    assert(bytes@ =~= run_decoded(hash, before));
}

/// The first byte that is not zero among `left` bytes of a number, from the low end; one where
/// there is none.
pub open spec fn first_byte(v: int, left: int) -> int
    decreases left,
{
    if left <= 0 {
        1
    } else if v % 0x100 != 0 {
        v % 0x100
    } else {
        first_byte(v / 0x100, left - 1)
    }
}

/// The bits of a time as a number.
pub open spec fn time_bits(time: i64) -> int {
    if time < 0 {
        time + 0x1_0000_0000_0000_0000
    } else {
        time as int
    }
}

/// The hash that a time gives: its first byte that is not zero, without the lowest one.
pub open spec fn hash_of_time(time: Option<i64>) -> int {
    match time {
        Some(time) => first_byte(time_bits(time) / 0x100, 7),
        None => 1,
    }
}

/// The hash that a time gives.
pub fn run_encode_hash_of_time(time: Option<i64>) -> (hash: u8)
    ensures
        hash == hash_of_time(time),
        hash != 0,
{
    let bits: u64 = match time {
        Some(time) => if time < 0 {
            (time as i128 + 0x1_0000_0000_0000_0000) as u64
        } else {
            time as u64
        },
        None => {
            return 1;
        },
    };
    let mut v: u64 = bits / 0x100;
    let mut left: u32 = 7;
    while left > 0
        invariant
            left <= 7,
            hash_of_time(time) == first_byte(v as int, left as int),
        decreases left,
    {
        let byte: u8 = (v % 0x100) as u8;
        if byte != 0 {
            return byte;
        }
        v = v / 0x100;
        left -= 1;
    }
    1
}

/// The hash to encode with: the one that is given unless it is zero. Then the time is asked for.
pub fn run_encode_hash_with<F: FnOnce() -> Option<i64>>(hash: u8, query_system_time: F) -> (r: u8)
    requires
        hash == 0 ==> call_requires(query_system_time, ()),
    ensures
        hash != 0 ==> r == hash,
        hash == 0 ==> exists|time: Option<i64>| #[trigger]
            call_ensures(query_system_time, (), time) && r == hash_of_time(time),
        r != 0,
{
    if hash != 0 {
        return hash;
    }
    let time: Option<i64> = query_system_time();
    run_encode_hash_of_time(time)
}

} // verus!
