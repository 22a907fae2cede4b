//! Little-endian integers and UTF-16 text stored inside byte sequences.

use vstd::prelude::*;

verus! {

/// The 16-bit little-endian value stored at `at`.
#[verifier::opaque]
pub open spec fn le16(s: Seq<u8>, at: int) -> u16 {
    (s[at] + 0x100 * s[at + 1]) as u16
}

/// The 32-bit little-endian value stored at `at`.
#[verifier::opaque]
pub open spec fn le32(s: Seq<u8>, at: int) -> u32 {
    (s[at] + 0x100 * s[at + 1] + 0x1_0000 * s[at + 2] + 0x100_0000 * s[at + 3]) as u32
}

/// The 64-bit little-endian value stored at `at`.
pub open spec fn le64(s: Seq<u8>, at: int) -> u64 {
    (le32(s, at) + 0x1_0000_0000 * le32(s, at + 4)) as u64
}

/// The two bytes of a 16-bit value, low byte first.
pub open spec fn le16_bytes(v: u16) -> Seq<u8> {
    seq![(v % 0x100) as u8, (v / 0x100) as u8]
}

/// The four bytes of a 32-bit value, low byte first.
pub open spec fn le32_bytes(v: u32) -> Seq<u8> {
    seq![
        (v % 0x100) as u8,
        (v / 0x100 % 0x100) as u8,
        (v / 0x1_0000 % 0x100) as u8,
        (v / 0x100_0000) as u8,
    ]
}

/// The UTF-16 text of `units` code units stored little-endian at `at`.
pub open spec fn wide_at(s: Seq<u8>, at: int, units: int) -> Seq<u16> {
    Seq::new(units as nat, |i: int| le16(s, at + 2 * i))
}

/// The little-endian bytes of UTF-16 text.
#[verifier::opaque]
pub open spec fn wide_bytes(w: Seq<u16>) -> Seq<u8> {
    Seq::new(
        2 * w.len(),
        |i: int|
            if i % 2 == 0 {
                (w[i / 2] % 0x100) as u8
            } else {
                (w[i / 2] / 0x100) as u8
            },
    )
}

/// `n` zero bytes.
pub open spec fn zero_bytes(n: int) -> Seq<u8> {
    Seq::new(n as nat, |i: int| 0u8)
}

/// `at` rounded up to a multiple of four.
pub open spec fn up4(n: int) -> int {
    (n + 3) / 4 * 4
}

/// The pieces of `parts` one after another.
pub open spec fn flat(parts: Seq<Seq<u8>>) -> Seq<u8>
    decreases parts.len(),
{
    if parts.len() == 0 {
        Seq::empty()
    } else {
        flat(parts.drop_last()) + parts.last()
    }
}

/// Where piece `k` starts inside `flat(parts)`.
pub open spec fn flat_offset(parts: Seq<Seq<u8>>, k: int) -> int {
    flat(parts.take(k)).len() as int
}

/// Reading back a 32-bit value gives the value that was written.
pub proof fn lemma_le32_bytes(v: u32)
    ensures
        le32(le32_bytes(v), 0) == v,
{
    reveal(le32);
}

/// Writing a 16-bit value that was read gives the bytes it was read from.
pub proof fn lemma_le16_of(s: Seq<u8>, at: int)
    requires
        0 <= at,
        at + 2 <= s.len(),
    ensures
        le16_bytes(le16(s, at)) == s.subrange(at, at + 2),
{
    reveal(le16);
    assert(le16_bytes(le16(s, at)) =~= s.subrange(at, at + 2));
}

/// Writing a 32-bit value that was read gives the bytes it was read from.
pub proof fn lemma_le32_of(s: Seq<u8>, at: int)
    requires
        0 <= at,
        at + 4 <= s.len(),
    ensures
        le32_bytes(le32(s, at)) == s.subrange(at, at + 4),
{
    reveal(le32);
    let (a, b, c, d) = (s[at] as int, s[at + 1] as int, s[at + 2] as int, s[at + 3] as int);
    let v = a + 0x100 * b + 0x1_0000 * c + 0x100_0000 * d;
    assert(v == le32(s, at));
    assert(v % 0x100 == a);
    assert(v / 0x100 == b + 0x100 * c + 0x1_0000 * d);
    assert(v / 0x1_0000 == c + 0x100 * d);
    assert(v / 0x100_0000 == d);
    assert(le32_bytes(le32(s, at)) =~= s.subrange(at, at + 4));
}

/// Reading back UTF-16 text gives the text that was written.
pub proof fn lemma_wide_bytes(w: Seq<u16>)
    ensures
        wide_bytes(w).len() == 2 * w.len(),
        wide_at(wide_bytes(w), 0, w.len() as int) == w,
{
    reveal(le16);
    reveal(wide_bytes);
    assert forall|i: int| 0 <= i < w.len() implies le16(wide_bytes(w), 2 * i) == w[i] by {
        assert((2 * i) / 2 == i && (2 * i + 1) / 2 == i);
    }
    assert(wide_at(wide_bytes(w), 0, w.len() as int) =~= w);
}

/// Appending a piece leaves the earlier ones in place.
pub proof fn lemma_flat_push(parts: Seq<Seq<u8>>, piece: Seq<u8>)
    ensures
        flat(parts.push(piece)) == flat(parts) + piece,
{
    assert(parts.push(piece).drop_last() =~= parts);
}

/// Piece `k` is found at its offset.
pub proof fn lemma_flat_piece(parts: Seq<Seq<u8>>, k: int)
    requires
        0 <= k < parts.len(),
    ensures
        0 <= flat_offset(parts, k),
        flat_offset(parts, k + 1) == flat_offset(parts, k) + parts[k].len(),
        flat_offset(parts, k + 1) <= flat(parts).len(),
        flat(parts).subrange(flat_offset(parts, k), flat_offset(parts, k + 1)) == parts[k],
    decreases parts.len(),
{
    assert(parts.take(k + 1).drop_last() =~= parts.take(k));
    if k + 1 == parts.len() {
        assert(parts.take(k + 1) =~= parts);
        assert(flat(parts).subrange(flat_offset(parts, k), flat_offset(parts, k + 1)) =~= parts[k]);
    } else {
        let front = parts.drop_last();
        lemma_flat_piece(front, k);
        assert(front.take(k) =~= parts.take(k));
        assert(front.take(k + 1) =~= parts.take(k + 1));
        assert(flat(parts).subrange(flat_offset(parts, k), flat_offset(parts, k + 1))
            =~= flat(front).subrange(flat_offset(parts, k), flat_offset(parts, k + 1)));
    }
}

/// Pieces of one size start at multiples of that size.
pub proof fn lemma_flat_fixed(parts: Seq<Seq<u8>>, size: int)
    requires
        forall|k: int| 0 <= k < parts.len() ==> (#[trigger] parts[k]).len() == size,
    ensures
        flat(parts).len() == size * parts.len(),
    decreases parts.len(),
{
    if parts.len() > 0 {
        let front = parts.drop_last();
        assert forall|k: int| 0 <= k < front.len() implies (#[trigger] front[k]).len() == size by {
            assert(front[k] == parts[k]);
        }
        lemma_flat_fixed(front, size);
        assert(size * parts.len() == size * (parts.len() - 1) + size) by (nonlinear_arith);
    } else {
        assert(size * parts.len() == 0) by (nonlinear_arith)
            requires
                parts.len() == 0,
        ;
    }
}

/// The bytes of a run of 32-bit values, each low byte first.
#[verifier::opaque]
pub open spec fn words(ws: Seq<u32>) -> Seq<u8> {
    Seq::new(4 * ws.len(), |i: int| le32_bytes(ws[i / 4])[i % 4])
}

/// A run of words has four bytes for each.
pub broadcast proof fn lemma_words_len(ws: Seq<u32>)
    ensures
        (#[trigger] words(ws)).len() == 4 * ws.len(),
{
    reveal(words);
}

/// Text has two bytes for each code unit.
pub broadcast proof fn lemma_wide_bytes_len(w: Seq<u16>)
    ensures
        (#[trigger] wide_bytes(w)).len() == 2 * w.len(),
{
    reveal(wide_bytes);
}

/// Reading word `k` of a run gives the value that was written.
pub proof fn lemma_words(ws: Seq<u32>, k: int)
    requires
        0 <= k < ws.len(),
    ensures
        words(ws).len() == 4 * ws.len(),
        le32(words(ws), 4 * k) == ws[k],
{
    reveal(le32);
    reveal(words);
    assert((4 * k) / 4 == k && (4 * k + 1) / 4 == k && (4 * k + 2) / 4 == k && (4 * k + 3) / 4
        == k);
    lemma_le32_bytes(ws[k]);
}

/// A value read inside a piece is the value read at the same place of the whole.
pub proof fn lemma_sub_le32(s: Seq<u8>, at: int, piece: Seq<u8>, o: int)
    requires
        0 <= at,
        at + piece.len() <= s.len(),
        s.subrange(at, at + piece.len()) == piece,
        0 <= o,
        o + 4 <= piece.len(),
    ensures
        le32(s, at + o) == le32(piece, o),
{
    reveal(le32);
    let sub = s.subrange(at, at + piece.len());
    assert(sub[o] == s[at + o] && sub[o + 1] == s[at + o + 1] && sub[o + 2] == s[at + o + 2]
        && sub[o + 3] == s[at + o + 3]);
}

/// A value read inside a piece is the value read at the same place of the whole.
pub proof fn lemma_sub_le16(s: Seq<u8>, at: int, piece: Seq<u8>, o: int)
    requires
        0 <= at,
        at + piece.len() <= s.len(),
        s.subrange(at, at + piece.len()) == piece,
        0 <= o,
        o + 2 <= piece.len(),
    ensures
        le16(s, at + o) == le16(piece, o),
{
    reveal(le16);
    let sub = s.subrange(at, at + piece.len());
    assert(sub[o] == s[at + o] && sub[o + 1] == s[at + o + 1]);
}

/// Text read inside a piece is the text read at the same place of the whole.
pub proof fn lemma_sub_wide(s: Seq<u8>, at: int, piece: Seq<u8>, o: int, units: int)
    requires
        0 <= at,
        at + piece.len() <= s.len(),
        s.subrange(at, at + piece.len()) == piece,
        0 <= o,
        0 <= units,
        o + 2 * units <= piece.len(),
    ensures
        wide_at(s, at + o, units) == wide_at(piece, o, units),
{
    let whole = wide_at(s, at + o, units);
    let part = wide_at(piece, o, units);
    assert forall|i: int| 0 <= i < units implies #[trigger] whole[i] == part[i] by {
        lemma_sub_le16(s, at, piece, o + 2 * i);
        assert(at + o + 2 * i == at + (o + 2 * i));
    }
    assert(whole =~= part);
}

/// A part of a piece is the part at the same place of the whole.
pub proof fn lemma_sub_sub(s: Seq<u8>, at: int, piece: Seq<u8>, o: int, part: Seq<u8>)
    requires
        0 <= at,
        at + piece.len() <= s.len(),
        s.subrange(at, at + piece.len()) == piece,
        0 <= o,
        o + part.len() <= piece.len(),
        piece.subrange(o, o + part.len()) == part,
    ensures
        s.subrange(at + o, at + o + part.len()) == part,
{
    assert(s.subrange(at + o, at + o + part.len()) =~= s.subrange(at, at + piece.len()).subrange(
        o,
        o + part.len(),
    ));
}

/// The 16-bit value at `at`.
pub fn get_u16(s: &[u8], at: usize) -> (v: u16)
    requires
        at + 2 <= s@.len(),
    ensures
        v == le16(s@, at as int),
{
    reveal(le16);
    s[at] as u16 + 0x100 * (s[at + 1] as u16)
}

/// The 32-bit value at `at`.
pub fn get_u32(s: &[u8], at: usize) -> (v: u32)
    requires
        at + 4 <= s@.len(),
    ensures
        v == le32(s@, at as int),
{
    reveal(le32);
    s[at] as u32 + 0x100 * (s[at + 1] as u32) + 0x1_0000 * (s[at + 2] as u32) + 0x100_0000 * (
    s[at + 3] as u32)
}

/// The 64-bit value at `at`.
pub fn get_u64(s: &[u8], at: usize) -> (v: u64)
    requires
        at + 8 <= s@.len(),
    ensures
        v == le64(s@, at as int),
{
    assert(s.len() <= usize::MAX);
    let low: u64 = get_u32(s, at) as u64;
    let high: u64 = get_u32(s, at + 4) as u64;
    low + 0x1_0000_0000 * high
}

/// Overwrite the 32-bit value at `at`.
pub fn put_u32(s: &mut [u8], at: usize, v: u32)
    requires
        at + 4 <= old(s)@.len(),
    ensures
        final(s)@ == old(s)@.subrange(0, at as int) + le32_bytes(v) + old(s)@.subrange(
            at + 4,
            old(s)@.len() as int,
        ),
{
    s[at] = (v % 0x100) as u8;
    s[at + 1] = (v / 0x100 % 0x100) as u8;
    s[at + 2] = (v / 0x1_0000 % 0x100) as u8;
    s[at + 3] = (v / 0x100_0000) as u8;
    assert(s@ =~= old(s)@.subrange(0, at as int) + le32_bytes(v) + old(s)@.subrange(
        at + 4,
        old(s)@.len() as int,
    ));
}

/// Append a 16-bit value.
pub fn push_u16(out: &mut Vec<u8>, v: u16)
    ensures
        final(out)@ == old(out)@ + le16_bytes(v),
{
    out.push((v % 0x100) as u8);
    out.push((v / 0x100) as u8);
    assert(out@ =~= old(out)@ + le16_bytes(v));
}

/// Append a 32-bit value.
pub fn push_u32(out: &mut Vec<u8>, v: u32)
    ensures
        final(out)@ == old(out)@ + le32_bytes(v),
{
    out.push((v % 0x100) as u8);
    out.push((v / 0x100 % 0x100) as u8);
    out.push((v / 0x1_0000 % 0x100) as u8);
    out.push((v / 0x100_0000) as u8);
    assert(out@ =~= old(out)@ + le32_bytes(v));
}

/// Append a run of 32-bit values.
pub fn push_words(out: &mut Vec<u8>, ws: &[u32])
    ensures
        final(out)@ == old(out)@ + words(ws@),
        words(ws@).len() == 4 * ws@.len(),
{
    reveal(words);
    let mut i: usize = 0;
    assert(out@ =~= old(out)@ + words(ws@.take(0)));
    while i < ws.len()
        invariant
            i <= ws@.len(),
            out@ == old(out)@ + words(ws@.take(i as int)),
        decreases ws@.len() - i,
    {
        push_u32(out, ws[i]);
        proof {
            reveal(words);
            let a = words(ws@.take(i as int));
            let b = words(ws@.take(i + 1));
            assert(a + le32_bytes(ws@[i as int]) =~= b) by {
                assert forall|j: int| 0 <= j < b.len() implies b[j] == (a + le32_bytes(
                    ws@[i as int],
                ))[j] by {
                    if j < 4 * i {
                        assert(ws@.take(i as int)[j / 4] == ws@.take(i + 1)[j / 4]);
                    }
                }
            }
            assert(out@ =~= old(out)@ + b);
        }
        i += 1;
    }
    assert(ws@.take(i as int) =~= ws@);
}

/// Append UTF-16 text.
pub fn push_wide(out: &mut Vec<u8>, w: &[u16])
    ensures
        final(out)@ == old(out)@ + wide_bytes(w@),
        wide_bytes(w@).len() == 2 * w@.len(),
{
    reveal(wide_bytes);
    let mut i: usize = 0;
    assert(out@ =~= old(out)@ + wide_bytes(w@.take(0)));
    while i < w.len()
        invariant
            i <= w@.len(),
            out@ == old(out)@ + wide_bytes(w@.take(i as int)),
        decreases w@.len() - i,
    {
        push_u16(out, w[i]);
        proof {
            reveal(wide_bytes);
            let a = wide_bytes(w@.take(i as int));
            let b = wide_bytes(w@.take(i + 1));
            assert(a + le16_bytes(w@[i as int]) =~= b) by {
                assert forall|j: int| 0 <= j < b.len() implies b[j] == (a + le16_bytes(
                    w@[i as int],
                ))[j] by {
                    if j < 2 * i {
                        assert(w@.take(i as int)[j / 2] == w@.take(i + 1)[j / 2]);
                    }
                }
            }
            assert(out@ =~= old(out)@ + b);
        }
        i += 1;
    }
    assert(w@.take(i as int) =~= w@);
}

/// Append `n` zero bytes.
pub fn push_zeros(out: &mut Vec<u8>, n: usize)
    ensures
        final(out)@ == old(out)@ + zero_bytes(n as int),
{
    let mut i: usize = 0;
    assert(out@ =~= old(out)@ + zero_bytes(0));
    while i < n
        invariant
            i <= n,
            out@ == old(out)@ + zero_bytes(i as int),
        decreases n - i,
    {
        out.push(0);
        i += 1;
        assert(out@ =~= old(out)@ + zero_bytes(i as int));
    }
}

/// Append the bytes of `s`.
pub fn push_bytes(out: &mut Vec<u8>, s: &[u8])
    ensures
        final(out)@ == old(out)@ + s@,
{
    let mut i: usize = 0;
    assert(out@ =~= old(out)@ + s@.take(0));
    while i < s.len()
        invariant
            i <= s@.len(),
            out@ == old(out)@ + s@.take(i as int),
        decreases s@.len() - i,
    {
        out.push(s[i]);
        i += 1;
        assert(out@ =~= old(out)@ + s@.take(i as int));
    }
    assert(s@.take(i as int) =~= s@);
}

/// Append the code units of `w`.
pub fn push_units(out: &mut Vec<u16>, w: &[u16])
    ensures
        final(out)@ == old(out)@ + w@,
{
    let mut i: usize = 0;
    assert(out@ =~= old(out)@ + w@.take(0));
    while i < w.len()
        invariant
            i <= w@.len(),
            out@ == old(out)@ + w@.take(i as int),
        decreases w@.len() - i,
    {
        out.push(w[i]);
        i += 1;
        assert(out@ =~= old(out)@ + w@.take(i as int));
    }
    assert(w@.take(i as int) =~= w@);
}

/// An owned copy of code units.
pub fn copy_units(w: &[u16]) -> (out: Vec<u16>)
    ensures
        out@ == w@,
{
    let mut out: Vec<u16> = Vec::new();
    push_units(&mut out, w);
    assert(out@ =~= w@);
    out
}

/// Whether `w` holds the unit `unit`.
pub fn has_unit(w: &[u16], unit: u16) -> (found: bool)
    ensures
        found == w@.contains(unit),
{
    let mut i: usize = 0;
    while i < w.len()
        invariant
            i <= w@.len(),
            forall|j: int| 0 <= j < i ==> w@[j] != unit,
        decreases w@.len() - i,
    {
        if w[i] == unit {
            return true;
        }
        i += 1;
    }
    false
}

/// Whether two runs of code units are equal.
pub fn same_units(a: &[u16], b: &[u16]) -> (same: bool)
    ensures
        same == (a@ == b@),
{
    if a.len() != b.len() {
        return false;
    }
    let mut i: usize = 0;
    while i < a.len()
        invariant
            i <= a@.len(),
            a@.len() == b@.len(),
            forall|j: int| 0 <= j < i ==> a@[j] == b@[j],
        decreases a@.len() - i,
    {
        if a[i] != b[i] {
            return false;
        }
        i += 1;
    }
    assert(a@ =~= b@);
    true
}

} // verus!
