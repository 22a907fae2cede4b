//! GUID values: native byte layout, formatting and parsing.
//!
//! The text form is `{xxxxxxxx-xxxx-xxxx-xxxx-xxxxxxxxxxxx}` with braces and lower-case digits. The
//! native layout is little-endian for the three leading fields, followed by the eight trailing
//! bytes in order.

use vstd::prelude::*;

use crate::bytes::{le16, le16_bytes, le32, le32_bytes, lemma_le16_of, lemma_le32_of};

pub mod laws;

verus! {

/// A Windows `GUID`.
#[derive(Copy, Clone, Debug, PartialEq, Eq, Default)]
pub struct Guid {
    /// First 32-bit field.
    pub data1: u32,
    /// Second 16-bit field.
    pub data2: u16,
    /// Third 16-bit field.
    pub data3: u16,
    /// Trailing eight bytes, printed in order and split two and six.
    pub data4: [u8; 8],
}

impl Guid {
    /// Whether two values hold the same fields.
    pub open spec fn same(self, other: Guid) -> bool {
        &&& self.data1 == other.data1
        &&& self.data2 == other.data2
        &&& self.data3 == other.data3
        &&& self.data4@ == other.data4@
    }

    /// The native in-memory bytes.
    pub open spec fn windows_bytes(self) -> Seq<u8> {
        le32_bytes(self.data1) + le16_bytes(self.data2) + le16_bytes(self.data3) + self.data4@
    }

    /// Encode the native Windows in-memory representation.
    pub fn to_windows_bytes(self) -> (bytes: [u8; 16])
        ensures
            bytes@ == self.windows_bytes(),
    {
        let bytes: [u8; 16] = [
            (self.data1 % 0x100) as u8,
            (self.data1 / 0x100 % 0x100) as u8,
            (self.data1 / 0x1_0000 % 0x100) as u8,
            (self.data1 / 0x100_0000) as u8,
            (self.data2 % 0x100) as u8,
            (self.data2 / 0x100) as u8,
            (self.data3 % 0x100) as u8,
            (self.data3 / 0x100) as u8,
            self.data4[0],
            self.data4[1],
            self.data4[2],
            self.data4[3],
            self.data4[4],
            self.data4[5],
            self.data4[6],
            self.data4[7],
        ];
        assert(bytes@ =~= self.windows_bytes());
        bytes
    }

    /// Decode the native Windows in-memory representation.
    pub fn from_windows_bytes(bytes: [u8; 16]) -> (guid: Self)
        ensures
            guid.data1 == le32(bytes@, 0),
            guid.data2 == le16(bytes@, 4),
            guid.data3 == le16(bytes@, 6),
            guid.data4@ == bytes@.subrange(8, 16),
            guid.windows_bytes() == bytes@,
    {
        reveal(le16);
        reveal(le32);
        let guid = Guid {
            data1: bytes[0] as u32 + 0x100 * (bytes[1] as u32) + 0x1_0000 * (bytes[2] as u32)
                + 0x100_0000 * (bytes[3] as u32),
            data2: bytes[4] as u16 + 0x100 * (bytes[5] as u16),
            data3: bytes[6] as u16 + 0x100 * (bytes[7] as u16),
            data4: [
                bytes[8],
                bytes[9],
                bytes[10],
                bytes[11],
                bytes[12],
                bytes[13],
                bytes[14],
                bytes[15],
            ],
        };
        assert(guid.data4@ =~= bytes@.subrange(8, 16));
        proof {
            lemma_le32_of(bytes@, 0);
            lemma_le16_of(bytes@, 4);
            lemma_le16_of(bytes@, 6);
        }
        assert(guid.windows_bytes() =~= bytes@);
        guid
    }

    /// Whether two values are equal.
    pub fn equals(&self, other: &Guid) -> (equal: bool)
        ensures
            equal == self.same(*other),
    {
        if self.data1 != other.data1 || self.data2 != other.data2 || self.data3 != other.data3 {
            return false;
        }
        let mut i: usize = 0;
        while i < 8
            invariant
                i <= 8,
                forall|j: int| 0 <= j < i ==> self.data4@[j] == other.data4@[j],
            decreases 8 - i,
        {
            if self.data4[i] != other.data4[i] {
                return false;
            }
            i += 1;
        }
        assert(self.data4@ =~= other.data4@);
        true
    }
}

/// Decoding the native bytes of a value gives the value back.
pub proof fn windows_bytes_round_trip(guid: Guid)
    ensures
        guid.windows_bytes().len() == 16,
        le32(guid.windows_bytes(), 0) == guid.data1,
        le16(guid.windows_bytes(), 4) == guid.data2,
        le16(guid.windows_bytes(), 6) == guid.data3,
        guid.windows_bytes().subrange(8, 16) == guid.data4@,
{
    reveal(le16);
    reveal(le32);
    assert(guid.windows_bytes().subrange(8, 16) =~= guid.data4@);
}

/// The lower-case hexadecimal digit of `n`.
pub open spec fn hex_digit(n: int) -> u16 {
    if n < 10 {
        (0x30 + n) as u16
    } else {
        (0x61 + n - 10) as u16
    }
}

/// The value of a hexadecimal digit of either case.
pub open spec fn hex_digit_value(unit: u16) -> Option<int> {
    if 0x30 <= unit <= 0x39 {
        Some(unit - 0x30)
    } else if 0x61 <= unit <= 0x66 {
        Some(unit - 0x61 + 10)
    } else if 0x41 <= unit <= 0x46 {
        Some(unit - 0x41 + 10)
    } else {
        None
    }
}

/// The last `digits` hexadecimal digits of `v`, most significant first.
pub open spec fn hex_text(v: int, digits: nat) -> Seq<u16>
    decreases digits,
{
    if digits == 0 {
        Seq::empty()
    } else {
        hex_text(v / 16, (digits - 1) as nat).push(hex_digit(v % 16))
    }
}

/// The number written by hexadecimal digits; `None` if a unit is not one.
pub open spec fn hex_value(w: Seq<u16>) -> Option<int>
    decreases w.len(),
{
    if w.len() == 0 {
        Some(0)
    } else {
        match (hex_value(w.drop_last()), hex_digit_value(w.last())) {
            (Some(high), Some(low)) => Some(high * 16 + low),
            _ => None,
        }
    }
}

/// Sixteen to the power `n`.
pub open spec fn pow16(n: nat) -> int
    decreases n,
{
    if n == 0 {
        1
    } else {
        16 * pow16((n - 1) as nat)
    }
}

/// The text form of a value.
pub open spec fn guid_text(g: Guid) -> Seq<u16> {
    seq![0x7bu16] + hex_text(g.data1 as int, 8) + seq![0x2du16] + hex_text(g.data2 as int, 4)
        + seq![0x2du16] + hex_text(g.data3 as int, 4) + seq![0x2du16] + hex_text(
        g.data4@[0] as int,
        2,
    ) + hex_text(g.data4@[1] as int, 2) + seq![0x2du16] + hex_text(g.data4@[2] as int, 2)
        + hex_text(g.data4@[3] as int, 2) + hex_text(g.data4@[4] as int, 2) + hex_text(
        g.data4@[5] as int,
        2,
    ) + hex_text(g.data4@[6] as int, 2) + hex_text(g.data4@[7] as int, 2) + seq![0x7du16]
}

/// Where the text of trailing byte `i` starts.
pub open spec fn tail_at(i: int) -> int {
    if i < 2 {
        20 + 2 * i
    } else {
        21 + 2 * i
    }
}

/// Whether `s` has the text form of `g`, with digits of either case.
pub open spec fn reads_as(s: Seq<u16>, g: Guid) -> bool {
    &&& s.len() == 38
    &&& s[0] == 0x7b && s[9] == 0x2d && s[14] == 0x2d && s[19] == 0x2d && s[24] == 0x2d && s[37]
        == 0x7d
    &&& hex_value(s.subrange(1, 9)) == Some(g.data1 as int)
    &&& hex_value(s.subrange(10, 14)) == Some(g.data2 as int)
    &&& hex_value(s.subrange(15, 19)) == Some(g.data3 as int)
    &&& forall|i: int|
        0 <= i < 8 ==> hex_value(s.subrange(tail_at(i), tail_at(i) + 2)) == Some(
            #[trigger] g.data4@[i] as int,
        )
}

/// The native bytes of the value that a text reads as.
pub open spec fn guid_of_text(s: Seq<u16>) -> Option<Seq<u8>> {
    if exists|g: Guid| reads_as(s, g) {
        Some((choose|g: Guid| reads_as(s, g)).windows_bytes())
    } else {
        None
    }
}

/// A text reads as one value only.
pub proof fn text_reads_as_one_value(s: Seq<u16>, g: Guid)
    requires
        reads_as(s, g),
    ensures
        guid_of_text(s) == Some(g.windows_bytes()),
{
    let h = choose|h: Guid| reads_as(s, h);
    assert forall|i: int| 0 <= i < 8 implies h.data4@[i] == g.data4@[i] by {
        assert(hex_value(s.subrange(tail_at(i), tail_at(i) + 2)) == Some(h.data4@[i] as int));
        assert(hex_value(s.subrange(tail_at(i), tail_at(i) + 2)) == Some(g.data4@[i] as int));
    }
    assert(h.data4@ =~= g.data4@);
    assert(h.windows_bytes() =~= g.windows_bytes());
}

/// Digits written by `hex_text` are read back by `hex_value`.
proof fn lemma_hex_round_trip(v: int, digits: nat)
    requires
        0 <= v < pow16(digits),
    ensures
        hex_text(v, digits).len() == digits,
        hex_value(hex_text(v, digits)) == Some(v),
    decreases digits,
{
    if digits > 0 {
        lemma_hex_round_trip(v / 16, (digits - 1) as nat);
        let t = hex_text(v, digits);
        assert(t.drop_last() =~= hex_text(v / 16, (digits - 1) as nat));
        assert(hex_digit_value(hex_digit(v % 16)) == Some(v % 16));
    }
}

proof fn lemma_hex_text_len(v: int, digits: nat)
    ensures
        hex_text(v, digits).len() == digits,
    decreases digits,
{
    if digits > 0 {
        lemma_hex_text_len(v / 16, (digits - 1) as nat);
    }
}

/// Parsing the text form of a value gives the value back.
pub proof fn guid_text_round_trip(g: Guid)
    ensures
        reads_as(guid_text(g), g),
{
    let s = guid_text(g);
    reveal_with_fuel(pow16, 9);
    lemma_hex_round_trip(g.data1 as int, 8);
    lemma_hex_round_trip(g.data2 as int, 4);
    lemma_hex_round_trip(g.data3 as int, 4);
    lemma_hex_round_trip(g.data4@[0] as int, 2);
    lemma_hex_round_trip(g.data4@[1] as int, 2);
    lemma_hex_round_trip(g.data4@[2] as int, 2);
    lemma_hex_round_trip(g.data4@[3] as int, 2);
    lemma_hex_round_trip(g.data4@[4] as int, 2);
    lemma_hex_round_trip(g.data4@[5] as int, 2);
    lemma_hex_round_trip(g.data4@[6] as int, 2);
    lemma_hex_round_trip(g.data4@[7] as int, 2);
    assert(s.subrange(1, 9) =~= hex_text(g.data1 as int, 8));
    assert(s.subrange(10, 14) =~= hex_text(g.data2 as int, 4));
    assert(s.subrange(15, 19) =~= hex_text(g.data3 as int, 4));
    assert(s.subrange(20, 22) =~= hex_text(g.data4@[0] as int, 2));
    assert(s.subrange(22, 24) =~= hex_text(g.data4@[1] as int, 2));
    assert(s.subrange(25, 27) =~= hex_text(g.data4@[2] as int, 2));
    assert(s.subrange(27, 29) =~= hex_text(g.data4@[3] as int, 2));
    assert(s.subrange(29, 31) =~= hex_text(g.data4@[4] as int, 2));
    assert(s.subrange(31, 33) =~= hex_text(g.data4@[5] as int, 2));
    assert(s.subrange(33, 35) =~= hex_text(g.data4@[6] as int, 2));
    assert(s.subrange(35, 37) =~= hex_text(g.data4@[7] as int, 2));
    assert forall|i: int| 0 <= i < 8 implies hex_value(
        s.subrange(tail_at(i), tail_at(i) + 2),
    ) == Some(#[trigger] g.data4@[i] as int) by {
        if i == 0 {
        } else if i == 1 {
        } else if i == 2 {
        } else if i == 3 {
        } else if i == 4 {
        } else if i == 5 {
        } else if i == 6 {
        } else {
            assert(i == 7);
        }
    }
}

/// A run of `n` digits stays below sixteen to the power `n`.
proof fn lemma_hex_value_bound(w: Seq<u16>)
    ensures
        hex_value(w) matches Some(v) ==> 0 <= v < pow16(w.len()),
    decreases w.len(),
{
    if w.len() > 0 {
        lemma_hex_value_bound(w.drop_last());
    }
}

/// Whether a unit that is no digit stands in a run makes the run unreadable.
proof fn lemma_hex_value_prefix(w: Seq<u16>, k: int)
    requires
        0 <= k <= w.len(),
        hex_value(w.take(k)) is None,
    ensures
        hex_value(w) is None,
    decreases w.len(),
{
    if k < w.len() {
        assert(w.drop_last().take(k) =~= w.take(k));
        lemma_hex_value_prefix(w.drop_last(), k);
    } else {
        assert(w.take(k) =~= w);
    }
}

/// A longer run of digits has a value at least as large.
proof fn lemma_hex_value_grows(w: Seq<u16>, k: int)
    requires
        0 <= k <= w.len(),
    ensures
        (hex_value(w), hex_value(w.take(k))) matches (Some(a), Some(b)) ==> b <= a,
    decreases w.len(),
{
    if k < w.len() {
        assert(w.drop_last().take(k) =~= w.take(k));
        lemma_hex_value_grows(w.drop_last(), k);
        lemma_hex_value_bound(w.drop_last());
    } else {
        assert(w.take(k) =~= w);
    }
}

/// The number written by hexadecimal digits, where it is at most `limit`.
pub fn parse_hex_digits(w: &[u16], limit: u32) -> (r: Option<u32>)
    ensures
        match r {
            Some(v) => hex_value(w@) == Some(v as int) && v <= limit,
            None => match hex_value(w@) {
                Some(v) => v > limit,
                None => true,
            },
        },
{
    let mut value: u64 = 0;
    let mut i: usize = 0;
    while i < w.len()
        invariant
            i <= w@.len(),
            hex_value(w@.take(i as int)) == Some(value as int),
            value <= limit,
        decreases w@.len() - i,
    {
        assert(w@.take(i + 1).drop_last() =~= w@.take(i as int));
        match from_hex(w[i]) {
            Some(digit) => {
                value = value * 16 + digit as u64;
                i += 1;
            },
            None => {
                proof {
                    lemma_hex_value_prefix(w@, i + 1);
                }
                return None;
            },
        }
        if value > limit as u64 {
            proof {
                lemma_hex_value_grows(w@, i as int);
            }
            return None;
        }
    }
    assert(w@.take(i as int) =~= w@);
    Some(value as u32)
}

fn hex_nibble(n: u8) -> (digit: u8)
    requires
        n < 16,
    ensures
        digit == hex_digit(n as int),
{
    if n < 10 {
        0x30 + n
    } else {
        0x61 + (n - 10)
    }
}

fn from_hex(c: u16) -> (value: Option<u8>)
    ensures
        match value {
            Some(v) => hex_digit_value(c) == Some(v as int),
            None => hex_digit_value(c) is None,
        },
{
    if 0x30 <= c && c <= 0x39 {
        Some((c - 0x30) as u8)
    } else if 0x61 <= c && c <= 0x66 {
        Some((c - 0x61 + 10) as u8)
    } else if 0x41 <= c && c <= 0x46 {
        Some((c - 0x41 + 10) as u8)
    } else {
        None
    }
}

fn push_hex_u32(out: &mut Vec<u16>, v: u32, digits: usize)
    ensures
        final(out)@ == old(out)@ + hex_text(v as int, digits as nat),
    decreases digits,
{
    if digits > 0 {
        push_hex_u32(out, v / 16, digits - 1);
        out.push(hex_nibble((v % 16) as u8) as u16);
    }
    assert(out@ =~= old(out)@ + hex_text(v as int, digits as nat));
}

/// Read the digits `s[from..to]`.
fn parse_hex(s: &[u16], from: usize, to: usize) -> (value: Option<u32>)
    requires
        from <= to <= s@.len(),
        to - from <= 8,
    ensures
        match value {
            Some(v) => hex_value(s@.subrange(from as int, to as int)) == Some(v as int),
            None => hex_value(s@.subrange(from as int, to as int)) is None,
        },
{
    let ghost w = s@.subrange(from as int, to as int);
    let mut value: u32 = 0;
    let mut i: usize = from;
    while i < to
        invariant
            from <= i <= to <= s@.len(),
            to - from <= 8,
            w == s@.subrange(from as int, to as int),
            hex_value(w.take(i - from)) == Some(value as int),
        decreases to - i,
    {
        assert(w.take(i + 1 - from).drop_last() =~= w.take(i - from));
        match from_hex(s[i]) {
            Some(digit) => {
                proof {
                    reveal_with_fuel(pow16, 9);
                    lemma_hex_value_bound(w.take(i - from));
                    lemma_pow16_monotone((i - from) as nat, 7);
                }
                value = value * 16 + digit as u32;
            },
            None => {
                proof {
                    lemma_hex_value_prefix(w, i + 1 - from);
                }
                return None;
            },
        }
        i += 1;
    }
    assert(w.take(i - from) =~= w);
    Some(value)
}

proof fn lemma_pow16_monotone(a: nat, b: nat)
    requires
        a <= b,
    ensures
        pow16(a) <= pow16(b),
        1 <= pow16(a),
    decreases b,
{
    if a < b {
        lemma_pow16_monotone(a, (b - 1) as nat);
    } else if a > 0 {
        lemma_pow16_monotone((a - 1) as nat, (b - 1) as nat);
    }
}

/// Render a value as text.
pub fn guid_to_string(g: &Guid) -> (out: Vec<u16>)
    ensures
        out@ == guid_text(*g),
        out@.len() == 38,
{
    let mut out: Vec<u16> = Vec::with_capacity(38);
    out.push(0x7b);
    push_hex_u32(&mut out, g.data1, 8);
    out.push(0x2d);
    push_hex_u32(&mut out, g.data2 as u32, 4);
    out.push(0x2d);
    push_hex_u32(&mut out, g.data3 as u32, 4);
    out.push(0x2d);
    push_hex_u32(&mut out, g.data4[0] as u32, 2);
    push_hex_u32(&mut out, g.data4[1] as u32, 2);
    out.push(0x2d);
    push_hex_u32(&mut out, g.data4[2] as u32, 2);
    push_hex_u32(&mut out, g.data4[3] as u32, 2);
    push_hex_u32(&mut out, g.data4[4] as u32, 2);
    push_hex_u32(&mut out, g.data4[5] as u32, 2);
    push_hex_u32(&mut out, g.data4[6] as u32, 2);
    push_hex_u32(&mut out, g.data4[7] as u32, 2);
    out.push(0x7d);
    assert(out@ =~= guid_text(*g));
    proof {
        lemma_hex_text_len(g.data1 as int, 8);
        lemma_hex_text_len(g.data2 as int, 4);
        lemma_hex_text_len(g.data3 as int, 4);
        lemma_hex_text_len(g.data4@[0] as int, 2);
        lemma_hex_text_len(g.data4@[1] as int, 2);
        lemma_hex_text_len(g.data4@[2] as int, 2);
        lemma_hex_text_len(g.data4@[3] as int, 2);
        lemma_hex_text_len(g.data4@[4] as int, 2);
        lemma_hex_text_len(g.data4@[5] as int, 2);
        lemma_hex_text_len(g.data4@[6] as int, 2);
        lemma_hex_text_len(g.data4@[7] as int, 2);
    }
    out
}

/// Parse the text form. Digits may have either case.
pub fn guid_from_string(s: &[u16]) -> (guid: Option<Guid>)
    ensures
        match guid {
            Some(g) => reads_as(s@, g),
            None => forall|g: Guid| !reads_as(s@, g),
        },
{
    if s.len() != 38 || s[0] != 0x7b || s[9] != 0x2d || s[14] != 0x2d || s[19] != 0x2d || s[24]
        != 0x2d || s[37] != 0x7d {
        return None;
    }
    let data1: u32 = match parse_hex(s, 1, 9) {
        Some(v) => v,
        None => return None,
    };
    let data2: u32 = match parse_hex(s, 10, 14) {
        Some(v) => v,
        None => return None,
    };
    let data3: u32 = match parse_hex(s, 15, 19) {
        Some(v) => v,
        None => return None,
    };
    let mut data4: [u8; 8] = [0u8; 8];
    proof {
        reveal_with_fuel(pow16, 5);
        lemma_hex_value_bound(s@.subrange(10, 14));
        lemma_hex_value_bound(s@.subrange(15, 19));
    }
    let mut i: usize = 0;
    while i < 8
        invariant
            i <= 8,
            s@.len() == 38,
            forall|j: int|
                0 <= j < i ==> hex_value(s@.subrange(tail_at(j), tail_at(j) + 2)) == Some(
                    #[trigger] data4@[j] as int,
                ),
        decreases 8 - i,
    {
        let at: usize = if i < 2 {
            20 + 2 * i
        } else {
            21 + 2 * i
        };
        match parse_hex(s, at, at + 2) {
            Some(v) => {
                proof {
                    reveal_with_fuel(pow16, 3);
                    lemma_hex_value_bound(s@.subrange(at as int, at + 2));
                }
                data4[i] = v as u8;
            },
            None => {
                assert forall|g: Guid| !reads_as(s@, g) by {
                    if reads_as(s@, g) {
                        assert(hex_value(s@.subrange(tail_at(i as int), tail_at(i as int) + 2))
                            == Some(g.data4@[i as int] as int));
                    }
                }
                return None;
            },
        }
        i += 1;
    }
    Some(Guid { data1, data2: data2 as u16, data3: data3 as u16, data4 })
}

} // verus!
