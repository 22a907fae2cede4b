//! DOS 8.3 names: validation, and generation with collision counting.

use vstd::prelude::*;

use crate::bytes::push_units;
use crate::decimal::digits_value;

pub mod laws;

verus! {

// ---------------------------------------------------------------------------------------------
// Validation
// ---------------------------------------------------------------------------------------------

/// Whether a byte may not stand in a short name.
pub open spec fn oem_illegal(b: u8) -> bool {
    b == 0x2a || b == 0x3f || b == 0x3c || b == 0x3e || b == 0x7c || b == 0x22 || b == 0x2b || b
        == 0x3d || b == 0x2c || b == 0x3b || b == 0x5b || b == 0x5d || b == 0x3a || b == 0x2f || b
        == 0x5c || b == 0xe5 || b == 0
}

/// Whether the byte at `i` is allowed there: no illegal byte, and no space at either end or in
/// front of a dot.
pub open spec fn oem_byte_ok(name: Seq<u8>, i: int) -> bool {
    &&& !oem_illegal(name[i])
    &&& name[i] == 0x20 ==> 0 < i && i + 1 < name.len() && name[i + 1] != 0x2e
}

/// Whether `name` is a stem of up to eight bytes, alone or with a dot and one to three more.
pub open spec fn oem_name_ok(name: Seq<u8>) -> bool {
    &&& 0 < name.len() <= 12
    &&& name[0] != 0x2e
    &&& forall|i: int| 0 <= i < name.len() ==> #[trigger] oem_byte_ok(name, i)
    &&& forall|i: int, j: int|
        0 <= i < name.len() && 0 <= j < name.len() && name[i] == 0x2e && name[j] == 0x2e ==> i == j
    &&& forall|i: int|
        0 <= i < name.len() && name[i] == 0x2e ==> i <= 8 && i + 1 < name.len() && name.len() - i
            <= 4
    &&& name.len() > 8 ==> name.contains(0x2e)
}

fn is_oem_illegal(b: u8) -> (yes: bool)
    ensures
        yes == oem_illegal(b),
{
    b == 0x2a || b == 0x3f || b == 0x3c || b == 0x3e || b == 0x7c || b == 0x22 || b == 0x2b || b
        == 0x3d || b == 0x2c || b == 0x3b || b == 0x5b || b == 0x5d || b == 0x3a || b == 0x2f || b
        == 0x5c || b == 0xe5 || b == 0
}

/// Validate an upper-case counted OEM name. A legal name reports whether it holds a space; the two
/// directory names are legal.
pub fn legal_dos_8dot3_oem(name: &[u8]) -> (r: Option<bool>)
    ensures
        name@ == seq![0x2eu8] || name@ == seq![0x2eu8, 0x2eu8] ==> r == Some(false),
        !(name@ == seq![0x2eu8] || name@ == seq![0x2eu8, 0x2eu8]) ==> match r {
            Some(spaces) => oem_name_ok(name@) && spaces == name@.contains(0x20),
            None => !oem_name_ok(name@),
        },
{
    if name.len() == 0 || name.len() > 12 {
        return None;
    }
    if name[0] == 0x2e {
        if name.len() == 1 {
            assert(name@ =~= seq![0x2eu8]);
            return Some(false);
        }
        if name.len() == 2 && name[1] == 0x2e {
            assert(name@ =~= seq![0x2eu8, 0x2eu8]);
            return Some(false);
        }
        return None;
    }
    let mut dot: Option<usize> = None;
    let mut spaces: bool = false;
    let mut i: usize = 0;
    while i < name.len()
        invariant
            i <= name@.len() <= 12,
            name@.len() > 0,
            name@[0] != 0x2e,
            forall|j: int| 0 <= j < i ==> #[trigger] oem_byte_ok(name@, j),
            match dot {
                Some(d) => 0 < d < i && name@[d as int] == 0x2e && forall|j: int|
                    0 <= j < i && name@[j] == 0x2e ==> j == d,
                None => forall|j: int| 0 <= j < i ==> name@[j] != 0x2e,
            },
            spaces ==> name@.contains(0x20),
            !spaces ==> forall|j: int| 0 <= j < i ==> name@[j] != 0x20,
        decreases name@.len() - i,
    {
        let b: u8 = name[i];
        if b == 0x20 {
            if i == 0 || i + 1 == name.len() || name[i + 1] == 0x2e {
                assert(!oem_byte_ok(name@, i as int));
                return None;
            }
            assert(name@.contains(name@[i as int]));
            spaces = true;
        } else if b == 0x2e {
            if let Some(d) = dot {
                assert(name@[d as int] == 0x2e && name@[i as int] == 0x2e);
                return None;
            }
            dot = Some(i);
        } else if is_oem_illegal(b) {
            assert(!oem_byte_ok(name@, i as int));
            return None;
        }
        assert(oem_byte_ok(name@, i as int));
        i += 1;
    }
    match dot {
        None => {
            if name.len() > 8 {
                return None;
            }
        },
        Some(d) => {
            assert(name@.contains(name@[d as int]));
            if d > 8 || name.len() - d > 4 || d + 1 == name.len() {
                return None;
            }
        },
    }
    Some(spaces)
}

// ---------------------------------------------------------------------------------------------
// Generation
// ---------------------------------------------------------------------------------------------

/// The state of a row of generated names.
#[derive(Copy, Clone, Debug, Default, PartialEq, Eq)]
pub struct GenerateNameContext {
    /// Checksum of the long name, used after the fourth collision.
    pub checksum: u16,
    /// Whether checksum digits stand in `name_buffer`.
    pub checksum_inserted: u8,
    /// Used units of `name_buffer`.
    pub name_length: u8,
    /// The stem.
    pub name_buffer: [u16; 8],
    /// Used units of `extension_buffer`.
    pub extension_length: u32,
    /// A dot and up to three units.
    pub extension_buffer: [u16; 4],
    /// The collision count.
    pub last_index_value: u32,
}

/// What an extended character maps to in the OEM code page.
#[derive(Copy, Clone, Debug, PartialEq, Eq, Structural)]
pub struct OemMappedChar {
    /// The upper-case unit that comes back.
    pub unit: u16,
    /// Bytes that it takes: one or two.
    pub width: u8,
}

/// The state as mathematical values.
#[verifier::ext_equal]
pub struct NameState {
    pub checksum: u16,
    pub inserted: u8,
    pub stem_length: int,
    pub stem: Seq<u16>,
    pub extension_length: int,
    pub extension: Seq<u16>,
    pub count: u32,
}

impl View for GenerateNameContext {
    type V = NameState;

    open spec fn view(&self) -> NameState {
        NameState {
            checksum: self.checksum,
            inserted: self.checksum_inserted,
            stem_length: self.name_length as int,
            stem: self.name_buffer@,
            extension_length: self.extension_length as int,
            extension: self.extension_buffer@,
            count: self.last_index_value,
        }
    }
}

/// What maps an extended character.
pub type OemMap = spec_fn(u16) -> Option<OemMappedChar>;

/// Whether a closure always answers what `m` says.
pub open spec fn answers<F: FnMut(u16) -> Option<OemMappedChar>>(f: F, m: OemMap) -> bool {
    forall|u: u16, r: Option<OemMappedChar>| #[trigger] call_ensures(f, (u,), r) ==> r == m(u)
}

/// Whether names go by the map `m`: a closure answers what it says, or no map is asked.
pub open spec fn serves<F: FnMut(u16) -> Option<OemMappedChar>>(
    f: F,
    extended: bool,
    m: OemMap,
) -> bool {
    !extended || answers(f, m)
}

/// Whether an ASCII unit may not stand in a short name.
pub open spec fn short_illegal(u: u16) -> bool {
    u < 0x20 || u == 0x22 || 0x2a <= u <= 0x2c || u == 0x2f || 0x3a <= u <= 0x3f || 0x5b <= u
        <= 0x5d || u == 0x7c
}

/// What a unit of the long name becomes; `None` when it is left out.
pub open spec fn short_unit(u: u16, extended: bool, m: OemMap) -> Option<OemMappedChar> {
    if u <= 0x20 || u == 0x2e {
        None
    } else if u < 127 {
        Some(
            OemMappedChar {
                unit: if short_illegal(u) {
                    0x5f
                } else if 0x61 <= u <= 0x7a {
                    (u - 0x20) as u16
                } else {
                    u
                },
                width: 1,
            },
        )
    } else if extended {
        m(u)
    } else {
        None
    }
}

/// Bytes that a mapped unit counts for.
pub open spec fn width_of(c: OemMappedChar) -> int {
    if c.width < 1 {
        1
    } else if c.width > 2 {
        2
    } else {
        c.width as int
    }
}

/// The stem of the units `w`, and how many of its six bytes are left. Once a unit does not fit,
/// nothing more is taken: then no bytes are left.
pub open spec fn stem_of(w: Seq<u16>, extended: bool, m: OemMap) -> (Seq<u16>, int)
    decreases w.len(),
{
    if w.len() == 0 {
        (Seq::empty(), 6)
    } else {
        let (stem, left) = stem_of(w.drop_last(), extended, m);
        if left == 0 {
            (stem, 0)
        } else {
            match short_unit(w.last(), extended, m) {
                None => (stem, left),
                Some(c) => if width_of(c) > left {
                    (stem, 0)
                } else {
                    (stem.push(c.unit), left - width_of(c))
                },
            }
        }
    }
}

/// The extension of the units `w` behind the dot: the dot and the first three units.
pub open spec fn extension_of(w: Seq<u16>, extended: bool, m: OemMap) -> Seq<u16>
    decreases w.len(),
{
    if w.len() == 0 {
        seq![0x2eu16]
    } else {
        let before = extension_of(w.drop_last(), extended, m);
        if before.len() >= 4 {
            before
        } else {
            match short_unit(w.last(), extended, m) {
                None => before,
                Some(c) => before.push(c.unit),
            }
        }
    }
}

/// Where the last dot of a name is, or its length.
pub open spec fn last_dot(name: Seq<u16>) -> int
    decreases name.len(),
{
    if name.len() == 0 {
        0
    } else if name.last() == 0x2e {
        name.len() - 1
    } else {
        let d = last_dot(name.drop_last());
        if d == name.len() - 1 {
            name.len() as int
        } else {
            d
        }
    }
}

/// The checksum of the units from `at` on, after `sum`.
pub open spec fn checksum_from(name: Seq<u16>, at: int, sum: int) -> int
    decreases name.len() + 1 - at,
{
    if at >= name.len() {
        sum
    } else {
        let first = (sum * 128 + name[at]) % 0x1_0000;
        let second = if at + 1 < name.len() {
            name[at + 1] as int
        } else {
            0
        };
        checksum_from(name, at + 2, (sum / 2 + first * 256 + second) % 0x1_0000)
    }
}

/// The checksum of a name.
pub open spec fn checksum_of(name: Seq<u16>) -> int {
    if name.len() == 0 {
        0
    } else if name.len() == 1 {
        name[0] as int
    } else {
        checksum_from(name, 2, (name[0] * 256 + name[1]) % 0x1_0000)
    }
}

/// The hexadecimal digit of `n` in upper case.
pub open spec fn upper_hex(n: int) -> u16 {
    if n > 9 {
        (0x41 + n - 10) as u16
    } else {
        (0x30 + n) as u16
    }
}

/// The hexadecimal digits of a checksum, least significant first.
pub open spec fn checksum_digits(v: int) -> Seq<u16> {
    seq![
        upper_hex(v % 16),
        upper_hex(v / 16 % 16),
        upper_hex(v / 256 % 16),
        upper_hex(v / 4096 % 16),
    ]
}

/// `s` with `w` written over it from `at` on.
pub open spec fn written(s: Seq<u16>, at: int, w: Seq<u16>) -> Seq<u16> {
    s.subrange(0, at) + w + s.subrange(at + w.len(), s.len() as int)
}

/// The last decimal digits of `n`, at most `most` of them.
pub open spec fn count_digits(n: int, most: nat) -> Seq<u16>
    decreases most,
{
    if most == 0 || n <= 0 {
        Seq::empty()
    } else {
        count_digits(n / 10, (most - 1) as nat).push((0x30 + n % 10) as u16)
    }
}

/// The state for the first name of a row: stem and extension of the long name, and checksum digits
/// behind a stem of at most two units.
pub open spec fn started(s: NameState, name: Seq<u16>, extended: bool, m: OemMap) -> NameState {
    let dot = last_dot(name);
    let stem = stem_of(name.take(dot), extended, m).0;
    let with_stem = NameState {
        stem_length: stem.len() as int,
        stem: written(s.stem, 0, stem),
        ..s
    };
    let extension = extension_of(name.subrange(dot, name.len() as int), extended, m);
    let with_extension = if dot < name.len() {
        NameState {
            extension_length: extension.len() as int,
            extension: written(s.extension, 0, extension),
            ..with_stem
        }
    } else {
        NameState { extension_length: 0, ..with_stem }
    };
    if stem.len() <= 2 {
        NameState {
            checksum: checksum_of(name) as u16,
            inserted: 1,
            stem_length: stem.len() as int + 4,
            stem: written(
                with_extension.stem,
                stem.len() as int,
                checksum_digits(checksum_of(name)),
            ),
            ..with_extension
        }
    } else {
        with_extension
    }
}

/// Whether checksum digits replace the stem at the next collision.
pub open spec fn stem_replaced(s: NameState) -> bool {
    (s.count + 1) % 0x1_0000_0000 > 4 && s.inserted == 0
}

/// The state for the next name of a row: the collision is counted, and after the fourth one
/// checksum digits replace the stem from its third unit on and counting starts again.
pub open spec fn counted(s: NameState, name: Seq<u16>) -> NameState {
    let count = (s.count + 1) % 0x1_0000_0000;
    if stem_replaced(s) {
        NameState {
            checksum: checksum_of(name) as u16,
            inserted: 1,
            stem_length: 6,
            stem: written(s.stem, 2, checksum_digits(checksum_of(name))),
            count: 1,
            ..s
        }
    } else {
        NameState { count: count as u32, ..s }
    }
}

/// The state behind the next name of a row.
pub open spec fn next_state(s: NameState, name: Seq<u16>, extended: bool, m: OemMap) -> NameState {
    counted(
        if s.stem_length == 0 {
            started(s, name, extended, m)
        } else {
            s
        },
        name,
    )
}

/// The name of a state: the stem, a tilde, the count and the extension.
pub open spec fn name_of(s: NameState) -> Seq<u16> {
    s.stem.take(s.stem_length) + seq![0x7eu16] + count_digits(s.count as int, 7) + s.extension.take(
        s.extension_length,
    )
}

/// Whether the lengths of a state fit its buffers, once the next collision was counted.
pub open spec fn lengths_fit(s: NameState) -> bool {
    s.stem_length != 0 ==> (s.stem_length <= 8 || stem_replaced(s)) && s.extension_length <= 4
}

pub(crate) proof fn lemma_stem_len(w: Seq<u16>, extended: bool, m: OemMap)
    ensures
        stem_of(w, extended, m).0.len() + stem_of(w, extended, m).1 <= 6,
        0 <= stem_of(w, extended, m).1,
    decreases w.len(),
{
    if w.len() > 0 {
        lemma_stem_len(w.drop_last(), extended, m);
    }
}

proof fn lemma_stem_stopped(w: Seq<u16>, k: int, extended: bool, m: OemMap)
    requires
        0 <= k <= w.len(),
        stem_of(w.take(k), extended, m).1 == 0,
    ensures
        stem_of(w, extended, m) == stem_of(w.take(k), extended, m),
    decreases w.len(),
{
    if k < w.len() {
        assert(w.drop_last().take(k) =~= w.take(k));
        lemma_stem_stopped(w.drop_last(), k, extended, m);
    } else {
        assert(w.take(k) =~= w);
    }
}

pub(crate) proof fn lemma_extension_len(w: Seq<u16>, extended: bool, m: OemMap)
    ensures
        1 <= extension_of(w, extended, m).len() <= 4,
    decreases w.len(),
{
    if w.len() > 0 {
        lemma_extension_len(w.drop_last(), extended, m);
    }
}

proof fn lemma_extension_full(w: Seq<u16>, k: int, extended: bool, m: OemMap)
    requires
        0 <= k <= w.len(),
        extension_of(w.take(k), extended, m).len() >= 4,
    ensures
        extension_of(w, extended, m) == extension_of(w.take(k), extended, m),
    decreases w.len(),
{
    if k < w.len() {
        assert(w.drop_last().take(k) =~= w.take(k));
        lemma_extension_full(w.drop_last(), k, extended, m);
    } else {
        assert(w.take(k) =~= w);
    }
}

/// A generated name has a stem of at most eight units, a tilde, at most seven digits and an
/// extension of at most four units, and the state stays usable.
pub proof fn generated_names_are_short(s: NameState, name: Seq<u16>, extended: bool, m: OemMap)
    requires
        0 <= s.stem_length,
        0 <= s.extension_length,
        s.stem.len() == 8,
        s.extension.len() == 4,
        lengths_fit(s),
    ensures
        lengths_fit(next_state(s, name, extended, m)),
        next_state(s, name, extended, m).stem_length > 0,
        name_of(next_state(s, name, extended, m)).len() <= 20,
{
    let t = next_state(s, name, extended, m);
    let dot = last_dot(name);
    lemma_stem_len(name.take(dot), extended, m);
    lemma_extension_len(name.subrange(dot, name.len() as int), extended, m);
    lemma_count_digits(t.count as int, 7);
    assert(t.stem.len() == 8 && t.extension.len() == 4);
}

/// Ten to a power.
spec fn limit(most: nat) -> int
    decreases most,
{
    if most == 0 {
        1
    } else {
        10 * limit((most - 1) as nat)
    }
}

proof fn lemma_count_value(n: int, most: nat)
    requires
        0 <= n < limit(most),
    ensures
        digits_value(count_digits(n, most)) == n,
    decreases most,
{
    if most > 0 && n > 0 {
        lemma_count_value(n / 10, (most - 1) as nat);
        let all = count_digits(n, most);
        assert(all.drop_last() =~= count_digits(n / 10, (most - 1) as nat));
    }
}

/// The next name for the same long name is another one: the count goes up, or a checksum takes the
/// place of a part of the stem and the count starts again.
pub proof fn next_names_differ(s: NameState, name: Seq<u16>, extended: bool, m: OemMap)
    requires
        0 < s.stem_length <= 8,
        0 <= s.extension_length <= 4,
        s.stem.len() == 8,
        s.extension.len() == 4,
        1 <= s.count < 9_999_999,
        s.inserted == 0 ==> s.count <= 4,
    ensures
        name_of(next_state(s, name, extended, m)) != name_of(s),
{
    let t = next_state(s, name, extended, m);
    let (a, b) = (name_of(s), name_of(t));
    reveal_with_fuel(limit, 8);
    lemma_count_value(s.count as int, 7);
    lemma_count_value(t.count as int, 7);
    let (c, d) = (count_digits(s.count as int, 7), count_digits(t.count as int, 7));
    assert(t.stem.len() == 8 && t.extension == s.extension);
    assert(t.extension_length == s.extension_length && t.stem_length <= 8);
    assert(a.len() == s.stem_length + 1 + c.len() + s.extension_length);
    assert(b.len() == t.stem_length + 1 + d.len() + s.extension_length);
    if a == b {
        if s.stem_length == t.stem_length {
            assert(c.len() == d.len());
            assert forall|i: int| 0 <= i < c.len() implies c[i] == d[i] by {
                assert(a[s.stem_length + 1 + i] == c[i]);
                assert(b[s.stem_length + 1 + i] == d[i]);
            }
            assert(c =~= d);
        } else {
            assert(s.count == 4 && t.count == 1);
            reveal_with_fuel(count_digits, 3);
            assert(c.len() == 1 && d.len() == 1);
        }
    }
}

proof fn lemma_count_digits(n: int, most: nat)
    ensures
        count_digits(n, most).len() <= most,
    decreases most,
{
    if most > 0 && n > 0 {
        lemma_count_digits(n / 10, (most - 1) as nat);
    }
}

pub(crate) proof fn lemma_last_dot(name: Seq<u16>)
    ensures
        0 <= last_dot(name) <= name.len(),
        last_dot(name) < name.len() ==> name[last_dot(name)] == 0x2e,
        forall|i: int| last_dot(name) < i < name.len() ==> name[i] != 0x2e,
    decreases name.len(),
{
    if name.len() > 0 && name.last() != 0x2e {
        lemma_last_dot(name.drop_last());
        assert forall|i: int| last_dot(name) < i < name.len() implies name[i] != 0x2e by {
            if i < name.len() - 1 {
                assert(name.drop_last()[i] == name[i]);
            }
        }
    }
}

fn is_short_illegal(unit: u16) -> (yes: bool)
    ensures
        yes == short_illegal(unit),
{
    unit < 0x20 || unit == 0x22 || (0x2a <= unit && unit <= 0x2c) || unit == 0x2f || (0x3a <= unit
        && unit <= 0x3f) || (0x5b <= unit && unit <= 0x5d) || unit == 0x7c
}

/// The checksum of a name.
fn checksum(name: &[u16]) -> (sum: u16)
    ensures
        sum == checksum_of(name@),
{
    if name.len() == 0 {
        return 0;
    }
    if name.len() == 1 {
        return name[0];
    }
    let length: usize = name.len();
    let mut sum: u64 = (name[0] as u64 * 256 + name[1] as u64) % 0x1_0000;
    let mut at: usize = 2;
    while at < length
        invariant
            length == name@.len(),
            2 <= length,
            sum < 0x1_0000,
            at <= length + 1,
            checksum_of(name@) == checksum_from(name@, at as int, sum as int),
        decreases length + 1 - at,
    {
        let first: u64 = (sum * 128 + name[at] as u64) % 0x1_0000;
        let second: u64 = if length - at > 1 {
            name[at + 1] as u64
        } else {
            0
        };
        sum = (sum / 2 + first * 256 + second) % 0x1_0000;
        if length - at <= 1 {
            assert(checksum_from(name@, at + 2, sum as int) == sum);
            return sum as u16;
        }
        at += 2;
    }
    sum as u16
}

fn checksum_digit(value: u16) -> (digit: u16)
    requires
        value < 16,
    ensures
        digit == upper_hex(value as int),
{
    if value > 9 {
        0x41 + (value - 10)
    } else {
        0x30 + value
    }
}

/// Write the digits of a checksum.
fn write_checksum_digits(destination: &mut [u16; 8], at: usize, value: u16)
    requires
        at <= 4,
    ensures
        final(destination)@ == written(old(destination)@, at as int, checksum_digits(value as int)),
{
    destination[at] = checksum_digit(value % 16);
    destination[at + 1] = checksum_digit(value / 16 % 16);
    destination[at + 2] = checksum_digit(value / 256 % 16);
    destination[at + 3] = checksum_digit(value / 4096 % 16);
    assert(destination@ =~= written(
        old(destination)@,
        at as int,
        checksum_digits(value as int),
    ));
}

/// Where the last dot of a name is, or its length.
fn find_last_dot(name: &[u16]) -> (dot: usize)
    ensures
        dot == last_dot(name@),
        dot <= name@.len(),
{
    let length: usize = name.len();
    proof {
        lemma_last_dot(name@);
    }
    let mut i: usize = length;
    while i > 0
        invariant
            length == name@.len(),
            i <= length,
            0 <= last_dot(name@) <= length,
            last_dot(name@) < length ==> name@[last_dot(name@)] == 0x2e,
            forall|j: int| last_dot(name@) < j < length ==> name@[j] != 0x2e,
            forall|j: int| i <= j < length ==> name@[j] != 0x2e,
        decreases i,
    {
        i -= 1;
        if name[i] == 0x2e {
            assert(last_dot(name@) >= i);
            assert(last_dot(name@) == i) by {
                if last_dot(name@) < length && last_dot(name@) > i {
                    assert(name@[last_dot(name@)] != 0x2e);
                }
                if last_dot(name@) < i {
                    assert(name@[i as int] != 0x2e);
                }
                if last_dot(name@) == length {
                    lemma_dot_found(name@, i as int);
                }
            }
            return i;
        }
    }
    length
}

proof fn lemma_dot_found(name: Seq<u16>, i: int)
    requires
        0 <= i < name.len(),
        name[i] == 0x2e,
    ensures
        last_dot(name) < name.len(),
    decreases name.len(),
{
    if name.last() != 0x2e {
        lemma_dot_found(name.drop_last(), i);
    }
}

/// What an ASCII unit of the long name becomes; `None` when it is left out.
fn short_ascii(u: u16) -> (r: Option<u16>)
    requires
        u < 127,
    ensures
        forall|extended: bool, m: OemMap| #[trigger]
            short_unit(u, extended, m) == match r {
                Some(unit) => Some(OemMappedChar { unit, width: 1 }),
                None => None,
            },
{
    if u <= 0x20 || u == 0x2e {
        None
    } else if is_short_illegal(u) {
        Some(0x5f)
    } else if 0x61 <= u && u <= 0x7a {
        Some(u - 0x20)
    } else {
        Some(u)
    }
}

/// The last decimal digits of a count.
fn push_count(out: &mut Vec<u16>, n: u32, most: usize)
    ensures
        final(out)@ == old(out)@ + count_digits(n as int, most as nat),
    decreases most,
{
    if most > 0 && n > 0 {
        push_count(out, n / 10, most - 1);
        out.push(0x30 + (n % 10) as u16);
    }
    assert(out@ =~= old(out)@ + count_digits(n as int, most as nat));
}

/// Count a collision.
fn count_collision(name: &[u16], context: &mut GenerateNameContext)
    ensures
        final(context)@ == counted(old(context)@, name@),
{
    let count: u32 = ((context.last_index_value as u64 + 1) % 0x1_0000_0000) as u32;
    context.last_index_value = count;
    if count > 4 && context.checksum_inserted == 0 {
        let sum: u16 = checksum(name);
        context.checksum = sum;
        write_checksum_digits(&mut context.name_buffer, 2, sum);
        context.checksum_inserted = 1;
        context.name_length = 6;
        context.last_index_value = 1;
    }
    assert(context@ =~= counted(old(context)@, name@));
}

/// The name of a state.
fn render(context: &GenerateNameContext) -> (out: Vec<u16>)
    requires
        context.name_length <= 8,
        context.extension_length <= 4,
    ensures
        out@ == name_of(context@),
{
    let mut out: Vec<u16> = Vec::new();
    let stem = vstd::slice::slice_subrange(
        context.name_buffer.as_slice(),
        0,
        context.name_length as usize,
    );
    push_units(&mut out, stem);
    out.push(0x7e);
    push_count(&mut out, context.last_index_value, 7);
    let extension = vstd::slice::slice_subrange(
        context.extension_buffer.as_slice(),
        0,
        context.extension_length as usize,
    );
    push_units(&mut out, extension);
    assert(stem@ =~= context@.stem.take(context@.stem_length));
    assert(extension@ =~= context@.extension.take(context@.extension_length));
    assert(out@ =~= name_of(context@));
    out
}

/// Take stem and extension from the long name.
fn start_names<F: FnMut(u16) -> Option<OemMappedChar>>(
    name: &[u16],
    extended: bool,
    context: &mut GenerateNameContext,
    map_extended: F,
)
    requires
        forall|u: u16| call_requires(map_extended, (u,)),
        old(context).name_length == 0,
    ensures
        forall|m: OemMap| #[trigger]
            serves(map_extended, extended, m) ==> final(context)@ == started(
                old(context)@,
                name@,
                extended,
                m,
            ),
        final(context).name_length <= 6,
        final(context).name_length > 2,
        final(context).extension_length <= 4,
{
    let ghost before = context@;
    let mut map: F = map_extended;
    let dot: usize = find_last_dot(name);
    let length: usize = name.len();
    let mut left: u8 = 6;
    let mut i: usize = 0;
    proof {
        assert(name@.take(0) =~= Seq::empty());
        assert(context@.stem =~= written(before.stem, 0, Seq::empty()));
    }
    while i < dot && left > 0
        invariant
            map == map_extended,
            forall|u: u16| call_requires(map_extended, (u,)),
            before == old(context)@,
            length == name@.len(),
            i <= dot <= length,
            left <= 6,
            context.name_length + left <= 6,
            context.extension_buffer@ == before.extension,
            context.extension_length == before.extension_length,
            context.checksum == before.checksum,
            context.checksum_inserted == before.inserted,
            context.last_index_value == before.count,
            forall|m: OemMap| #[trigger]
                serves(map_extended, extended, m) ==> {
                    let (stem, room) = stem_of(name@.take(i as int), extended, m);
                    &&& room == left
                    &&& stem.len() == context.name_length
                    &&& context.name_buffer@ == written(before.stem, 0, stem)
                },
        decreases dot - i,
    {
        let u: u16 = name[i];
        let mapped: Option<OemMappedChar> = if u < 127 {
            match short_ascii(u) {
                Some(unit) => Some(OemMappedChar { unit, width: 1 }),
                None => None,
            }
        } else if extended {
            map(u)
        } else {
            None
        };
        assert forall|m: OemMap| #[trigger] serves(map_extended, extended, m) implies mapped == short_unit(
            u,
            extended,
            m,
        ) by {}
        assert(name@.take(i + 1).drop_last() =~= name@.take(i as int));
        match mapped {
            Some(c) => {
                let width: u8 = if c.width < 1 {
                    1
                } else if c.width > 2 {
                    2
                } else {
                    c.width
                };
                if width > left {
                    left = 0;
                } else {
                    context.name_buffer[context.name_length as usize] = c.unit;
                    context.name_length = context.name_length + 1;
                    left = left - width;
                    assert forall|m: OemMap| #[trigger] serves(map_extended, extended, m) implies {
                        let (stem, room) = stem_of(name@.take(i + 1), extended, m);
                        &&& room == left
                        &&& stem.len() == context.name_length
                        &&& context.name_buffer@ == written(before.stem, 0, stem)
                    } by {
                        let stem = stem_of(name@.take(i as int), extended, m).0;
                        assert(context.name_buffer@ =~= written(before.stem, 0, stem.push(c.unit)));
                    }
                }
            },
            None => {},
        }
        i += 1;
    }
    assert forall|m: OemMap| #[trigger] serves(map_extended, extended, m) implies {
        let stem = stem_of(name@.take(dot as int), extended, m).0;
        &&& stem.len() == context.name_length
        &&& context.name_buffer@ == written(before.stem, 0, stem)
    } by {
        if i < dot {
            assert(name@.take(dot as int).take(i as int) =~= name@.take(i as int));
            lemma_stem_stopped(name@.take(dot as int), i as int, extended, m);
        }
    }
    let ghost stem_buffer = context.name_buffer@;
    context.extension_length = 0;
    if dot < length {
        let ghost tail = name@.subrange(dot as int, length as int);
        context.extension_buffer[0] = 0x2e;
        context.extension_length = 1;
        let mut k: usize = dot;
        proof {
            assert(tail.take(0) =~= Seq::empty());
            assert(context.extension_buffer@ =~= written(before.extension, 0, seq![0x2eu16]));
        }
        while k < length && context.extension_length < 4
            invariant
                map == map_extended,
                forall|u: u16| call_requires(map_extended, (u,)),
                length == name@.len(),
                dot <= k <= length,
                tail == name@.subrange(dot as int, length as int),
                1 <= context.extension_length <= 4,
                before.extension.len() == 4,
                context.name_length <= 6,
                context.name_buffer@ == stem_buffer,
                context.checksum == before.checksum,
                context.checksum_inserted == before.inserted,
                context.last_index_value == before.count,
                forall|m: OemMap| #[trigger]
                    serves(map_extended, extended, m) ==> {
                        let stem = stem_of(name@.take(dot as int), extended, m).0;
                        &&& stem.len() == context.name_length
                        &&& context.name_buffer@ == written(before.stem, 0, stem)
                    },
                forall|m: OemMap| #[trigger]
                    serves(map_extended, extended, m) ==> {
                        let extension = extension_of(tail.take(k - dot), extended, m);
                        &&& extension.len() == context.extension_length
                        &&& context.extension_buffer@ == written(before.extension, 0, extension)
                    },
            decreases length - k,
        {
            let u: u16 = name[k];
            let mapped: Option<u16> = if u < 127 {
                short_ascii(u)
            } else if extended {
                match map(u) {
                    Some(c) => Some(c.unit),
                    None => None,
                }
            } else {
                None
            };
            assert forall|m: OemMap| #[trigger] serves(map_extended, extended, m) implies mapped
                == match short_unit(u, extended, m) {
                Some(c) => Some(c.unit),
                None => None,
            } by {}
            assert(tail.take(k + 1 - dot).drop_last() =~= tail.take(k - dot));
            match mapped {
                Some(unit) => {
                    context.extension_buffer[context.extension_length as usize] = unit;
                    context.extension_length = context.extension_length + 1;
                    assert forall|m: OemMap| #[trigger] serves(map_extended, extended, m) implies {
                        let extension = extension_of(tail.take(k + 1 - dot), extended, m);
                        &&& extension.len() == context.extension_length
                        &&& context.extension_buffer@ == written(before.extension, 0, extension)
                    } by {
                        let shorter = extension_of(tail.take(k - dot), extended, m);
                        assert(context.extension_buffer@ =~= written(
                            before.extension,
                            0,
                            shorter.push(unit),
                        ));
                    }
                },
                None => {},
            }
            k += 1;
        }
        assert forall|m: OemMap| #[trigger] serves(map_extended, extended, m) implies {
            let extension = extension_of(tail, extended, m);
            &&& extension.len() == context.extension_length
            &&& context.extension_buffer@ == written(before.extension, 0, extension)
        } by {
            if k < length {
                lemma_extension_full(tail, k - dot, extended, m);
            } else {
                assert(tail.take(k - dot) =~= tail);
            }
        }
    }
    if context.name_length <= 2 {
        let sum: u16 = checksum(name);
        context.checksum = sum;
        write_checksum_digits(&mut context.name_buffer, context.name_length as usize, sum);
        context.checksum_inserted = 1;
        context.name_length = context.name_length + 4;
    }
    assert forall|m: OemMap| #[trigger] serves(map_extended, extended, m) implies context@ == started(
        before,
        name@,
        extended,
        m,
    ) by {
        assert(context@ =~= started(before, name@, extended, m));
    }
}

/// Generate the next short name of a row. `map_extended` maps characters beyond ASCII where those
/// are allowed; where they are not it is not asked, and they are left out.
pub fn generate_8dot3_name<F: FnMut(u16) -> Option<OemMappedChar>>(
    name: &[u16],
    allow_extended_characters: bool,
    context: &mut GenerateNameContext,
    map_extended: F,
) -> (out: Vec<u16>)
    requires
        forall|u: u16| call_requires(map_extended, (u,)),
        lengths_fit(old(context)@),
    ensures
        forall|m: OemMap| #[trigger]
            answers(map_extended, m) ==> final(context)@ == next_state(
                old(context)@,
                name@,
                allow_extended_characters,
                m,
            ),
        !allow_extended_characters ==> final(context)@ == next_state(
            old(context)@,
            name@,
            false,
            |u: u16| None,
        ),
        out@ == name_of(final(context)@),
        lengths_fit(final(context)@),
        final(context)@.stem_length > 0,
{
    let ghost none: OemMap = |u: u16| None;
    if context.name_length == 0 {
        start_names(name, allow_extended_characters, context, map_extended);
        assert forall|m: OemMap| #[trigger] answers(map_extended, m) implies serves(
            map_extended,
            allow_extended_characters,
            m,
        ) by {}
        assert(!allow_extended_characters ==> serves(map_extended, false, none));
    }
    count_collision(name, context);
    render(context)
}

} // verus!
