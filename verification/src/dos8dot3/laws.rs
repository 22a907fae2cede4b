//! What short names are made of.

use vstd::prelude::*;

use super::{
    checksum_digits, checksum_from, checksum_of, count_digits, extension_of, last_dot,
    lemma_extension_len, lemma_last_dot, lemma_stem_len, name_of, next_state, oem_byte_ok,
    oem_illegal, oem_name_ok, short_illegal, short_unit, started, stem_of, upper_hex, written,
    NameState, OemMap,
};

verus! {

/// The printable characters that DOS gives a meaning of their own, apart from the dot and the space.
pub open spec fn reserved_characters() -> Seq<char> {
    "\"*+,/:;<=>?[\\]|"@
}

/// A byte is refused in a short name if and only if it is a reserved character, the mark of a
/// deleted entry, or zero.
pub proof fn reserved_bytes_are_refused(b: u8)
    ensures
        oem_illegal(b) <==> reserved_characters().contains(b as char) || b == 0xe5 || b == 0,
{
    reveal_strlit("\"*+,/:;<=>?[\\]|");
    let r = reserved_characters();
    assert(r.len() == 15);
    assert(r[0] == '"' && r[1] == '*' && r[2] == '+' && r[3] == ',' && r[4] == '/' && r[5] == ':'
        && r[6] == ';' && r[7] == '<' && r[8] == '=' && r[9] == '>' && r[10] == '?' && r[11] == '['
        && r[12] == '\\' && r[13] == ']' && r[14] == '|');
    if r.contains(b as char) {
        let i = choose|i: int| 0 <= i < r.len() && r[i] == b as char;
        assert(i == 0 || i == 1 || i == 2 || i == 3 || i == 4 || i == 5 || i == 6 || i == 7 || i == 8
            || i == 9 || i == 10 || i == 11 || i == 12 || i == 13 || i == 14);
    }
}

/// Whether a unit of a long name gets into the short name: it is a printable ASCII character, but
/// neither a space nor a dot.
pub open spec fn usable(u: u16) -> bool {
    0x20 < u < 0x7f && u != 0x2e
}

/// A usable unit in the short name: an underscore for one that is refused there, else the unit in
/// upper case.
pub open spec fn short_form(u: u16) -> u16 {
    if oem_illegal(u as u8) {
        0x5f
    } else if 0x61 <= u <= 0x7a {
        (u - 0x20) as u16
    } else {
        u
    }
}

/// The usable units of a text, in the form that they have in the short name.
pub open spec fn kept(w: Seq<u16>) -> Seq<u16> {
    w.filter(|u: u16| usable(u)).map_values(|u: u16| short_form(u))
}

/// The first `n` units, or all.
pub open spec fn up_to(w: Seq<u16>, n: int) -> Seq<u16> {
    if w.len() > n {
        w.take(n)
    } else {
        w
    }
}

proof fn lemma_short_unit(u: u16, m: OemMap)
    ensures
        match short_unit(u, false, m) {
            Some(c) => usable(u) && c.unit == short_form(u) && c.width == 1,
            None => !usable(u),
        },
{
    if usable(u) {
        assert(short_illegal(u) <==> oem_illegal(u as u8));
    }
}

proof fn lemma_kept(w: Seq<u16>)
    requires
        w.len() > 0,
    ensures
        kept(w) == if usable(w.last()) {
            kept(w.drop_last()).push(short_form(w.last()))
        } else {
            kept(w.drop_last())
        },
{
    reveal(Seq::filter);
    let f = |u: u16| usable(u);
    if usable(w.last()) {
        assert(w.filter(f) == w.drop_last().filter(f).push(w.last()));
        assert(kept(w) =~= kept(w.drop_last()).push(short_form(w.last())));
    }
}

proof fn lemma_kept_nothing(w: Seq<u16>)
    requires
        w.len() == 0,
    ensures
        kept(w) == Seq::<u16>::empty(),
{
    reveal(Seq::filter);
    assert(kept(w) =~= Seq::empty());
}

proof fn lemma_stem(w: Seq<u16>, m: OemMap)
    ensures
        stem_of(w, false, m).0 == up_to(kept(w), 6),
        stem_of(w, false, m).1 == 6 - up_to(kept(w), 6).len(),
    decreases w.len(),
{
    if w.len() == 0 {
        lemma_kept_nothing(w);
    } else {
        lemma_stem(w.drop_last(), m);
        lemma_kept(w);
        lemma_short_unit(w.last(), m);
        assert(stem_of(w, false, m).0 =~= up_to(kept(w), 6));
    }
}

proof fn lemma_extension(w: Seq<u16>, m: OemMap)
    ensures
        extension_of(w, false, m) == seq![0x2eu16] + up_to(kept(w), 3),
    decreases w.len(),
{
    if w.len() == 0 {
        lemma_kept_nothing(w);
        assert(extension_of(w, false, m) =~= seq![0x2eu16] + up_to(kept(w), 3));
    } else {
        lemma_extension(w.drop_last(), m);
        lemma_kept(w);
        lemma_short_unit(w.last(), m);
        assert(extension_of(w, false, m) =~= seq![0x2eu16] + up_to(kept(w), 3));
    }
}

/// Whether `dot` is where the last dot of a name is, or its length where it has none.
pub open spec fn ends_stem(name: Seq<u16>, dot: int) -> bool {
    &&& 0 <= dot <= name.len()
    &&& dot < name.len() ==> name[dot] == 0x2e
    &&& forall|i: int| dot < i < name.len() ==> name[i] != 0x2e
    &&& dot == name.len() ==> !name.contains(0x2e)
}

proof fn lemma_ends_stem(name: Seq<u16>, dot: int)
    requires
        ends_stem(name, dot),
    ensures
        dot == last_dot(name),
{
    lemma_last_dot(name);
    let d = last_dot(name);
    if d < name.len() {
        assert(name.contains(name[d]));
    }
    if dot < d && d < name.len() {
        assert(name[d] != 0x2e);
    }
    if d < dot && dot < name.len() {
        assert(name[dot] != 0x2e);
    }
    if d == name.len() && dot < name.len() {
        lemma_dot_seen(name, dot);
    }
}

proof fn lemma_dot_seen(name: Seq<u16>, i: int)
    requires
        0 <= i < name.len(),
        name[i] == 0x2e,
    ensures
        last_dot(name) < name.len(),
    decreases name.len(),
{
    if name.last() != 0x2e {
        lemma_dot_seen(name.drop_last(), i);
    }
}

/// The units in front of the tilde of the first short name: the first six usable units in front of
/// the last dot; where there are at most two of them, the four digits of the checksum behind them.
pub open spec fn first_stem(name: Seq<u16>, dot: int) -> Seq<u16> {
    let front = kept(name.take(dot));
    if front.len() > 2 {
        up_to(front, 6)
    } else {
        front + checksum_digits(checksum_of(name))
    }
}

/// The dot and the first three usable units behind it, where there is a dot.
pub open spec fn first_extension(name: Seq<u16>, dot: int) -> Seq<u16> {
    if dot < name.len() {
        seq![0x2eu16] + up_to(kept(name.subrange(dot, name.len() as int)), 3)
    } else {
        Seq::empty()
    }
}

/// Whether no name of a row was generated yet.
pub open spec fn fresh(s: NameState) -> bool {
    &&& s.stem_length == 0
    &&& s.count == 0
    &&& s.inserted == 0
    &&& s.stem.len() == 8
    &&& s.extension.len() == 4
}

/// The state behind the `n`th name of a row.
pub open spec fn state_behind(s: NameState, name: Seq<u16>, m: OemMap, n: nat) -> NameState
    decreases n,
{
    if n == 0 {
        s
    } else {
        next_state(state_behind(s, name, m, (n - 1) as nat), name, false, m)
    }
}

/// The state of the `n`th name: the stem, the extension, whether the checksum is in, and the count.
proof fn lemma_row(s: NameState, name: Seq<u16>, m: OemMap, dot: int, n: nat)
    requires
        fresh(s),
        ends_stem(name, dot),
        1 <= n <= 13,
    ensures
        ({
            let t = state_behind(s, name, m, n);
            let front = kept(name.take(dot));
            &&& t.stem.len() == 8
            &&& t.extension.len() == 4
            &&& 0 <= t.extension_length <= 4
            &&& t.extension.take(t.extension_length) == first_extension(name, dot)
            &&& front.len() <= 2 ==> t.count == n && t.inserted == 1 && 0 < t.stem_length <= 8
                && t.stem.take(t.stem_length) == first_stem(name, dot)
            &&& front.len() > 2 && n <= 4 ==> t.count == n && t.inserted == 0 && 2 < t.stem_length
                <= 6 && t.stem.take(t.stem_length) == first_stem(name, dot)
            &&& front.len() > 2 && n > 4 ==> t.count == n - 4 && t.inserted == 1 && t.stem_length
                == 6 && t.stem.take(6) == front.take(2) + checksum_digits(checksum_of(name))
        }),
    decreases n,
{
    let front = kept(name.take(dot));
    let t = state_behind(s, name, m, n);
    lemma_ends_stem(name, dot);
    if n == 1 {
        reveal_with_fuel(state_behind, 2);
        let back = name.subrange(dot, name.len() as int);
        lemma_stem(name.take(dot), m);
        lemma_extension(back, m);
        lemma_stem_len(name.take(dot), false, m);
        lemma_extension_len(back, false, m);
        let first = started(s, name, false, m);
        assert(first.count == 0);
        assert(t.extension.take(t.extension_length) =~= first_extension(name, dot));
        assert(t.stem.take(t.stem_length) =~= first_stem(name, dot));
    } else {
        lemma_row(s, name, m, dot, (n - 1) as nat);
        let before = state_behind(s, name, m, (n - 1) as nat);
        if front.len() > 2 && n == 5 {
            let digits = checksum_digits(checksum_of(name));
            assert(before.stem.take(2) =~= before.stem.take(before.stem_length).take(2));
            assert(first_stem(name, dot).take(2) =~= front.take(2));
            assert(t.stem == written(before.stem, 2, digits));
            assert(t.stem.take(6) =~= before.stem.take(2) + digits);
        }
    }
}

/// The first thirteen short names of a row. Four names carry the numbers one to four behind the stem
/// and a tilde. From the fifth on the stem is its first two units with the digits of the checksum,
/// and the numbers start again. A stem that has the digits from the start keeps counting.
pub proof fn names_of_a_row(s: NameState, name: Seq<u16>, m: OemMap, dot: int, n: nat)
    requires
        fresh(s),
        ends_stem(name, dot),
        1 <= n <= 13,
        kept(name.take(dot)).len() <= 2 ==> n <= 9,
    ensures
        name_of(state_behind(s, name, m, n)) == if kept(name.take(dot)).len() <= 2 || n <= 4 {
            first_stem(name, dot) + seq![0x7eu16, (0x30 + n) as u16] + first_extension(name, dot)
        } else {
            kept(name.take(dot)).take(2) + checksum_digits(checksum_of(name)) + seq![
                0x7eu16,
                (0x30 + n - 4) as u16,
            ] + first_extension(name, dot)
        },
{
    lemma_row(s, name, m, dot, n);
    let t = state_behind(s, name, m, n);
    reveal_with_fuel(count_digits, 3);
    assert(count_digits(t.count as int, 7) =~= seq![(0x30 + t.count) as u16]);
    let stem = t.stem.take(t.stem_length);
    assert(name_of(t) =~= stem + seq![0x7eu16, (0x30 + t.count) as u16] + first_extension(
        name,
        dot,
    ));
}

/// The bytes of ASCII units.
pub open spec fn narrow(w: Seq<u16>) -> Seq<u8> {
    w.map_values(|u: u16| u as u8)
}

/// Whether a unit may stand anywhere in a short name but in place of the dot.
spec fn plain(u: u16) -> bool {
    0x20 < u < 0x7f && u != 0x2e && !oem_illegal(u as u8)
}

proof fn lemma_kept_plain(w: Seq<u16>)
    ensures
        forall|i: int| 0 <= i < kept(w).len() ==> plain(#[trigger] kept(w)[i]),
    decreases w.len(),
{
    if w.len() == 0 {
        lemma_kept_nothing(w);
    } else {
        lemma_kept_plain(w.drop_last());
        lemma_kept(w);
    }
}

/// Every short name of a row is a legal one, where the long name has no dot or a usable unit behind
/// the last one.
pub proof fn generated_names_are_legal(s: NameState, name: Seq<u16>, m: OemMap, dot: int, n: nat)
    requires
        fresh(s),
        ends_stem(name, dot),
        1 <= n <= 13,
        kept(name.take(dot)).len() <= 2 ==> n <= 9,
        dot < name.len() ==> kept(name.subrange(dot, name.len() as int)).len() > 0,
    ensures
        oem_name_ok(narrow(name_of(state_behind(s, name, m, n)))),
        !narrow(name_of(state_behind(s, name, m, n))).contains(0x20),
{
    names_of_a_row(s, name, m, dot, n);
    let front = kept(name.take(dot));
    let back = kept(name.subrange(dot, name.len() as int));
    lemma_kept_plain(name.take(dot));
    lemma_kept_plain(name.subrange(dot, name.len() as int));
    let out = name_of(state_behind(s, name, m, n));
    let digits = checksum_digits(checksum_of(name));
    let stem = if front.len() <= 2 || n <= 4 {
        first_stem(name, dot)
    } else {
        front.take(2) + digits
    };
    let ext = first_extension(name, dot);
    lemma_checksum_range(name);
    assert(forall|i: int| 0 <= i < digits.len() ==> plain(#[trigger] digits[i]));
    assert(0 < stem.len() <= 6);
    assert forall|i: int| 0 <= i < stem.len() implies plain(#[trigger] stem[i]) by {
        if front.len() > 2 && n <= 4 {
            assert(stem[i] == front[i]);
        } else if front.len() <= 2 {
            if i < front.len() {
                assert(stem[i] == front[i]);
            } else {
                assert(stem[i] == digits[i - front.len()]);
            }
        } else {
            if i < 2 {
                assert(stem[i] == front[i]);
            } else {
                assert(stem[i] == digits[i - 2]);
            }
        }
    }
    let size = stem.len() as int;
    assert(out.len() == size + 2 + ext.len());
    assert forall|i: int| 0 <= i < out.len() && i != size + 2 implies plain(#[trigger] out[i]) by {
        if i < size {
            assert(out[i] == stem[i]);
        } else if i > size + 2 {
            assert(out[i] == ext[i - size - 2]);
            assert(ext[i - size - 2] == back[i - size - 3]);
        }
    }
    if ext.len() > 0 {
        assert(out[size + 2] == ext[0]);
    }
    let bytes = narrow(out);
    assert forall|i: int| 0 <= i < bytes.len() implies #[trigger] oem_byte_ok(bytes, i) by {
        assert(bytes[i] == out[i] as u8);
        if i != size + 2 {
            assert(plain(out[i]));
        }
    }
    assert forall|i: int| 0 <= i < bytes.len() && i != size + 2 implies #[trigger] bytes[i] != 0x2e
        && bytes[i] != 0x20 by {
        assert(bytes[i] == out[i] as u8);
        assert(plain(out[i]));
    }
    if ext.len() > 0 {
        assert(bytes[size + 2] == 0x2e);
        assert(bytes.contains(bytes[size + 2]));
    }
    if bytes.contains(0x20) {
        let i = choose|i: int| 0 <= i < bytes.len() && bytes[i] == 0x20;
        assert(i != size + 2);
    }
}

// ---------------------------------------------------------------------------------------------
// The checksum
// ---------------------------------------------------------------------------------------------

/// A 16-bit number turned right by one bit.
pub open spec fn turned(sum: int) -> int {
    sum / 2 + sum % 2 * 0x8000
}

proof fn lemma_checksum_step(name: Seq<u16>, a: u16, b: u16, at: int, sum: int)
    requires
        0 <= at <= name.len(),
        name.len() % 2 == 0,
        at % 2 == 0,
        0 <= sum < 0x1_0000,
    ensures
        checksum_from(name + seq![a, b], at, sum) == (turned(checksum_from(name, at, sum)) + a * 256
            + b) % 0x1_0000,
        0 <= checksum_from(name, at, sum) < 0x1_0000,
    decreases name.len() - at,
{
    let more = name + seq![a, b];
    if at < name.len() {
        assert(at + 1 < name.len());
        let first = (sum * 128 + name[at]) % 0x1_0000;
        let next = (sum / 2 + first * 256 + name[at + 1]) % 0x1_0000;
        assert(more[at] == name[at] && more[at + 1] == name[at + 1]);
        lemma_checksum_step(name, a, b, at + 2, next);
    } else {
        reveal_with_fuel(checksum_from, 2);
        assert(more[at] == a && more[at + 1] == b);
        let first = (sum * 128 + a) % 0x1_0000;
        lemma_turned(sum, a as int, b as int);
        assert(checksum_from(more, at, sum) == (sum / 2 + first * 256 + b) % 0x1_0000);
    }
}

proof fn lemma_turned(sum: int, a: int, b: int)
    requires
        0 <= sum < 0x1_0000,
        0 <= a < 0x1_0000,
        0 <= b < 0x1_0000,
    ensures
        (sum / 2 + (sum * 128 + a) % 0x1_0000 * 256 + b) % 0x1_0000 == (turned(sum) + a * 256 + b)
            % 0x1_0000,
{
    let q = (sum * 128 + a) / 0x1_0000;
    let h = sum / 2;
    assert((sum * 128 + a) % 0x1_0000 == sum * 128 + a - 0x1_0000 * q);
    assert(sum * 0x8000 == h * 0x1_0000 + sum % 2 * 0x8000);
    let left = sum / 2 + (sum * 128 + a - 0x1_0000 * q) * 256 + b;
    let right = turned(sum) + a * 256 + b;
    assert(left == right + 0x1_0000 * (h - 256 * q));
    vstd::arithmetic::div_mod::lemma_mod_multiples_vanish(h - 256 * q, right, 0x1_0000);
    assert(0x1_0000 * (h - 256 * q) + right == left);
}

/// The checksum turns and adds: each further pair of units is added, the first of them shifted by
/// eight bits, to what stands for the units before them turned right by one bit.
pub proof fn checksum_turns_and_adds(name: Seq<u16>, a: u16, b: u16)
    requires
        name.len() % 2 == 0,
    ensures
        checksum_of(name + seq![a, b]) == (turned(checksum_of(name)) + a * 256 + b) % 0x1_0000,
        0 <= checksum_of(name) < 0x1_0000,
{
    let more = name + seq![a, b];
    if name.len() == 0 {
        assert(more =~= seq![a, b]);
        reveal_with_fuel(checksum_from, 2);
    } else {
        assert(more[0] == name[0] && more[1] == name[1]);
        lemma_checksum_step(name, a, b, 2, (name[0] * 256 + name[1]) % 0x1_0000);
    }
}

/// The checksum of a name with an odd number of units, more than one, is that of the name with a zero
/// behind it.
pub proof fn odd_names_end_with_zero(name: Seq<u16>)
    requires
        name.len() % 2 == 1,
        name.len() > 1,
    ensures
        checksum_of(name) == checksum_of(name.push(0)),
{
    assert(name.push(0)[0] == name[0] && name.push(0)[1] == name[1]);
    lemma_odd(name, 2, (name[0] * 256 + name[1]) % 0x1_0000);
}

proof fn lemma_odd(name: Seq<u16>, at: int, sum: int)
    requires
        name.len() % 2 == 1,
        0 <= at <= name.len() + 1,
        at % 2 == 0,
    ensures
        checksum_from(name, at, sum) == checksum_from(name.push(0), at, sum),
    decreases name.len() + 1 - at,
{
    if at < name.len() {
        let first = (sum * 128 + name[at]) % 0x1_0000;
        let second = if at + 1 < name.len() {
            name[at + 1] as int
        } else {
            0
        };
        assert(name.push(0)[at] == name[at]);
        lemma_odd(name, at + 2, (sum / 2 + first * 256 + second) % 0x1_0000);
    }
}

proof fn lemma_checksum_range(name: Seq<u16>)
    ensures
        0 <= checksum_of(name) < 0x1_0000,
{
    if name.len() > 1 {
        if name.len() % 2 == 1 {
            odd_names_end_with_zero(name);
            checksum_turns_and_adds(name.push(0), 0, 0);
        } else {
            checksum_turns_and_adds(name, 0, 0);
        }
    }
}

/// The value of an upper-case hexadecimal digit.
pub open spec fn hex_value(u: u16) -> int {
    if 0x30 <= u <= 0x39 {
        u - 0x30
    } else {
        u - 0x41 + 10
    }
}

/// The digits of a checksum are four upper-case hexadecimal ones that have its value, least
/// significant first.
pub proof fn checksum_digits_have_the_value(v: int)
    requires
        0 <= v < 0x1_0000,
    ensures
        checksum_digits(v).len() == 4,
        forall|i: int|
            0 <= i < 4 ==> 0x30 <= #[trigger] checksum_digits(v)[i] <= 0x39 || 0x41
                <= checksum_digits(v)[i] <= 0x46,
        hex_value(checksum_digits(v)[0]) + 16 * hex_value(checksum_digits(v)[1]) + 256 * hex_value(
            checksum_digits(v)[2],
        ) + 4096 * hex_value(checksum_digits(v)[3]) == v,
{
    let d = checksum_digits(v);
    let (a, b, c, e) = (v % 16, v / 16 % 16, v / 256 % 16, v / 4096 % 16);
    lemma_upper_hex(a);
    lemma_upper_hex(b);
    lemma_upper_hex(c);
    lemma_upper_hex(e);
    assert(d[0] == upper_hex(a) && d[1] == upper_hex(b) && d[2] == upper_hex(c) && d[3]
        == upper_hex(e));
    assert(a + 16 * b + 256 * c + 4096 * e == v) by {
        assert(v / 16 / 16 == v / 256 && v / 256 / 16 == v / 4096);
    }
    assert forall|i: int| 0 <= i < 4 implies 0x30 <= #[trigger] d[i] <= 0x39 || 0x41 <= d[i]
        <= 0x46 by {
        assert(i == 0 || i == 1 || i == 2 || i == 3);
    }
}

proof fn lemma_upper_hex(n: int)
    requires
        0 <= n < 16,
    ensures
        hex_value(upper_hex(n)) == n,
        0x30 <= upper_hex(n) <= 0x39 || 0x41 <= upper_hex(n) <= 0x46,
{
}

} // verus!
