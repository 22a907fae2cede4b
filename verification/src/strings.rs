//! Case mapping, comparison and hashing of counted UTF-16 names.

use vstd::prelude::*;

pub mod laws;

verus! {

/// The hash algorithm chosen when a caller asks for the default.
pub const HASH_STRING_ALGORITHM_DEFAULT: u32 = 0;

/// The multiplicative hash by 65599.
pub const HASH_STRING_ALGORITHM_X65599: u32 = 1;

/// The upper-case form of one code unit: ASCII letters and the Latin-1 letters that have one.
pub open spec fn upcase(unit: u16) -> u16 {
    if 0x61 <= unit <= 0x7a || (0xe0 <= unit <= 0xfe && unit != 0xf7) {
        (unit - 0x20) as u16
    } else if unit == 0xff {
        0x178
    } else {
        unit
    }
}

/// Every unit of `w` in upper case.
pub open spec fn upcase_all(w: Seq<u16>) -> Seq<u16> {
    Seq::new(w.len(), |i: int| upcase(w[i]))
}

/// `w` as it is hashed or compared: upper-cased when case does not count.
pub open spec fn fold_case(w: Seq<u16>, ignore_case: bool) -> Seq<u16> {
    if ignore_case {
        upcase_all(w)
    } else {
        w
    }
}

/// The multiplicative hash of a run of units, modulo 2^32.
pub open spec fn x65599(w: Seq<u16>) -> int
    decreases w.len(),
{
    if w.len() == 0 {
        0
    } else {
        (x65599(w.drop_last()) * 65599 + w.last()) % 0x1_0000_0000
    }
}

/// Map one code unit to upper case.
pub fn upcase_char(unit: u16) -> (upper: u16)
    ensures
        upper == upcase(unit),
{
    if (0x61 <= unit && unit <= 0x7a) || (0xe0 <= unit && unit <= 0xfe && unit != 0xf7) {
        unit - 0x20
    } else if unit == 0xff {
        0x178
    } else {
        unit
    }
}

/// One step of the multiplicative hash.
pub fn x65599_step(hash: u32, unit: u16) -> (next: u32)
    ensures
        next == (hash * 65599 + unit) % 0x1_0000_0000,
{
    ((hash as u64 * 65599 + unit as u64) % 0x1_0000_0000) as u32
}

/// Hash a counted name. `None` for an unknown algorithm.
pub fn hash_unicode_string(name: &[u16], ignore_case: bool, algorithm: u32) -> (hash: Option<u32>)
    ensures
        hash is Some <==> (algorithm == HASH_STRING_ALGORITHM_DEFAULT || algorithm
            == HASH_STRING_ALGORITHM_X65599),
        hash matches Some(h) ==> h == x65599(fold_case(name@, ignore_case)),
{
    if algorithm != HASH_STRING_ALGORITHM_DEFAULT && algorithm != HASH_STRING_ALGORITHM_X65599 {
        return None;
    }
    let ghost folded = fold_case(name@, ignore_case);
    let mut hash: u32 = 0;
    let mut i: usize = 0;
    while i < name.len()
        invariant
            i <= name@.len(),
            folded == fold_case(name@, ignore_case),
            hash == x65599(folded.take(i as int)),
        decreases name@.len() - i,
    {
        let unit: u16 = if ignore_case {
            upcase_char(name[i])
        } else {
            name[i]
        };
        hash = x65599_step(hash, unit);
        assert(folded.take(i + 1).drop_last() =~= folded.take(i as int));
        i += 1;
    }
    assert(folded.take(i as int) =~= folded);
    Some(hash)
}

/// Whether two counted names are equal.
pub fn equal_unicode_string(a: &[u16], b: &[u16], ignore_case: bool) -> (equal: bool)
    ensures
        equal == (fold_case(a@, ignore_case) == fold_case(b@, ignore_case)),
{
    if a.len() != b.len() {
        assert(fold_case(a@, ignore_case).len() != fold_case(b@, ignore_case).len());
        return false;
    }
    let mut i: usize = 0;
    while i < a.len()
        invariant
            i <= a@.len(),
            a@.len() == b@.len(),
            forall|j: int|
                0 <= j < i ==> fold_case(a@, ignore_case)[j] == fold_case(b@, ignore_case)[j],
        decreases a@.len() - i,
    {
        let same: bool = if ignore_case {
            upcase_char(a[i]) == upcase_char(b[i])
        } else {
            a[i] == b[i]
        };
        if !same {
            assert(fold_case(a@, ignore_case)[i as int] != fold_case(b@, ignore_case)[i as int]);
            return false;
        }
        i += 1;
    }
    assert(fold_case(a@, ignore_case) =~= fold_case(b@, ignore_case));
    true
}

/// Names that compare equal hash alike.
pub proof fn equal_names_hash_alike(a: Seq<u16>, b: Seq<u16>, ignore_case: bool)
    requires
        fold_case(a, ignore_case) == fold_case(b, ignore_case),
    ensures
        x65599(fold_case(a, ignore_case)) == x65599(fold_case(b, ignore_case)),
{
}

/// Upper-casing twice changes nothing more.
pub proof fn upcase_is_idempotent(unit: u16)
    ensures
        upcase(upcase(unit)) == upcase(unit),
{
}

} // verus!
