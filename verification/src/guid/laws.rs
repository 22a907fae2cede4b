//! What digits and native bytes of values are.

use vstd::prelude::*;

use super::{hex_digit, hex_digit_value, hex_text, Guid};
use crate::bytes::{le16, le32};

verus! {

/// Digits are those of `0123456789abcdef` in order; capitals are read as well.
pub proof fn digits_are_in_a_row(n: int)
    requires
        0 <= n < 16,
    ensures
        hex_digit(n) == "0123456789abcdef"@[n] as u16,
        hex_digit_value("0123456789abcdef"@[n] as u16) == Some(n),
        hex_digit_value("0123456789ABCDEF"@[n] as u16) == Some(n),
{
    reveal_strlit("0123456789abcdef");
    reveal_strlit("0123456789ABCDEF");
}

/// A unit has a value below sixteen only if it is one of these digits.
pub proof fn nothing_else_is_a_digit(unit: u16)
    ensures
        hex_digit_value(unit) matches Some(v) ==> 0 <= v < 16 && (unit == "0123456789abcdef"@[v] as u16
            || unit == "0123456789ABCDEF"@[v] as u16),
{
    reveal_strlit("0123456789abcdef");
    reveal_strlit("0123456789ABCDEF");
}

/// The native bytes hold the three leading fields, low bytes first, and the trailing bytes in order.
pub proof fn native_bytes_hold_the_fields(g: Guid, i: int)
    requires
        0 <= i < 8,
    ensures
        g.windows_bytes().len() == 16,
        le32(g.windows_bytes(), 0) == g.data1,
        le16(g.windows_bytes(), 4) == g.data2,
        le16(g.windows_bytes(), 6) == g.data3,
        g.windows_bytes()[8 + i] == g.data4@[i],
{
    reveal(le16);
    reveal(le32);
}

/// A text of digits is as long as was asked for.
pub proof fn digits_are_counted(v: int, digits: nat)
    ensures
        hex_text(v, digits).len() == digits,
    decreases digits,
{
    if digits > 0 {
        digits_are_counted(v / 16, (digits - 1) as nat);
    }
}

} // verus!
