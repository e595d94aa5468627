//! Small shared helpers: hexadecimal rendering of canonical hashes and
//! string truncation for display.

use vstd::prelude::*;

use crate::search::{spec_hash_query, Query};

verus! {

/// The uppercase hexadecimal digit of a nibble value.
pub open spec fn spec_hex_digit(d: u32) -> char {
    if d == 0 {
        '0'
    } else if d == 1 {
        '1'
    } else if d == 2 {
        '2'
    } else if d == 3 {
        '3'
    } else if d == 4 {
        '4'
    } else if d == 5 {
        '5'
    } else if d == 6 {
        '6'
    } else if d == 7 {
        '7'
    } else if d == 8 {
        '8'
    } else if d == 9 {
        '9'
    } else if d == 10 {
        'A'
    } else if d == 11 {
        'B'
    } else if d == 12 {
        'C'
    } else if d == 13 {
        'D'
    } else if d == 14 {
        'E'
    } else {
        'F'
    }
}

/// The digit as a one-character string slice.
fn hex_digit_str(d: u32) -> (r: &'static str)
    requires
        d < 16,
    ensures
        r@ =~= seq![spec_hex_digit(d)],
{
    proof {
        reveal_strlit("0");
        reveal_strlit("1");
        reveal_strlit("2");
        reveal_strlit("3");
        reveal_strlit("4");
        reveal_strlit("5");
        reveal_strlit("6");
        reveal_strlit("7");
        reveal_strlit("8");
        reveal_strlit("9");
        reveal_strlit("A");
        reveal_strlit("B");
        reveal_strlit("C");
        reveal_strlit("D");
        reveal_strlit("E");
        reveal_strlit("F");
    }
    if d == 0 {
        "0"
    } else if d == 1 {
        "1"
    } else if d == 2 {
        "2"
    } else if d == 3 {
        "3"
    } else if d == 4 {
        "4"
    } else if d == 5 {
        "5"
    } else if d == 6 {
        "6"
    } else if d == 7 {
        "7"
    } else if d == 8 {
        "8"
    } else if d == 9 {
        "9"
    } else if d == 10 {
        "A"
    } else if d == 11 {
        "B"
    } else if d == 12 {
        "C"
    } else if d == 13 {
        "D"
    } else if d == 14 {
        "E"
    } else {
        "F"
    }
}

/// Uppercase hexadecimal form of a value, without leading zeros (`0` for
/// zero): the rendering used in subset names.
pub open spec fn spec_hex_digits(n: u32) -> Seq<char>
    decreases n,
{
    if n < 16 {
        seq![spec_hex_digit(n % 16)]
    } else {
        spec_hex_digits(n / 16).push(spec_hex_digit(n % 16))
    }
}

/// Render a 32-bit value as uppercase hexadecimal without leading zeros.
pub fn to_hex(n: u32) -> (r: String)
    ensures
        r@ == spec_hex_digits(n),
    decreases n,
{
    if n < 16 {
        let out = String::from_str(hex_digit_str(n % 16));
        proof {
            assert(out@ =~= spec_hex_digits(n));
        }
        out
    } else {
        let mut out = to_hex(n / 16);
        out.append(hex_digit_str(n % 16));
        proof {
            assert(out@ =~= spec_hex_digits(n));
        }
        out
    }
}

/// Fixed-width (eight digit) uppercase hexadecimal form, used to display
/// content hashes.
pub open spec fn spec_hex32(n: u32) -> Seq<char> {
    seq![
        spec_hex_digit((n / 0x1000_0000) % 16),
        spec_hex_digit((n / 0x100_0000) % 16),
        spec_hex_digit((n / 0x10_0000) % 16),
        spec_hex_digit((n / 0x1_0000) % 16),
        spec_hex_digit((n / 0x1000) % 16),
        spec_hex_digit((n / 0x100) % 16),
        spec_hex_digit((n / 0x10) % 16),
        spec_hex_digit(n % 16),
    ]
}

/// Render a 32-bit value as eight uppercase hexadecimal digits, for
/// displaying content hashes.
pub fn to_hex32(n: u32) -> (r: String)
    ensures
        r@ == spec_hex32(n),
{
    let mut out = String::new();
    out.append(hex_digit_str((n / 0x1000_0000) % 16));
    out.append(hex_digit_str((n / 0x100_0000) % 16));
    out.append(hex_digit_str((n / 0x10_0000) % 16));
    out.append(hex_digit_str((n / 0x1_0000) % 16));
    out.append(hex_digit_str((n / 0x1000) % 16));
    out.append(hex_digit_str((n / 0x100) % 16));
    out.append(hex_digit_str((n / 0x10) % 16));
    out.append(hex_digit_str(n % 16));
    proof {
        assert(out@ =~= spec_hex32(n));
    }
    out
}

/// The canonical hash of a query, rendered as uppercase hexadecimal
/// without leading zeros.
pub fn hash_t_hex(q: &Query) -> (r: String)
    ensures
        r@ == spec_hex_digits(spec_hash_query(q@)),
{
    to_hex(crate::search::hash_t(q))
}

/// What truncation to `len` characters leaves of a string: the string
/// itself if it fits, else its first `len - 3` characters and an ellipsis.
pub open spec fn spec_limit_len(s: Seq<char>, len: nat) -> Seq<char> {
    if s.len() <= len {
        s
    } else {
        s.take(len - 3) + "..."@
    }
}

/// Truncate a string to at most `len` characters for display, ending it
/// with `...` when it had to be cut. Truncation counts characters, not
/// bytes, so a cut never splits a character.
pub fn limit_len(string: &str, len: usize) -> (r: String)
    requires
        len >= 3,
    ensures
        r@ == spec_limit_len(string@, len as nat),
{
    let n = string.unicode_len();
    if n <= len {
        String::from_str(string)
    } else {
        let head = string.substring_char(0, len - 3);
        let mut out = String::from_str(head);
        out.append("...");
        proof {
            assert(string@.subrange(0, len - 3) =~= string@.take(len - 3));
        }
        out
    }
}

} // verus!
