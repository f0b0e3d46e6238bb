//! Human-readable rendering of byte counts, with binary-prefixed units.

use vstd::prelude::*;
use crate::digits::{dec_str, digit_char, u64_to_chars};
use crate::strutil::string_of;

verus! {

/// `size` scaled by `unit`, in hundredths, rounded to the nearest
/// (half away from zero).
pub open spec fn hundredths(size: u64, unit: u64) -> nat
    recommends
        unit > 0,
{
    ((size as nat) * 200 / (unit as nat) + 1) / 2
}

/// The scaled value rendered with two decimal places: whole part, a dot,
/// then exactly two fraction digits.
pub open spec fn scaled_chars(size: u64, unit: u64) -> Seq<char> {
    let h = hundredths(size, unit);
    dec_str(h / 100) + seq!['.', digit_char(h % 100 / 10), digit_char(h % 10)]
}

/// What `format_size` renders: bytes below 1024 are plain, larger sizes are
/// scaled to the highest binary unit reached and shown with two decimals.
pub open spec fn spec_format_size(size: u64) -> Seq<char> {
    if size >= 1073741824 {
        scaled_chars(size, 1073741824) + " GB"@
    } else if size >= 1048576 {
        scaled_chars(size, 1048576) + " MB"@
    } else if size >= 1024 {
        scaled_chars(size, 1024) + " KB"@
    } else {
        dec_str(size as nat) + " B"@
    }
}

/// The hundredths value, computed exactly.
fn hundredths_exec(size: u64, unit: u64) -> (h: u64)
    requires
        1024 <= unit,
    ensures
        h == hundredths(size, unit),
{
    let wide: u128 = ((size as u128) * 200 / (unit as u128) + 1) / 2;
    proof {
        assert((size as u128) * 200 <= (u64::MAX as u128) * 200) by (nonlinear_arith)
            requires
                size <= u64::MAX,
        ;
        assert((size as nat) * 200 / (unit as nat) <= (size as nat)) by (nonlinear_arith)
            requires
                unit >= 200,
        ;
    }
    wide as u64
}

/// One scaled rendering: value, dot, two fraction digits, unit suffix.
fn push_scaled(size: u64, unit: u64, suffix: char) -> (r: Vec<char>)
    requires
        1024 <= unit,
    ensures
        r@ == scaled_chars(size, unit) + seq![' ', suffix, 'B'],
{
    let h = hundredths_exec(size, unit);
    let mut v = u64_to_chars(h / 100);
    v.push('.');
    v.push(((48 + h % 100 / 10) as u8) as char);
    v.push(((48 + h % 10) as u8) as char);
    v.push(' ');
    v.push(suffix);
    v.push('B');
    proof {
        assert(v@ =~= scaled_chars(size, unit) + seq![' ', suffix, 'B']);
    }
    v
}

/// `size` rendered as a human-readable string: `"0 B"`, `"1.00 KB"`,
/// `"1.00 MB"`, `"1.00 GB"` and the like.
pub fn format_size(size: u64) -> (r: String)
    ensures
        r@ == spec_format_size(size),
{
    if size >= 1073741824 {
        let v = push_scaled(size, 1073741824, 'G');
        proof {
            reveal_strlit(" GB");
            assert(v@ =~= scaled_chars(size, 1073741824) + " GB"@);
        }
        string_of(&v)
    } else if size >= 1048576 {
        let v = push_scaled(size, 1048576, 'M');
        proof {
            reveal_strlit(" MB");
            assert(v@ =~= scaled_chars(size, 1048576) + " MB"@);
        }
        string_of(&v)
    } else if size >= 1024 {
        let v = push_scaled(size, 1024, 'K');
        proof {
            reveal_strlit(" KB");
            assert(v@ =~= scaled_chars(size, 1024) + " KB"@);
        }
        string_of(&v)
    } else {
        let mut v = u64_to_chars(size);
        v.push(' ');
        v.push('B');
        proof {
            reveal_strlit(" B");
            assert(v@ =~= dec_str(size as nat) + " B"@);
        }
        string_of(&v)
    }
}

} // verus!
