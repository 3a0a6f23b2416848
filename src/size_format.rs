use vstd::prelude::*;
use crate::text::{decimal, digit, digit_char, push_char, push_decimal};

verus! {

pub const KIB: u64 = 1024;
pub const MIB: u64 = 1048576;
pub const GIB: u64 = 1073741824;

/// `b * 10 / unit` rounded to the nearest integer, ties to even: the number
/// of tenths of a unit shown for `b` bytes.
pub open spec fn rounded_tenths(b: nat, unit: nat) -> nat
    recommends
        unit > 0,
{
    let q = (b * 10) / unit;
    let r = (b * 10) % unit;
    if 2 * r > unit || (2 * r == unit && q % 2 == 1) {
        q + 1
    } else {
        q
    }
}

/// `t` tenths written with one decimal place, then a space and the unit.
pub open spec fn with_unit(t: nat, unit: Seq<char>) -> Seq<char> {
    decimal(t / 10) + seq!['.', digit_char(t % 10), ' '] + unit
}

/// How a byte count is shown: plain bytes below one KiB, otherwise the
/// largest of KB, MB, GB that fits, with one decimal place.
pub open spec fn human_size_text(b: nat) -> Seq<char> {
    if b >= GIB {
        with_unit(rounded_tenths(b, GIB as nat), seq!['G', 'B'])
    } else if b >= MIB {
        with_unit(rounded_tenths(b, MIB as nat), seq!['M', 'B'])
    } else if b >= KIB {
        with_unit(rounded_tenths(b, KIB as nat), seq!['K', 'B'])
    } else {
        decimal(b) + seq![' ', 'B']
    }
}

fn tenths(b: u64, unit: u64) -> (t: u64)
    requires
        unit >= KIB,
    ensures
        t == rounded_tenths(b as nat, unit as nat),
{
    let num: u128 = b as u128 * 10;
    let q: u128 = num / (unit as u128);
    let r: u128 = num % (unit as u128);
    assert(q * 1024 <= num) by (nonlinear_arith)
        requires
            q == num / (unit as u128),
            unit >= 1024,
    ;
    assert(q < 0x1_0000_0000_0000_0000u128 - 1);
    let t: u128 = if 2 * r > unit as u128 || (2 * r == unit as u128 && q % 2 == 1) {
        q + 1
    } else {
        q
    };
    t as u64
}

fn push_with_unit(s: &mut String, t: u64, u0: char)
    ensures
        final(s)@ == old(s)@ + with_unit(t as nat, seq![u0, 'B']),
{
    push_decimal(s, t / 10);
    push_char(s, '.');
    push_char(s, digit(t % 10));
    push_char(s, ' ');
    push_char(s, u0);
    push_char(s, 'B');
    assert(final(s)@ =~= old(s)@ + with_unit(t as nat, seq![u0, 'B']));
}

/// Renders a byte count for display: `"512 B"`, `"1.5 KB"`, `"2.5 GB"`.
/// The tenths are rounded from the exact quotient, ties to even.
pub fn human_size(bytes: u64) -> (r: String)
    ensures
        r@ == human_size_text(bytes as nat),
{
    let mut s = String::new();
    if bytes >= GIB {
        let t = tenths(bytes, GIB);
        push_with_unit(&mut s, t, 'G');
    } else if bytes >= MIB {
        let t = tenths(bytes, MIB);
        push_with_unit(&mut s, t, 'M');
    } else if bytes >= KIB {
        let t = tenths(bytes, KIB);
        push_with_unit(&mut s, t, 'K');
    } else {
        push_decimal(&mut s, bytes);
        push_char(&mut s, ' ');
        push_char(&mut s, 'B');
        assert(s@ =~= decimal(bytes as nat) + seq![' ', 'B']);
    }
    s
}

} // verus!
