//! Human-readable byte sizes in binary units with one decimal place.
use vstd::prelude::*;
use crate::text::{decimal, push_decimal, digit_char, string_of};

verus! {

/// Number of unit names: B, KB, MB, GB, TB.
pub const UNIT_COUNT: usize = 5;

pub open spec fn pow1024(i: nat) -> nat
    decreases i,
{
    if i == 0 { 1 } else { 1024 * pow1024((i - 1) as nat) }
}

/// How many times `bytes` is divided by 1024: while the value is at least
/// 1024 and a larger unit remains.
pub open spec fn unit_index_from(bytes: nat, i: nat) -> nat
    decreases 4 - i,
{
    if i >= 4 || bytes < pow1024(i + 1) { i } else { unit_index_from(bytes, i + 1) }
}

pub open spec fn unit_index(bytes: nat) -> nat {
    unit_index_from(bytes, 0)
}

pub open spec fn unit_name(i: nat) -> Seq<char> {
    if i == 0 { seq!['B'] } else if i == 1 { seq!['K', 'B'] } else if i == 2 { seq!['M', 'B'] }
    else if i == 3 { seq!['G', 'B'] } else { seq!['T', 'B'] }
}

/// `n / d` rounded to the nearest integer, ties to the even neighbour.
pub open spec fn div_round_even(n: nat, d: nat) -> nat
    recommends
        d > 0,
{
    let q = n / d;
    let r = n % d;
    if 2 * r > d || (2 * r == d && q % 2 == 1) { q + 1 } else { q }
}

/// The size in tenths of the chosen unit.
pub open spec fn size_tenths(bytes: nat) -> nat {
    div_round_even(10 * bytes, pow1024(unit_index(bytes)))
}

/// `<whole>.<tenth> <unit>`, such as `1.5 KB`.
pub open spec fn size_text(bytes: nat) -> Seq<char> {
    let t = size_tenths(bytes);
    decimal(t / 10) + seq!['.', digit_char(t % 10), ' '] + unit_name(unit_index(bytes))
}

proof fn lemma_pow1024_values()
    ensures
        pow1024(0) == 1,
        pow1024(1) == 1024,
        pow1024(2) == 1048576,
        pow1024(3) == 1073741824,
        pow1024(4) == 1099511627776,
        pow1024(5) == 1125899906842624,
{
    reveal_with_fuel(pow1024, 6);
}

/// Formats a byte count with binary units (1024 per step, up to TB), one
/// decimal place rounded to nearest with ties to even.
pub fn format_size(bytes: u64) -> (r: String)
    ensures
        r@ == size_text(bytes as nat),
{
    let mut i: usize = 0;
    let mut unit: u128 = 1;
    proof {
        lemma_pow1024_values();
    }
    while i < UNIT_COUNT - 1 && (bytes as u128) >= unit * 1024
        invariant
            i <= 4,
            unit as nat == pow1024(i as nat),
            unit <= 1099511627776,
            unit_index(bytes as nat) == unit_index_from(bytes as nat, i as nat),
        decreases 4 - i,
    {
        unit = unit * 1024;
        i = i + 1;
        proof {
            lemma_pow1024_values();
            assert(pow1024(i as nat) == 1024 * pow1024((i - 1) as nat));
        }
    }
    let n: u128 = (bytes as u128) * 10;
    let q = n / unit;
    let rem = n % unit;
    let t = if 2 * rem > unit || (2 * rem == unit && q % 2 == 1) { q + 1 } else { q };
    let mut out: Vec<char> = Vec::new();
    push_decimal(t / 10, &mut out);
    out.push('.');
    let d = t % 10;
    let c = if d == 0 { '0' } else if d == 1 { '1' } else if d == 2 { '2' } else if d == 3 { '3' }
    else if d == 4 { '4' } else if d == 5 { '5' } else if d == 6 { '6' } else if d == 7 { '7' }
    else if d == 8 { '8' } else { '9' };
    out.push(c);
    out.push(' ');
    if i == 0 {
        out.push('B');
    } else {
        let u = if i == 1 { 'K' } else if i == 2 { 'M' } else if i == 3 { 'G' } else { 'T' };
        out.push(u);
        out.push('B');
    }
    string_of(out.as_slice())
}

} // verus!
