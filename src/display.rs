use crate::bitstream::bit_at;
use vstd::bits::lemma_u8_shr_is_div;
use vstd::prelude::*;

verus! {

/// The bits of `code` in the order a shift register takes them: most
/// significant first.
pub fn shift_out_bits(code: u8) -> (r: Vec<bool>)
    ensures
        r@.len() == 8,
        forall|i: int| 0 <= i < 8 ==> #[trigger] r@[i] == bit_at(code as int, (7 - i) as nat),
{
    let mut r: Vec<bool> = Vec::new();
    let mut i: u8 = 0;
    while i < 8
        invariant
            i <= 8,
            r@.len() == i,
            forall|j: int| 0 <= j < i ==> #[trigger] r@[j] == bit_at(code as int, (7 - j) as nat),
        decreases 8 - i,
    {
        let shifted = code >> (7 - i);
        proof {
            lemma_u8_shr_is_div(code, (7 - i) as u8);
            assert(shifted & 1 == shifted % 2) by (bit_vector);
        }
        r.push(shifted & 1 == 1);
        i += 1;
    }
    r
}

/// Ten to the power `n`.
pub open spec fn pow10(n: nat) -> int
    decreases n,
{
    if n == 0 {
        1
    } else {
        10 * pow10((n - 1) as nat)
    }
}

/// Decimal digit `place` of `count` (place 0 is the units).
pub open spec fn decimal_digit(count: int, place: nat) -> int {
    (count / pow10(place)) % 10
}

/// Powers of ten grow with the exponent.
proof fn lemma_pow10_monotone(a: nat, b: nat)
    requires
        a <= b,
    ensures
        1 <= pow10(a) <= pow10(b),
    decreases b,
{
    if b > a {
        lemma_pow10_monotone(a, (b - 1) as nat);
    } else if a > 0 {
        lemma_pow10_monotone((a - 1) as nat, (a - 1) as nat);
    }
}

/// Decimal digit `place` of `count` (place 0 is the units), as a display
/// position shows it; positions past the twentieth show zero.
pub fn digit_at(count: u64, place: u32) -> (r: u8)
    ensures
        r == decimal_digit(count as int, place as nat),
{
    proof {
        reveal_with_fuel(pow10, 21);
    }
    if place > 19 {
        proof {
            lemma_pow10_monotone(20, place as nat);
            assert(pow10(20) == 100000000000000000000int);
            assert(count as int / pow10(place as nat) == 0) by {
                vstd::arithmetic::div_mod::lemma_basic_div(count as int, pow10(place as nat));
            }
        }
        return 0;
    }
    let mut divisor: u64 = 1;
    let mut k: u32 = 0;
    while k < place
        invariant
            k <= place <= 19,
            divisor == pow10(k as nat),
        decreases place - k,
    {
        proof {
            reveal_with_fuel(pow10, 19);
            lemma_pow10_monotone(k as nat, 18);
            assert(pow10(18) == 1000000000000000000int);
        }
        divisor = divisor * 10;
        k += 1;
    }
    ((count / divisor) % 10) as u8
}

/// Pulse widths, in microseconds, of the red, green and blue channels for a
/// colour given as three flag bits (red is the highest).
pub fn rgb_pulse_widths(flags: u64) -> (r: (u64, u64, u64))
    ensures
        r.0 == (flags & 4) * 100,
        r.1 == (flags & 2) * 100,
        r.2 == (flags & 1) * 100,
{
    let red = flags & 4;
    let green = flags & 2;
    let blue = flags & 1;
    assert(red <= 4 && green <= 2 && blue <= 1) by (bit_vector)
        requires
            red == flags & 4,
            green == flags & 2,
            blue == flags & 1,
    ;
    (red * 100, green * 100, blue * 100)
}

} // verus!
