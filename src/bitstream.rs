use vstd::arithmetic::div_mod::{lemma_div_denominator, lemma_fundamental_div_mod};
use vstd::arithmetic::power2::{lemma_pow2_pos, lemma_pow2_unfold, pow2};
use vstd::prelude::*;

verus! {

/// The numeric value of one received bit.
pub open spec fn bit_value(b: bool) -> int {
    if b {
        1
    } else {
        0
    }
}

/// Bit `k` of `v` (bit 0 is the least significant).
pub open spec fn bit_at(v: int, k: nat) -> bool {
    (v as int / pow2(k) as int) % 2 == 1
}

/// The number spelled by `s[from..to]` when the first bit is the most
/// significant one.
pub open spec fn msb_first(s: Seq<bool>, from: int, to: int) -> int
    decreases to - from,
{
    if to <= from {
        0
    } else {
        2 * msb_first(s, from, to - 1) + bit_value(s[to - 1])
    }
}

/// The number spelled by `s[from..to]` when the first bit is the least
/// significant one.
pub open spec fn lsb_first(s: Seq<bool>, from: int, to: int) -> int
    decreases to - from,
{
    if to <= from {
        0
    } else {
        bit_value(s[from]) + 2 * lsb_first(s, from + 1, to)
    }
}

/// An MSB-first number of `n` bits lies in `[0, 2^n)`.
pub proof fn lemma_msb_first_bound(s: Seq<bool>, from: int, to: int)
    requires
        from <= to,
    ensures
        0 <= msb_first(s, from, to) < pow2((to - from) as nat),
    decreases to - from,
{
    if to > from {
        lemma_msb_first_bound(s, from, to - 1);
        lemma_pow2_unfold((to - from) as nat);
    } else {
        lemma_pow2_pos(0);
        assert(pow2(0) == 1) by {
            lemma_pow2_unfold(1);
            vstd::arithmetic::power2::lemma2_to64();
        }
    }
}

/// An LSB-first number of `n` bits lies in `[0, 2^n)`.
pub proof fn lemma_lsb_first_bound(s: Seq<bool>, from: int, to: int)
    requires
        from <= to,
    ensures
        0 <= lsb_first(s, from, to) < pow2((to - from) as nat),
    decreases to - from,
{
    if to > from {
        lemma_lsb_first_bound(s, from + 1, to);
        lemma_pow2_unfold((to - from) as nat);
    } else {
        vstd::arithmetic::power2::lemma2_to64();
    }
}

/// Halving step shared by the bit-spelling proofs: the quotient by `2^k`
/// is twice the quotient by `2^(k+1)` plus bit `k`.
proof fn lemma_quotient_step(v: nat, k: nat)
    ensures
        (v as int / pow2(k) as int) == 2 * (v as int / pow2(k + 1) as int) + bit_value(bit_at(v as int, k)),
{
    let q = v as int / pow2(k) as int;
    lemma_pow2_pos(k);
    lemma_pow2_unfold(k + 1);
    assert(pow2(k + 1) == pow2(k) * 2);
    lemma_div_denominator(v as int, pow2(k) as int, 2);
    lemma_fundamental_div_mod(q, 2);
}

/// When `s[from..from+n]` holds bits `w-1, w-2, ...` of `v`, most significant
/// first, the first `n` of them spell `v / 2^(w-n)`.
pub proof fn lemma_msb_first_spells(s: Seq<bool>, from: int, v: nat, w: nat, n: nat)
    requires
        n <= w,
        v < pow2(w),
        forall|i: int| 0 <= i < n ==> #[trigger] s[from + i] == bit_at(v as int, (w - 1 - i) as nat),
    ensures
        msb_first(s, from, from + n) == v as int / pow2((w - n) as nat) as int,
    decreases n,
{
    if n == 0 {
        lemma_pow2_pos(w);
        vstd::arithmetic::div_mod::lemma_basic_div(v as int, pow2(w) as int);
    } else {
        lemma_msb_first_spells(s, from, v, w, (n - 1) as nat);
        assert(s[from + n - 1] == bit_at(v as int, (w - n) as nat));
        lemma_quotient_step(v, (w - n) as nat);
    }
}

/// When `s[from+k..from+n]` holds bits `k, k+1, ..., n-1` of `v < 2^n`, least
/// significant first, they spell `v / 2^k`.
pub proof fn lemma_lsb_first_spells(s: Seq<bool>, from: int, v: nat, n: nat, k: nat)
    requires
        k <= n,
        v < pow2(n),
        forall|i: int| 0 <= i < n ==> #[trigger] s[from + i] == bit_at(v as int, i as nat),
    ensures
        lsb_first(s, from + k, from + n) == v as int / pow2(k) as int,
    decreases n - k,
{
    if k == n {
        lemma_pow2_pos(n);
        vstd::arithmetic::div_mod::lemma_basic_div(v as int, pow2(n) as int);
    } else {
        lemma_lsb_first_spells(s, from, v, n, k + 1);
        assert(s[from + k] == bit_at(v as int, k));
        lemma_quotient_step(v, k);
    }
}

} // verus!
