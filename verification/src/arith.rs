//! Wrapping arithmetic on `u64` values and saturating counters.
//!
//! Binding expressions combine property values with modular (wrapping)
//! arithmetic, so that evaluation is total: no input can make a binding
//! panic. The spec functions below are the mathematical meaning used
//! throughout the crate's contracts.

use vstd::prelude::*;

verus! {

/// One past the largest `u64` value; the modulus of wrapping arithmetic.
pub open spec fn modulus() -> int {
    0x1_0000_0000_0000_0000
}

/// The sum of `a` and `b`, reduced modulo 2^64.
pub open spec fn wadd(a: u64, b: u64) -> u64 {
    ((a + b) % modulus()) as u64
}

/// The difference `a - b`, reduced modulo 2^64.
pub open spec fn wsub(a: u64, b: u64) -> u64 {
    ((a + modulus() - b) % modulus()) as u64
}

/// The product of `a` and `b`, reduced modulo 2^64.
pub open spec fn wmul(a: u64, b: u64) -> u64 {
    ((a * b) % modulus()) as u64
}

/// `c + 1`, except that the counter sticks at `u64::MAX` instead of wrapping.
pub open spec fn sat_inc(c: u64) -> u64 {
    if c == u64::MAX { u64::MAX } else { (c + 1) as u64 }
}

/// `c` increased `n` times with `sat_inc`.
pub open spec fn sat_add(c: u64, n: nat) -> u64
    decreases n,
{
    if n == 0 { c } else { sat_inc(sat_add(c, (n - 1) as nat)) }
}

/// Saturating increments compose: incrementing `m` times after `n` times is
/// the same as incrementing `n + m` times.
pub proof fn lemma_sat_add_assoc(c: u64, n: nat, m: nat)
    ensures
        sat_add(sat_add(c, n), m) == sat_add(c, n + m),
    decreases m,
{
    if m > 0 {
        lemma_sat_add_assoc(c, n, (m - 1) as nat);
    }
}

/// Wrapping addition, executable.
pub fn add_wrapping(a: u64, b: u64) -> (r: u64)
    ensures
        r == wadd(a, b),
{
    let s: u128 = a as u128 + b as u128;
    (s % 0x1_0000_0000_0000_0000u128) as u64
}

/// Wrapping subtraction, executable.
pub fn sub_wrapping(a: u64, b: u64) -> (r: u64)
    ensures
        r == wsub(a, b),
{
    let s: u128 = a as u128 + 0x1_0000_0000_0000_0000u128 - b as u128;
    (s % 0x1_0000_0000_0000_0000u128) as u64
}

/// Wrapping multiplication, executable.
pub fn mul_wrapping(a: u64, b: u64) -> (r: u64)
    ensures
        r == wmul(a, b),
{
    proof {
        assert((a as int) * (b as int) <= 0xffff_ffff_ffff_ffffu64 * 0xffff_ffff_ffff_ffffu64)
            by (nonlinear_arith)
            requires
                a <= 0xffff_ffff_ffff_ffffu64,
                b <= 0xffff_ffff_ffff_ffffu64,
        ;
    }
    let s: u128 = a as u128 * b as u128;
    (s % 0x1_0000_0000_0000_0000u128) as u64
}

/// Saturating increment, executable.
pub fn inc_saturating(c: u64) -> (r: u64)
    ensures
        r == sat_inc(c),
{
    if c == u64::MAX { u64::MAX } else { c + 1 }
}

} // verus!
