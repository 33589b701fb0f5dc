//! Deterministic pseudo-random generator used by the reveal effects.
//!
//! A 32-bit linear-congruential generator: on every draw the state is mapped
//! through `state * 1664525 + 1013904223` (wrapping at `2^32`). The narrower
//! draws divide the fresh state by 23 and mask to 16 or 8 bits — a cheap
//! decorrelation step, not a uniform distribution. The generator is exactly
//! reproducible per seed.

use vstd::prelude::*;
use vstd::arithmetic::div_mod::lemma_add_mod_noop;

verus! {

/// The fixed seed every generator starts from.
pub const DEFAULT_SEED: u32 = 12345;

/// One step of the linear-congruential recurrence, wrapping at `2^32`.
pub open spec fn lcg_next(s: u32) -> u32 {
    ((s * 1664525 + 1013904223) % 0x1_0000_0000) as u32
}

/// The state after `n` steps from state `s`.
pub open spec fn lcg_iter(s: u32, n: nat) -> u32
    decreases n,
{
    if n == 0 {
        s
    } else {
        lcg_next(lcg_iter(s, (n - 1) as nat))
    }
}

/// The first `n` values that `get_u32` returns from state `s`
/// (the value returned by draw `i` is the state after `i + 1` steps).
pub open spec fn lcg_stream(s: u32, n: nat) -> Seq<u32> {
    Seq::new(n, |i: int| lcg_iter(s, (i + 1) as nat))
}

/// The value `get_u16` returns when drawn from state `s`:
/// the fresh state divided by 23, kept to its low 16 bits.
pub open spec fn lcg_u16(s: u32) -> u16 {
    (lcg_next(s) / 23) as u16
}

/// The value `get_u8` returns when drawn from state `s`:
/// the fresh state divided by 23, kept to its low 8 bits.
pub open spec fn lcg_u8(s: u32) -> u8 {
    (lcg_next(s) / 23) as u8
}

/// Pseudo-random generator state: a single 32-bit value, mutated on every draw.
pub struct Random(pub u32);

impl Random {
    /// A generator seeded with the fixed default seed.
    pub fn new() -> (r: Random)
        ensures
            r.0 == DEFAULT_SEED,
    {
        Random(DEFAULT_SEED)
    }

    /// Advances the state by one step of the recurrence and returns it.
    pub fn get_u32(&mut self) -> (r: u32)
        ensures
            final(self).0 == lcg_next(old(self).0),
            r == lcg_next(old(self).0),
    {
        proof {
            lemma_add_mod_noop(
                old(self).0 * 1664525,
                1013904223,
                0x1_0000_0000,
            );
            assert(1013904223int % 0x1_0000_0000 == 1013904223int);
        }
        self.0 = self.0.wrapping_mul(1664525).wrapping_add(1013904223);
        self.0
    }

    /// A 16-bit draw: one step of the recurrence, divided by 23 and masked.
    pub fn get_u16(&mut self) -> (r: u16)
        ensures
            final(self).0 == lcg_next(old(self).0),
            r == lcg_u16(old(self).0),
    {
        (self.get_u32() / 23) as u16
    }

    /// An 8-bit draw: one step of the recurrence, divided by 23 and masked.
    pub fn get_u8(&mut self) -> (r: u8)
        ensures
            final(self).0 == lcg_next(old(self).0),
            r == lcg_u8(old(self).0),
    {
        (self.get_u32() / 23) as u8
    }
}

/// Iterating `a + b` steps is iterating `a` steps, then `b` more.
pub proof fn lemma_lcg_iter_add(s: u32, a: nat, b: nat)
    ensures
        lcg_iter(s, a + b) == lcg_iter(lcg_iter(s, a), b),
    decreases b,
{
    if b > 0 {
        lemma_lcg_iter_add(s, a, (b - 1) as nat);
        assert(lcg_iter(s, a + b) == lcg_next(lcg_iter(s, (a + b - 1) as nat)));
    }
}

/// Law: the stream of `get_u32` values is a pure function of the seed —
/// two generators with the same seed produce identical sequences of any
/// length, and each value is `state * 1664525 + 1013904223 mod 2^32`
/// applied to the state before the draw.
pub proof fn lemma_same_seed_same_stream(s1: u32, s2: u32, n: nat)
    requires
        s1 == s2,
    ensures
        lcg_stream(s1, n) =~= lcg_stream(s2, n),
        forall|i: int|
            0 < i < n ==> #[trigger] lcg_stream(s1, n)[i] == lcg_next(lcg_stream(s1, n)[i - 1]),
        n > 0 ==> lcg_stream(s1, n)[0] == lcg_next(s1),
{
    assert(lcg_iter(s1, 0) == s1);
    assert(lcg_iter(s1, 1) == lcg_next(s1));
}

} // verus!
