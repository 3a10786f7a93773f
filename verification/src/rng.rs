//! A tiny, portable, seeded PRNG (SplitMix64): the shared deterministic RNG of the offline tools. It
//! is reproducible per index and depends on no ambient entropy.

use vstd::arithmetic::div_mod::{lemma_fundamental_div_mod, lemma_mod_bound};
use vstd::prelude::*;

verus! {

/// Increment of the state per draw.
pub const GOLDEN: u64 = 0x9E37_79B9_7F4A_7C15;

/// Distance between the first states of neighbouring indices.
pub const SEED_STRIDE: u64 = 0x1_0000_0000;

/// SplitMix64. `seeded(index)` gives an independent, reproducible stream per `index`: the streams of
/// two indices have no value in common at places less than 2^32 apart.
#[derive(Debug)]
pub struct Rng(u64);

/// First state of the stream of an index.
pub open spec fn seed_state(index: u32) -> u64 {
    GOLDEN.wrapping_add((index * SEED_STRIDE) as u64)
}

/// The state after one draw.
pub open spec fn next_state(state: u64) -> u64 {
    state.wrapping_add(GOLDEN)
}

/// The SplitMix64 output function.
pub open spec fn mix(state: u64) -> u64 {
    let a = (state ^ (state >> 30)).wrapping_mul(0xBF58_476D_1CE4_E5B9);
    let b = (a ^ (a >> 27)).wrapping_mul(0x94D0_49BB_1331_11EB);
    b ^ (b >> 31)
}

/// The state after `n` draws.
pub open spec fn state_after(state: u64, n: nat) -> u64
    decreases n,
{
    if n == 0 {
        state
    } else {
        next_state(state_after(state, (n - 1) as nat))
    }
}

/// The value of draw `n` (from 0) of the stream that starts at `state`.
pub open spec fn draw(state: u64, n: nat) -> u64 {
    mix(state_after(state, n + 1))
}

/// A drawn value brought into the inclusive range `[lo, hi]`.
pub open spec fn scaled(value: u64, lo: u32, hi: u32) -> u32 {
    (lo + value % ((hi - lo + 1) as u64)) as u32
}

impl Rng {
    /// The generator's state.
    pub closed spec fn state(self) -> u64 {
        self.0
    }

    /// A stream seeded from `index` (per-index reproducible; index `n` and `n + 1` are independent).
    pub fn seeded(index: u32) -> (rng: Rng)
        ensures
            rng.state() == seed_state(index),
    {
        assert(index * SEED_STRIDE <= 0xFFFF_FFFF * 0x1_0000_0000);
        Rng(GOLDEN.wrapping_add(index as u64 * SEED_STRIDE))
    }

    /// The next 64-bit value (SplitMix64 step).
    pub fn next_u64(&mut self) -> (value: u64)
        ensures
            final(self).state() == next_state(old(self).state()),
            value == mix(next_state(old(self).state())),
    {
        self.0 = self.0.wrapping_add(GOLDEN);
        let mut z: u64 = self.0;
        z = (z ^ (z >> 30)).wrapping_mul(0xBF58_476D_1CE4_E5B9);
        z = (z ^ (z >> 27)).wrapping_mul(0x94D0_49BB_1331_11EB);
        z ^ (z >> 31)
    }

    /// A value in the inclusive range `[lo, hi]`.
    pub fn range(&mut self, lo: u32, hi: u32) -> (value: u32)
        requires
            lo <= hi,
            hi - lo < u32::MAX,
        ensures
            final(self).state() == next_state(old(self).state()),
            value == scaled(mix(next_state(old(self).state())), lo, hi),
            lo <= value <= hi,
    {
        let width: u64 = (hi - lo + 1) as u64;
        let drawn: u64 = self.next_u64();
        assert(0 <= drawn % width < width) by (nonlinear_arith)
            requires
                width > 0,
        ;
        lo + (drawn % width) as u32
    }

    /// True with probability `pct`%.
    pub fn chance(&mut self, pct: u32) -> (hit: bool)
        ensures
            final(self).state() == next_state(old(self).state()),
            hit == (mix(next_state(old(self).state())) % 100 < pct),
    {
        self.range(0, 99) < pct
    }

    /// One element of `xs`.
    pub fn pick(&mut self, xs: &[u32]) -> (x: u32)
        requires
            xs.len() > 0,
        ensures
            final(self).state() == next_state(old(self).state()),
            x == xs[mix(next_state(old(self).state())) as int % xs.len() as int],
    {
        let drawn: u64 = self.next_u64();
        let len: u64 = xs.len() as u64;
        assert(0 <= drawn % len < len) by (nonlinear_arith)
            requires
                len > 0,
        ;
        xs[(drawn % len) as usize]
    }
}

/// Multiplying by a number that has an inverse modulo 2^64 loses nothing.
proof fn lemma_mul_injective(c: u64, inverse: int, k: int, a: u64, b: u64)
    requires
        c * inverse == 1 + k * 0x1_0000_0000_0000_0000,
        c.wrapping_mul(a) == c.wrapping_mul(b),
    ensures
        a == b,
{
    let m: int = 0x1_0000_0000_0000_0000;
    let (qa, qb) = (c as int * a as int / m, c as int * b as int / m);
    let r = c as int * a as int % m;
    assert(c as int * b as int % m == r);
    assert(c as int * a as int == qa * m + r);
    assert(c as int * b as int == qb * m + r);
    let (x, y, f) = (a as int, b as int, c as int);
    let t = inverse * (qa - qb) - k * (x - y);
    assert(x - y == t * m) by (nonlinear_arith)
        requires
            f * inverse == 1 + k * m,
            f * x == qa * m + r,
            f * y == qb * m + r,
            t == inverse * (qa - qb) - k * (x - y),
    {
        assert(f * (x - y) == (qa - qb) * m);
        assert(inverse * (f * (x - y)) == (f * inverse) * (x - y));
        assert(inverse * ((qa - qb) * m) == (inverse * (qa - qb)) * m);
        assert((1 + k * m) * (x - y) == (x - y) + (k * (x - y)) * m);
    }
    assert(t == 0) by (nonlinear_arith)
        requires
            x - y == t * m,
            m == 0x1_0000_0000_0000_0000,
            -m < x - y < m,
    ;
}

/// Different states give different values.
proof fn lemma_mix_injective(a: u64, b: u64)
    requires
        mix(a) == mix(b),
    ensures
        a == b,
{
    let a1 = (a ^ (a >> 30)).wrapping_mul(0xBF58_476D_1CE4_E5B9);
    let b1 = (b ^ (b >> 30)).wrapping_mul(0xBF58_476D_1CE4_E5B9);
    let a2 = (a1 ^ (a1 >> 27)).wrapping_mul(0x94D0_49BB_1331_11EB);
    let b2 = (b1 ^ (b1 >> 27)).wrapping_mul(0x94D0_49BB_1331_11EB);
    assert(a2 == b2) by (bit_vector)
        requires
            a2 ^ (a2 >> 31) == b2 ^ (b2 >> 31),
    ;
    let (a1x, b1x) = (a1 ^ (a1 >> 27), b1 ^ (b1 >> 27));
    lemma_mul_injective(
        0x94D0_49BB_1331_11EB,
        0x3196_42B2_D24D_8EC3,
        2077064247507883091,
        a1x,
        b1x,
    );
    assert(a1 == b1) by (bit_vector)
        requires
            a1 ^ (a1 >> 27) == b1 ^ (b1 >> 27),
    ;
    lemma_mul_injective(
        0xBF58_476D_1CE4_E5B9,
        0x96DE_1B17_3F11_9089,
        8125545580553827436,
        a ^ (a >> 30),
        b ^ (b >> 30),
    );
    assert(a == b) by (bit_vector)
        requires
            a ^ (a >> 30) == b ^ (b >> 30),
    ;
}

/// The state after `n` draws lies `n` increments on, modulo 2^64.
proof fn lemma_state_after(state: u64, n: nat) -> (wraps: int)
    ensures
        state + n * GOLDEN == state_after(state, n) + wraps * 0x1_0000_0000_0000_0000,
    decreases n,
{
    if n == 0 {
        0
    } else {
        let before = lemma_state_after(state, (n - 1) as nat);
        let last = state_after(state, (n - 1) as nat);
        assert(n * GOLDEN == (n - 1) * GOLDEN + GOLDEN) by (nonlinear_arith);
        let wraps = if last + GOLDEN >= 0x1_0000_0000_0000_0000 {
            before + 1
        } else {
            before
        };
        assert(last + GOLDEN == state_after(state, n) + (wraps - before)
            * 0x1_0000_0000_0000_0000);
        wraps
    }
}

/// Streams of different indices have no value in common at places less than 2^32 apart: neither is a
/// tail of the other within that distance.
pub proof fn lemma_streams_apart(i: u32, j: u32, k: nat, l: nat)
    requires
        i != j,
        k - l < 0x1_0000_0000,
        l - k < 0x1_0000_0000,
    ensures
        draw(seed_state(i), k) != draw(seed_state(j), l),
{
    let m: int = 0x1_0000_0000_0000_0000;
    let h: int = 0x1_0000_0000;
    let g: int = GOLDEN as int;
    let (a, b) = (seed_state(i), seed_state(j));
    if draw(a, k) == draw(b, l) {
        lemma_mix_injective(state_after(a, k + 1), state_after(b, l + 1));
        let wa = lemma_state_after(a, k + 1);
        let wb = lemma_state_after(b, l + 1);
        // The first states, up to a multiple of 2^64.
        let sa: int = if g + i * h >= m {
            1
        } else {
            0
        };
        let sb: int = if g + j * h >= m {
            1
        } else {
            0
        };
        assert(a + sa * m == g + i * h);
        assert(b + sb * m == g + j * h);
        let d = k - l;
        let e = j - i;
        let w = (wa + sa) - (wb + sb);
        assert(d * g == e * h + w * m) by {
            assert((k + 1) * g - (l + 1) * g == d * g) by (nonlinear_arith)
                requires
                    d == k - l,
            ;
        }
        // GOLDEN is odd, so 2^32 divides the distance of the places, which is therefore 0.
        let u = 0x9937_733Dint;
        let t = u * (e + w * h) - d * 6823354635388203659;
        assert(d == t * h) by (nonlinear_arith)
            requires
                d * g == e * h + w * m,
                m == h * h,
                h == 0x1_0000_0000,
                g == 0x9E37_79B9_7F4A_7C15,
                u == 0x9937_733D,
                t == u * (e + w * h) - d * 6823354635388203659,
                g * u == 1 + h * 6823354635388203659,
        {
            assert(d * (g * u) == (e * h + w * m) * u);
            assert((e * h + w * m) * u == (u * (e + w * h)) * h);
        }
        assert(d == 0);
        assert(e == -w * h);
        assert(w == 0);
    }
}

/// The stream of an index is not that of the index before it without its first value.
pub proof fn lemma_neighbours_apart(n: u32, k: nat)
    requires
        n < u32::MAX,
    ensures
        draw(seed_state(n), k + 1) != draw(seed_state((n + 1) as u32), k),
{
    lemma_streams_apart(n, (n + 1) as u32, k + 1, k);
}

/// A stream goes on where it was left: the draws after the first `n` are those of the state reached.
pub proof fn lemma_stream_resumes(state: u64, n: nat, k: nat)
    ensures
        draw(state, n + k) == draw(state_after(state, n), k),
{
    lemma_state_splits(state, n, k + 1);
}

proof fn lemma_state_splits(state: u64, n: nat, k: nat)
    ensures
        state_after(state, n + k) == state_after(state_after(state, n), k),
    decreases k,
{
    if k > 0 {
        lemma_state_splits(state, n, (k - 1) as nat);
        assert(n + k - 1 == n + (k - 1));
    }
}

/// A drawn value comes into a range by its remainder: it lies in the range, as far from the lower end
/// as the value is from a multiple of the range's width.
pub proof fn lemma_scaled_by_remainder(value: u64, lo: u32, hi: u32) -> (times: int)
    requires
        lo <= hi,
        hi - lo < u32::MAX,
    ensures
        lo <= scaled(value, lo, hi) <= hi,
        value == times * (hi - lo + 1) + (scaled(value, lo, hi) - lo),
{
    let width = hi - lo + 1;
    lemma_fundamental_div_mod(value as int, width);
    lemma_mod_bound(value as int, width);
    assert(width * (value as int / width) == (value as int / width) * width) by (nonlinear_arith);
    value as int / width
}

} // verus!
