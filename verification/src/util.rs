//! A small reproducible source of numbers.

use vstd::prelude::*;

verus! {

/// What the state advances by at each draw.
pub const GAMMA: u64 = 0x9E37_79B9_7F4A_7C15;

/// The first scrambling factor.
pub const FIRST_FACTOR: u64 = 0xBF58_476D_1CE4_E5B9;

/// The second scrambling factor.
pub const SECOND_FACTOR: u64 = 0x94D0_49BB_1331_11EB;

/// The scrambled state, which is what a draw returns.
pub open spec fn scrambled(state: u64) -> u64 {
    let first = (state ^ (state >> 30)).wrapping_mul(FIRST_FACTOR);
    let second = (first ^ (first >> 27)).wrapping_mul(SECOND_FACTOR);
    second ^ (second >> 31)
}

/// The state after `n` draws.
pub open spec fn state_after(seed: u64, n: nat) -> u64
    decreases n,
{
    if n == 0 {
        seed
    } else {
        state_after(seed, (n - 1) as nat).wrapping_add(GAMMA)
    }
}

/// Draw number `n` of a generator seeded with `seed`, counted from 1.
pub open spec fn draw(seed: u64, n: nat) -> u64 {
    scrambled(state_after(seed, n))
}

/// A small deterministic SplitMix64 generator. It seeds the noise of the channel
/// simulation, so a given seed always reproduces the same run.
#[derive(Debug, Clone)]
pub struct Rng {
    state: u64,
}

impl Rng {
    pub closed spec fn state(self) -> u64 {
        self.state
    }

    /// Creates a generator seeded with `seed`.
    pub fn new(seed: u64) -> (rng: Rng)
        ensures
            rng.state() == seed,
    {
        Rng { state: seed }
    }

    /// The next 64 bits.
    pub fn next_u64(&mut self) -> (value: u64)
        ensures
            final(self).state() == state_after(old(self).state(), 1),
            value == draw(old(self).state(), 1),
            ({
                let z = old(self).state().wrapping_add(0x9E37_79B9_7F4A_7C15u64);
                let y = (z ^ (z >> 30)).wrapping_mul(0xBF58_476D_1CE4_E5B9u64);
                let x = (y ^ (y >> 27)).wrapping_mul(0x94D0_49BB_1331_11EBu64);
                value == x ^ (x >> 31) && final(self).state() == z
            }),
    {
        proof {
            reveal_with_fuel(state_after, 2);
        }
        self.state = self.state.wrapping_add(GAMMA);
        let z: u64 = self.state;
        let first: u64 = (z ^ (z >> 30)).wrapping_mul(FIRST_FACTOR);
        let second: u64 = (first ^ (first >> 27)).wrapping_mul(SECOND_FACTOR);
        second ^ (second >> 31)
    }

    /// A number below `n`.
    pub fn next_u64_below(&mut self, n: usize) -> (value: usize)
        requires
            n > 0,
        ensures
            final(self).state() == state_after(old(self).state(), 1),
            value == draw(old(self).state(), 1) as int % n as int,
    {
        let bits: u64 = self.next_u64();
        (bits % n as u64) as usize
    }

    /// The upper 53 bits of a draw, as many as a fraction in double precision
    /// holds.
    pub fn next_u53(&mut self) -> (value: u64)
        ensures
            final(self).state() == state_after(old(self).state(), 1),
            value == draw(old(self).state(), 1) / 2048,
    {
        let bits: u64 = self.next_u64();
        assert(bits >> 11 == bits / 2048) by (bit_vector);
        bits >> 11
    }

    /// The upper byte of a draw.
    pub fn next_u8(&mut self) -> (value: u8)
        ensures
            final(self).state() == state_after(old(self).state(), 1),
            value == draw(old(self).state(), 1) / 0x100_0000_0000_0000,
    {
        let bits: u64 = self.next_u64();
        assert(bits >> 56 == bits / 0x100_0000_0000_0000 && bits >> 56 < 256) by (bit_vector);
        (bits >> 56) as u8
    }

    /// Fills a message with random bytes.
    pub fn fill(&mut self, out: &mut [u8])
        ensures
            final(self).state() == state_after(old(self).state(), old(out)@.len()),
            final(out)@ == Seq::new(
                old(out)@.len(),
                |i: int| (draw(old(self).state(), (i + 1) as nat) / 0x100_0000_0000_0000) as u8,
            ),
    {
        let ghost seed = self.state;
        let mut i: usize = 0;
        while i < out.len()
            invariant
                i <= out@.len(),
                out@.len() == old(out)@.len(),
                seed == old(self).state(),
                self.state() == state_after(seed, i as nat),
                forall|k: int|
                    0 <= k < i ==> #[trigger] out@[k] == (draw(seed, (k + 1) as nat)
                        / 0x100_0000_0000_0000) as u8,
            decreases out@.len() - i,
        {
            proof {
                lemma_draws(seed, i as nat, 1);
            }
            out[i] = self.next_u8();
            i = i + 1;
        }
        assert(out@ =~= Seq::new(
            old(out)@.len(),
            |i: int| (draw(old(self).state(), (i + 1) as nat) / 0x100_0000_0000_0000) as u8,
        ));
    }
}

/// Draws continue one another: after `n` draws, the next ones are those that
/// follow in the sequence of the seed. So a seed fixes the whole run.
pub proof fn lemma_draws(seed: u64, n: nat, more: nat)
    ensures
        state_after(state_after(seed, n), more) == state_after(seed, n + more),
        draw(state_after(seed, n), more) == draw(seed, n + more),
    decreases more,
{
    if more > 0 {
        lemma_draws(seed, n, (more - 1) as nat);
        assert(((n + more) - 1) as nat == n + (more - 1) as nat);
    }
}

/// Multiplying by an odd factor, of which `inverse` is the inverse modulo 2^64, loses
/// nothing.
proof fn lemma_factor_loses_nothing(a: u64, b: u64, factor: u64, inverse: int, times: int)
    requires
        factor * inverse == 1 + times * 0x1_0000_0000_0000_0000,
        a.wrapping_mul(factor) == b.wrapping_mul(factor),
    ensures
        a == b,
{
    let m = 0x1_0000_0000_0000_0000int;
    let (x, y) = (a * factor, b * factor);
    vstd::arithmetic::div_mod::lemma_fundamental_div_mod(x, m);
    vstd::arithmetic::div_mod::lemma_fundamental_div_mod(y, m);
    let (p, q) = (x / m, y / m);
    let d = a - b;
    let c = (p - q) * inverse - d * times;
    assert(x % m == y % m);
    let (f, e, r) = (factor as int, inverse, p - q);
    assert(d * f == m * r) by (nonlinear_arith)
        requires
            x == a * f,
            y == b * f,
            x - y == m * p - m * q,
            d == a - b,
            r == p - q,
    ;
    assert(d * (f * e) == (d * f) * e) by (nonlinear_arith);
    assert((m * r) * e == m * (r * e)) by (nonlinear_arith);
    assert(d * (1 + times * m) == d + m * (d * times)) by (nonlinear_arith);
    assert(m * (r * e) - m * (d * times) == m * c) by (nonlinear_arith)
        requires
            c == r * e - d * times,
    ;
    assert(d == 0) by (nonlinear_arith)
        requires
            d == m * c,
            -m < d < m,
            m > 0,
    ;
}

proof fn lemma_mix_loses_nothing(a: u64, b: u64)
    ensures
        a ^ (a >> 30) == b ^ (b >> 30) ==> a == b,
        a ^ (a >> 27) == b ^ (b >> 27) ==> a == b,
        a ^ (a >> 31) == b ^ (b >> 31) ==> a == b,
{
    assert((a ^ (a >> 30) == b ^ (b >> 30) ==> a == b) && (a ^ (a >> 27) == b ^ (b >> 27) ==> a == b)
        && (a ^ (a >> 31) == b ^ (b >> 31) ==> a == b)) by (bit_vector);
}

/// Generators in different states draw different values and go on to different states.
pub proof fn lemma_draws_differ(a: u64, b: u64)
    requires
        a != b,
    ensures
        draw(a, 1) != draw(b, 1),
        state_after(a, 1) != state_after(b, 1),
{
    reveal_with_fuel(state_after, 2);
    let (z, y) = (state_after(a, 1), state_after(b, 1));
    assert(z != y);
    let (z1, y1) = (z ^ (z >> 30), y ^ (y >> 30));
    let (z2, y2) = (z1.wrapping_mul(FIRST_FACTOR), y1.wrapping_mul(FIRST_FACTOR));
    let (z3, y3) = (z2 ^ (z2 >> 27), y2 ^ (y2 >> 27));
    let (z4, y4) = (z3.wrapping_mul(SECOND_FACTOR), y3.wrapping_mul(SECOND_FACTOR));
    if draw(a, 1) == draw(b, 1) {
        lemma_mix_loses_nothing(z4, y4);
        lemma_factor_loses_nothing(
            z3,
            y3,
            SECOND_FACTOR,
            0x3196_42B2_D24D_8EC3,
            2077064247507883091,
        );
        lemma_mix_loses_nothing(z2, y2);
        lemma_factor_loses_nothing(
            z1,
            y1,
            FIRST_FACTOR,
            0x96DE_1B17_3F11_9089,
            8125545580553827436,
        );
        lemma_mix_loses_nothing(z, y);
    }
}

} // verus!
