//! Small functions shared by the encoder and the decoders.

use super::recovery::total;
use super::trellis::{dot, lemma_output_bit, lemma_output_bound, nat_bit, output_upto};
use vstd::arithmetic::power2::{
    lemma2_to64, lemma_pow2_pos, lemma_pow2_strictly_increases, lemma_pow2_unfold, pow2,
};
use vstd::bits::{lemma_u16_shl_is_mul, lemma_u32_shl_is_mul};
use vstd::prelude::*;

verus! {

/// The number of set bits.
pub open spec fn ones(x: nat) -> nat
    decreases x,
{
    if x == 0 {
        0
    } else {
        x % 2 + ones(x / 2)
    }
}

/// The number of the low `n` bits in which `x` and `y` differ.
pub open spec fn differing_bits(x: nat, y: nat, n: nat) -> nat
    decreases n,
{
    if n == 0 {
        0
    } else {
        (if x % 2 != y % 2 {
            1nat
        } else {
            0nat
        }) + differing_bits(x / 2, y / 2, (n - 1) as nat)
    }
}

/// The least power of two needed for an exponent of up to 16.
pub proof fn lemma_pow2_16(n: nat)
    requires
        n <= 16,
    ensures
        1 <= pow2(n) <= 65536,
{
    lemma2_to64();
    lemma_pow2_pos(n);
    if n < 16 {
        lemma_pow2_strictly_increases(n, 16);
    }
}

/// The number of values of an `order`-bit register.
pub fn num_states_for_order(order: u32) -> (states: u32)
    requires
        order <= 31,
    ensures
        states == pow2(order as nat),
{
    proof {
        lemma2_to64();
        if order < 31 {
            lemma_pow2_strictly_increases(order as nat, 31);
        }
        lemma_u32_shl_is_mul(1, order);
    }
    1 << order
}

proof fn lemma_xor_halves(x: u32, y: u32)
    ensures
        (x ^ y) / 2 == (x / 2) ^ (y / 2),
        (x ^ y) % 2 == if x % 2 != y % 2 {
            1u32
        } else {
            0u32
        },
        0u32 ^ 0u32 == 0u32,
{
    assert(0u32 ^ 0u32 == 0u32 && (x ^ y) / 2 == (x / 2) ^ (y / 2) && (x ^ y) % 2 == (if x % 2 != y % 2 {
        1u32
    } else {
        0u32
    })) by (bit_vector);
}

/// Exclusive-or has a bit set exactly where its arguments differ.
pub proof fn lemma_ones_xor(x: u32, y: u32, n: nat)
    requires
        x < pow2(n),
        y < pow2(n),
    ensures
        ones((x ^ y) as nat) == differing_bits(x as nat, y as nat, n),
    decreases n,
{
    lemma_xor_halves(x, y);
    if n == 0 {
        lemma2_to64();
        assert(x == 0 && y == 0);
    } else {
        lemma_pow2_unfold(n);
        lemma_ones_xor(x / 2, y / 2, (n - 1) as nat);
    }
}

/// The set bits of `x` are those that shifting brings to the lowest place.
pub proof fn lemma_ones_total(x: u32, n: nat)
    requires
        x < pow2(n),
        n <= 32,
    ensures
        ones(x as nat) == total(|i: int| ((x >> (i as u32)) & 1u32) as nat, n),
    decreases n,
{
    let f = |i: int| ((x >> (i as u32)) & 1u32) as nat;
    if n == 0 {
        lemma2_to64();
    } else {
        let half = x / 2;
        let g = |i: int| ((half >> (i as u32)) & 1u32) as nat;
        let m = (n - 1) as nat;
        lemma_pow2_unfold(n);
        lemma_ones_total(half, m);
        assert forall|i: int| 0 <= i < m implies #[trigger] g(i) == f(i + 1) by {
            lemma_halved(x, i as u32);
        }
        lemma_total_first(f, g, m);
        lemma_halved(x, 0);
        assert(f(0) == x % 2);
        assert(ones(x as nat) == x as nat % 2 + ones(x as nat / 2));
    }
}

proof fn lemma_halved(x: u32, k: u32)
    requires
        k < 31,
    ensures
        (x / 2) >> k == x >> ((k + 1) as u32),
        (x >> 0u32) & 1u32 == x % 2,
{
    assert((x / 2) >> k == x >> ((k + 1) as u32) && (x >> 0u32) & 1u32 == x % 2) by (bit_vector)
        requires
            k < 31,
    ;
}

/// A sum may be split off its first term.
proof fn lemma_total_first(f: spec_fn(int) -> nat, g: spec_fn(int) -> nat, n: nat)
    requires
        forall|i: int| 0 <= i < n ==> #[trigger] g(i) == f(i + 1),
    ensures
        total(f, n + 1) == f(0) + total(g, n),
    decreases n,
{
    reveal_with_fuel(total, 2);
    if n > 0 {
        lemma_total_first(f, g, (n - 1) as nat);
        assert(g(n - 1) == f(n as int));
    }
}

/// The number of set bits of `x`.
pub fn count_ones(x: u32) -> (n: u32)
    ensures
        n == ones(x as nat),
        n == total(|i: int| ((x >> (i as u32)) & 1u32) as nat, 32),
        n <= 32,
{
    proof {
        lemma2_to64();
        lemma_ones_total(x, 32);
    }
    let mut rest: u32 = x;
    let mut n: u32 = 0;
    let ghost mut left: nat = 32;
    proof {
        lemma2_to64();
    }
    while rest != 0
        invariant
            n + ones(rest as nat) == ones(x as nat),
            n + left <= 32,
            rest < pow2(left),
        decreases rest,
    {
        proof {
            lemma2_to64();
            if left == 0 {
                assert(rest == 0);
            }
            lemma_pow2_unfold(left);
            left = (left - 1) as nat;
        }
        n = n + rest % 2;
        rest = rest / 2;
    }
    n
}

/// The Hamming distance between two outputs.
pub fn metric_distance(x: u32, y: u32) -> (d: u32)
    ensures
        d == ones((x ^ y) as nat),
        d == total(|i: int| (((x ^ y) >> (i as u32)) & 1u32) as nat, 32),
        d <= 32,
{
    count_ones(x ^ y)
}

proof fn lemma_and_halves(x: u16, y: u16)
    ensures
        (x & y) / 2 == (x / 2) & (y / 2),
        (x & y) % 2 == (x % 2) * (y % 2),
        x & 0 == 0,
{
    assert((x & y) / 2 == (x / 2) & (y / 2) && (x & y) % 2 == (x % 2) * (y % 2) && x & 0 == 0)
        by (bit_vector);
}

/// Masking with a polynomial and counting is what tapping the register means.
pub proof fn lemma_dot(x: u16, p: u16)
    ensures
        (ones((x & p) as nat) % 2 == 1) == dot(x as nat, p as nat),
    decreases p,
{
    lemma_and_halves(x, p);
    if p != 0 {
        lemma_dot(x / 2, p / 2);
        let (a, b) = (x % 2, p % 2);
        assert(a * b == 1 <==> a == 1 && b == 1) by (nonlinear_arith)
            requires
                0 <= a <= 1,
                0 <= b <= 1,
        ;
        assert(0 <= a * b <= 1) by (nonlinear_arith)
            requires
                0 <= a <= 1,
                0 <= b <= 1,
        ;
        let z = (x & p) as nat;
        assert(ones(z) == z % 2 + ones(z / 2));
    }
}

/// Setting a bit above all the others adds its value.
proof fn lemma_set_bit(c: u16, j: u16)
    requires
        j < 16,
        c < 1u16 << j,
    ensures
        c | (1u16 << j) == c + (1u16 << j),
{
    assert(c | (1u16 << j) == c + (1u16 << j)) by (bit_vector)
        requires
            j < 16,
            c < 1u16 << j,
    ;
}

/// Setting a bit above all the others changes what a polynomial taps by what it
/// taps of that bit.
proof fn lemma_dot_top(i: nat, b: nat, p: nat)
    requires
        i < pow2(b),
    ensures
        dot(i + pow2(b), p) == (dot(i, p) != dot(pow2(b), p)),
    decreases b,
{
    lemma2_to64();
    if p == 0 {
    } else if b == 0 {
        lemma_dot_zero(p);
    } else {
        lemma_pow2_unfold(b);
        let h = pow2((b - 1) as nat);
        lemma_dot_top(i / 2, (b - 1) as nat, p / 2);
        assert((i + pow2(b)) / 2 == i / 2 + h && (i + pow2(b)) % 2 == i % 2);
        assert(pow2(b) / 2 == h && pow2(b) % 2 == 0);
    }
}

pub proof fn lemma_dot_zero(p: nat)
    ensures
        !dot(0, p),
    decreases p,
{
    if p != 0 {
        lemma_dot_zero(p / 2);
    }
}

/// Setting a bit above two numbers sets it in their exclusive-or where only one has
/// it.
pub proof fn lemma_xor_top(a: u16, b: u16, m: u16)
    requires
        m < 16,
        a < 1u16 << m,
        b < 1u16 << m,
    ensures
        a ^ b < 1u16 << m,
        (a + (1u16 << m)) as u16 ^ b == (a ^ b) + (1u16 << m),
        a ^ (b + (1u16 << m)) as u16 == (a ^ b) + (1u16 << m),
        (a + (1u16 << m)) as u16 ^ (b + (1u16 << m)) as u16 == a ^ b,
{
    assert(a ^ b < 1u16 << m && (a + (1u16 << m)) as u16 ^ b == (a ^ b) + (1u16 << m) && a ^ (b + (
    1u16 << m)) as u16 == (a ^ b) + (1u16 << m) && (a + (1u16 << m)) as u16 ^ (b + (1u16
        << m)) as u16 == a ^ b) by (bit_vector)
        requires
            m < 16,
            a < 1u16 << m,
            b < 1u16 << m,
    ;
}

/// The output with one more bit set is that without it, changed by the output of
/// that bit alone.
proof fn lemma_output_top(polys: Seq<u16>, i: nat, b: nat, n: nat)
    requires
        n <= 16,
        i < pow2(b),
    ensures
        output_upto(polys, i + pow2(b), n) < pow2(n) <= 65536,
        output_upto(polys, i, n) < pow2(n),
        output_upto(polys, pow2(b), n) < pow2(n),
        output_upto(polys, i + pow2(b), n) == (output_upto(polys, i, n) as u16) ^ (output_upto(
            polys,
            pow2(b),
            n,
        ) as u16),
    decreases n,
{
    lemma2_to64();
    lemma_pow2_16(n);
    lemma_output_bound(polys, i + pow2(b), n);
    lemma_output_bound(polys, i, n);
    lemma_output_bound(polys, pow2(b), n);
    if n == 0 {
        assert(0u16 ^ 0u16 == 0u16) by (bit_vector);
    } else {
        let m = (n - 1) as nat;
        lemma_output_top(polys, i, b, m);
        lemma_dot_top(i, b, polys[m as int] as nat);
        lemma_pow2_unfold(n);
        lemma_u16_shl_is_mul(1, m as u16);
        lemma_xor_top(
            output_upto(polys, i, m) as u16,
            output_upto(polys, pow2(b), m) as u16,
            m as u16,
        );
    }
}

/// The output for one value of the shift register.
fn output_for(state: u32, rate: u32, polys: &[u16]) -> (output: u16)
    requires
        polys@.len() == rate,
        rate <= 16,
        state < 65536,
    ensures
        output == output_upto(polys@, state as nat, rate as nat),
{
    let mut concat: u16 = 0;
    let mut j: u16 = 0;
    while (j as u32) < rate
        invariant
            j <= rate <= 16,
            state < 65536,
            polys@.len() == rate,
            concat == output_upto(polys@, state as nat, j as nat),
        decreases rate - j,
    {
        let tapped: u16 = state as u16 & polys[j as usize];
        proof {
            lemma_dot(state as u16, polys@[j as int]);
            lemma_output_bound(polys@, state as nat, j as nat);
            lemma_pow2_16(j as nat);
            lemma2_to64();
            if j < 15 {
                lemma_pow2_strictly_increases(j as nat, 15);
            }
            lemma_u16_shl_is_mul(1, j);
            lemma_set_bit(concat, j);
        }
        if count_ones(tapped as u32) % 2 == 1 {
            concat = concat | (1u16 << j);
        }
        j = j + 1;
    }
    concat
}

/// The output for every value of the shift register: bit `j` is what the
/// `j`th polynomial makes of it.
pub fn conv_poly_table(rate: u32, order: u32, polys: &[u16]) -> (table: Vec<u16>)
    requires
        polys@.len() == rate,
        rate <= 16,
        order <= 16,
    ensures
        table@.len() == pow2(order as nat),
        forall|s: int|
            0 <= s < table@.len() ==> #[trigger] table@[s] == output_upto(
                polys@,
                s as nat,
                rate as nat,
            ),
        forall|s: int| 0 <= s < table@.len() ==> #[trigger] table@[s] < pow2(rate as nat),
        rate <= 8 ==> pow2(rate as nat) <= 256,
{
    let num_states: u32 = num_states_for_order(order);
    proof {
        lemma_pow2_16(order as nat);
        lemma2_to64();
        if rate < 8 {
            lemma_pow2_strictly_increases(rate as nat, 8);
        }
    }
    let mut table: Vec<u16> = Vec::with_capacity(num_states as usize);
    table.push(output_for(0, rate, polys));
    let mut b: u32 = 0;
    while b < order
        invariant
            b <= order <= 16,
            table@.len() == pow2(b as nat),
            polys@.len() == rate,
            rate <= 16,
            forall|s: int|
                0 <= s < table@.len() ==> #[trigger] table@[s] == output_upto(
                    polys@,
                    s as nat,
                    rate as nat,
                ),
        decreases order - b,
    {
        let size: usize = table.len();
        let ghost top = pow2(b as nat);
        proof {
            lemma_pow2_16(b as nat);
            lemma2_to64();
            lemma_pow2_strictly_increases(b as nat, 16);
            lemma_pow2_unfold((b + 1) as nat);
        }
        // the other half of the registers have one more bit set
        let tap: u16 = output_for(size as u32, rate, polys);
        let mut i: usize = 0;
        while i < size
            invariant
                i <= size,
                size == top == pow2(b as nat),
                table@.len() == size + i,
                polys@.len() == rate,
                rate <= 16,
                tap == output_upto(polys@, top, rate as nat),
                forall|s: int|
                    0 <= s < table@.len() ==> #[trigger] table@[s] == output_upto(
                        polys@,
                        s as nat,
                        rate as nat,
                    ),
            decreases size - i,
        {
            proof {
                lemma_output_top(polys@, i as nat, b as nat, rate as nat);
            }
            let output: u16 = table[i] ^ tap;
            table.push(output);
            i = i + 1;
        }
        b = b + 1;
    }
    assert forall|s: int| 0 <= s < table@.len() implies #[trigger] table@[s] < pow2(
        rate as nat,
    ) by {
        lemma_output_bound(polys@, s as nat, rate as nat);
    }
    table
}

/// Bit `j` of a register's output is the parity of the register's bits in the places
/// that polynomial `j` has set.
pub proof fn lemma_output_parity(polys: Seq<u16>, reg: u16, n: nat, j: nat)
    requires
        j < n <= 16,
    ensures
        (((output_upto(polys, reg as nat, n) as u16) >> (j as u16)) & 1u16) as nat == ones(
            (reg & polys[j as int]) as nat,
        ) % 2,
{
    let out = output_upto(polys, reg as nat, n);
    lemma_pow2_16(n);
    lemma_output_bound(polys, reg as nat, n);
    lemma_output_bit(polys, reg as nat, n, j);
    lemma_dot(reg, polys[j as int]);
    lemma_shifted_bit(out as u16, j);
}

pub proof fn lemma_shifted_bit(x: u16, j: nat)
    requires
        j < 16,
    ensures
        (x >> (j as u16)) & 1u16 == if nat_bit(x as nat, j) {
            1u16
        } else {
            0u16
        },
    decreases j,
{
    let k = j as u16;
    let i = if k > 0 {
        (k - 1) as u16
    } else {
        0u16
    };
    assert((x >> 0u16) & 1u16 == x % 2 && (k > 0 ==> (x >> k) & 1u16 == ((x / 2) >> i) & 1u16))
        by (bit_vector)
        requires
            k < 16,
            k > 0 ==> i == k - 1,
    ;
    if j > 0 {
        lemma_shifted_bit(x / 2, (j - 1) as nat);
    }
}

/// How many bits a traceback emits at once. Running it more often is less
/// efficient but more compact, and at larger orders cache matters more.
pub open spec fn group_length(order: int) -> int {
    if order <= 8 {
        100 * order
    } else if order <= 10 {
        50 * order
    } else if order <= 12 {
        15 * order
    } else {
        10 * order
    }
}

pub fn traceback_group_length(order: u32) -> (len: usize)
    requires
        order <= 0x0fff_ffff,
    ensures
        len == group_length(order as int),
        order <= 8 ==> len == 100 * order,
        8 < order <= 10 ==> len == 50 * order,
        10 < order <= 12 ==> len == 15 * order,
        12 < order ==> len == 10 * order,
{
    let group_mult: u32 = if order <= 8 {
        100
    } else if order <= 10 {
        50
    } else if order <= 12 {
        15
    } else {
        10
    };
    (group_mult * order) as usize
}

} // verus!
