//! Java runtime behaviour that layout results depend on: the
//! `java.util.Random` generator and the `java.util.PriorityQueue` heap.

use vstd::prelude::*;
use vstd::arithmetic::power2::pow2;

verus! {

/// Size of the generator's state space (2^48).
pub const STATE_SPACE: u64 = 0x1_0000_0000_0000;

/// Multiplier of the linear congruential generator.
pub const MULTIPLIER: u64 = 0x5DEECE66D;

/// Increment of the linear congruential generator.
pub const ADDEND: u64 = 0xB;

/// One step of Java's generator: `s * 0x5DEECE66D + 0xB` modulo 2^48.
pub open spec fn lcg_step(s: nat) -> nat {
    ((s * MULTIPLIER + ADDEND) % (STATE_SPACE as int)) as nat
}

/// The state a generator created with `seed` starts from.
pub open spec fn initial_state(seed: i64) -> nat {
    (((seed as u64) ^ MULTIPLIER) as nat) % (STATE_SPACE as nat)
}

/// The top `bits` bits of a 48-bit state.
pub open spec fn top_bits(s: nat, bits: nat) -> nat {
    s / pow2((48 - bits) as nat)
}

/// An unsigned 32-bit value read as a two's-complement `int`.
pub open spec fn as_signed32(x: int) -> int {
    if x < 0x8000_0000 {
        x
    } else {
        x - 0x1_0000_0000
    }
}

/// A mathematical integer wrapped into the range of `i64`.
pub open spec fn wrap64(x: int) -> int {
    if x > i64::MAX {
        x - 0x1_0000_0000_0000_0000
    } else if x < i64::MIN {
        x + 0x1_0000_0000_0000_0000
    } else {
        x
    }
}

/// Whether a positive bound is a power of two (no two of its bits are set).
pub open spec fn power_of_two_bound(bound: i32) -> bool {
    bound & ((bound - 1) as i32) == 0
}

/// Java's `nextInt(bound)` for a bound that is not a power of two: draw 31
/// bits, reduce them modulo `bound`, and redraw while the draw falls into the
/// incomplete last bucket. Returns the final state and the value. `tries`
/// caps the number of redraws.
#[verifier::opaque]
pub open spec fn bounded_draw(s: nat, bound: int, tries: nat) -> (nat, int)
    decreases tries,
{
    let s1 = lcg_step(s);
    let bits = top_bits(s1, 31) as int;
    let val = bits % bound;
    if bits - val + (bound - 1) <= i32::MAX || tries == 0 {
        (s1, val)
    } else {
        bounded_draw(s1, bound, (tries - 1) as nat)
    }
}

proof fn lemma_bounded_draw_unfold(s: nat, bound: int, tries: nat)
    ensures
        ({
            let s1 = lcg_step(s);
            let bits = top_bits(s1, 31) as int;
            let val = bits % bound;
            bounded_draw(s, bound, tries) == if bits - val + (bound - 1) <= i32::MAX || tries == 0 {
                (s1, val)
            } else {
                bounded_draw(s1, bound, (tries - 1) as nat)
            }
        }),
{
    reveal(bounded_draw);
}

/// The generator of `java.util.Random`: a 48-bit linear congruential
/// generator that yields the same sequence as Java for the same seed.
pub struct JavaRandom {
    seed: u64,
}

impl View for JavaRandom {
    type V = nat;

    /// The 48-bit state of the generator.
    closed spec fn view(&self) -> nat {
        self.seed as nat
    }
}

proof fn lemma_mask(x: u64)
    ensures
        x & 0xFFFF_FFFF_FFFFu64 == x % 0x1_0000_0000_0000u64,
{
    assert(x & 0xFFFF_FFFF_FFFFu64 == x % 0x1_0000_0000_0000u64) by (bit_vector);
}

impl JavaRandom {
    /// The state is always a 48-bit number.
    #[verifier::type_invariant]
    closed spec fn state_fits(self) -> bool {
        self.seed < STATE_SPACE
    }

    /// A generator seeded like `new java.util.Random(seed)`.
    pub fn new(seed: i64) -> (r: Self)
        ensures
            r@ == initial_state(seed),
    {
        let x = seed as u64 ^ MULTIPLIER;
        proof {
            lemma_mask(x);
        }
        JavaRandom { seed: x & 0xFFFF_FFFF_FFFFu64 }
    }

    /// Advances the state and returns its top `bits` bits (Java's `next`).
    pub fn next(&mut self, bits: u32) -> (r: i32)
        requires
            1 <= bits <= 32,
        ensures
            final(self)@ == lcg_step(old(self)@),
            r == as_signed32(top_bits(lcg_step(old(self)@), bits as nat) as int),
    {
        proof {
            use_type_invariant(&*self);
            assert((self.seed as u128) * (MULTIPLIER as u128) <= 0x1_0000_0000_0000u128 * 0x5DEECE66Du128)
                by (nonlinear_arith)
                requires
                    self.seed < 0x1_0000_0000_0000u64,
            ;
        }
        let wide: u128 = (self.seed as u128) * (MULTIPLIER as u128) + (ADDEND as u128);
        let stepped = wide % (STATE_SPACE as u128);
        self.seed = stepped as u64;
        let shift = (48 - bits) as u64;
        let out = self.seed >> shift;
        proof {
            vstd::bits::lemma_u64_shr_is_div(self.seed, shift);
            assert(self.seed < 0x1_0000_0000_0000u64);
            vstd::arithmetic::power2::lemma_pow2_pos((48 - bits) as nat);
            assert(pow2(16) == 0x10000) by {
                vstd::arithmetic::power2::lemma2_to64();
            }
            if shift > 16 {
                vstd::arithmetic::power2::lemma_pow2_strictly_increases(16, shift as nat);
            }
            assert(out < 0x1_0000_0000u64) by (nonlinear_arith)
                requires
                    out == self.seed as nat / pow2(shift as nat),
                    self.seed < 0x1_0000_0000_0000u64,
                    pow2(shift as nat) >= 0x10000,
            ;
        }
        let wide_out = out as i64;
        if wide_out < 0x8000_0000 {
            wide_out as i32
        } else {
            (wide_out - 0x1_0000_0000) as i32
        }
    }

    /// The next 32-bit value (Java's `nextInt()`).
    pub fn next_int(&mut self) -> (r: i32)
        ensures
            final(self)@ == lcg_step(old(self)@),
            r == as_signed32(top_bits(lcg_step(old(self)@), 32) as int),
    {
        self.next(32)
    }

    /// One draw of `nextInt(bound)`: the 31 drawn bits reduced modulo
    /// `bound`, and whether the draw lies in a complete bucket.
    fn draw_bucket(&mut self, bound: i32) -> (r: (i32, bool))
        requires
            bound > 0,
        ensures
            final(self)@ == lcg_step(old(self)@),
            r.0 == (top_bits(lcg_step(old(self)@), 31) as int) % (bound as int),
            r.1 == ((top_bits(lcg_step(old(self)@), 31) as int) - r.0 + (bound - 1) <= i32::MAX),
    {
        let bits = self.next(31);
        proof {
            JavaRandom::lemma_top_bits_bound(lcg_step(old(self)@), 31);
            assert(pow2(31) == 0x8000_0000) by {
                vstd::arithmetic::power2::lemma2_to64();
            }
        }
        let val = bits % bound;
        let accept = (bits as i64) - (val as i64) + (bound as i64) - 1 <= 0x7fff_ffff;
        (val, accept)
    }

    /// A value in `0..bound` (Java's `nextInt(bound)`). For a power-of-two
    /// bound the value is the top bits of one draw scaled to the bound;
    /// otherwise draws are repeated while they fall into the incomplete last
    /// bucket of the range. The redraws are counted, up to 2^48 of them (the
    /// generator's period); the contract states the result with that count.
    pub fn next_int_bound(&mut self, bound: i32) -> (r: i32)
        requires
            bound > 0,
        ensures
            power_of_two_bound(bound) ==> final(self)@ == lcg_step(old(self)@) && r == (bound
                * top_bits(lcg_step(old(self)@), 31)) / 0x8000_0000,
            !power_of_two_bound(bound) ==> (final(self)@, r as int) == bounded_draw(
                old(self)@,
                bound as int,
                STATE_SPACE as nat,
            ),
            0 <= r < bound,
    {
        proof {
            assert(pow2(31) == 0x8000_0000) by {
                vstd::arithmetic::power2::lemma2_to64();
            }
            assert((bound & ((-bound) as i32) == bound) <==> (bound & ((bound - 1) as i32) == 0)) by (bit_vector)
                requires
                    bound > 0,
            ;
        }
        if (bound & -bound) == bound {
            let x = self.next(31);
            proof {
                JavaRandom::lemma_top_bits_bound(lcg_step(old(self)@), 31);
                assert((bound as u64) * (x as u64) < 0x8000_0000u64 * 0x8000_0000u64) by (nonlinear_arith)
                    requires
                        0 < bound < 0x8000_0000,
                        0 <= x < 0x8000_0000,
                ;
                assert(((bound as int) * (x as int)) / 0x8000_0000 < bound) by (nonlinear_arith)
                    requires
                        0 < bound < 0x8000_0000,
                        0 <= x < 0x8000_0000,
                ;
            }
            let scaled = ((bound as u64) * (x as u64)) / 0x8000_0000u64;
            return scaled as i32;
        }
        let ghost start = old(self)@;
        let mut tries: u64 = STATE_SPACE;
        loop
            invariant
                bound > 0,
                !power_of_two_bound(bound),
                tries <= STATE_SPACE,
                start == old(self)@,
                bounded_draw(start, bound as int, STATE_SPACE as nat) == bounded_draw(
                    self@,
                    bound as int,
                    tries as nat,
                ),
            decreases tries,
        {
            let ghost before = self@;
            let (val, accept) = self.draw_bucket(bound);
            proof {
                lemma_bounded_draw_unfold(before, bound as int, tries as nat);
            }
            if accept || tries == 0 {
                proof {
                    let s1 = lcg_step(before);
                    assert(s1 == self@);
                    assert(bounded_draw(before, bound as int, tries as nat) == (s1, val as int));
                    assert(bounded_draw(start, bound as int, STATE_SPACE as nat) == (self@, val as int));
                }
                return val;
            }
            tries = tries - 1;
        }
    }

    /// The next boolean (Java's `nextBoolean()`).
    pub fn next_boolean(&mut self) -> (r: bool)
        ensures
            final(self)@ == lcg_step(old(self)@),
            r == (top_bits(lcg_step(old(self)@), 1) != 0),
    {
        let b = self.next(1);
        proof {
            JavaRandom::lemma_top_bits_bound(lcg_step(old(self)@), 1);
            assert(pow2(1) == 2) by {
                vstd::arithmetic::power2::lemma2_to64();
            }
        }
        b != 0
    }

    /// The next 64-bit value from two 32-bit draws (Java's `nextLong()`).
    pub fn next_long(&mut self) -> (r: i64)
        ensures
            final(self)@ == lcg_step(lcg_step(old(self)@)),
            r == wrap64(
                as_signed32(top_bits(lcg_step(old(self)@), 32) as int) * 0x1_0000_0000
                    + as_signed32(top_bits(lcg_step(lcg_step(old(self)@)), 32) as int),
            ),
    {
        let hi = self.next(32);
        let lo = self.next(32);
        let high = (hi as i64) * 0x1_0000_0000;
        high.wrapping_add(lo as i64)
    }

    /// The 53 random bits from which Java's `nextDouble()` forms its value
    /// (the value is these bits divided by 2^53).
    pub fn next_double_bits(&mut self) -> (r: i64)
        ensures
            final(self)@ == lcg_step(lcg_step(old(self)@)),
            r == top_bits(lcg_step(old(self)@), 26) * 0x800_0000 + top_bits(
                lcg_step(lcg_step(old(self)@)),
                27,
            ),
    {
        let high = self.next(26);
        let low = self.next(27);
        proof {
            assert(pow2(26) == 0x400_0000 && pow2(27) == 0x800_0000) by {
                vstd::arithmetic::power2::lemma2_to64();
            }
            JavaRandom::lemma_top_bits_bound(lcg_step(old(self)@), 26);
            JavaRandom::lemma_top_bits_bound(lcg_step(lcg_step(old(self)@)), 27);
        }
        (high as i64) * 0x800_0000 + (low as i64)
    }

    /// The 24 random bits from which Java's `nextFloat()` forms its value
    /// (the value is these bits divided by 2^24).
    pub fn next_float_bits(&mut self) -> (r: i32)
        ensures
            final(self)@ == lcg_step(old(self)@),
            r == top_bits(lcg_step(old(self)@), 24),
    {
        let v = self.next(24);
        proof {
            JavaRandom::lemma_top_bits_bound(lcg_step(old(self)@), 24);
            assert(pow2(24) == 0x100_0000) by {
                vstd::arithmetic::power2::lemma2_to64();
            }
        }
        v
    }

    /// The top `bits` bits of a state fit in `bits` bits.
    pub proof fn lemma_top_bits_bound(s: nat, bits: nat)
        requires
            s < STATE_SPACE,
            1 <= bits <= 32,
        ensures
            top_bits(s, bits) < pow2(bits),
    {
        vstd::arithmetic::power2::lemma_pow2_adds(bits, (48 - bits) as nat);
        vstd::arithmetic::power2::lemma_pow2_pos((48 - bits) as nat);
        assert(pow2(48) == 0x1_0000_0000_0000) by {
            vstd::arithmetic::power2::lemma2_to64_rest();
        }
        let d = pow2((48 - bits) as nat);
        assert(s / d < pow2(bits)) by (nonlinear_arith)
            requires
                s < pow2(bits) * d,
                d > 0,
        ;
    }
}

/// Generators whose seeds agree in their low 48 bits start from the same
/// state; as every draw is a function of the state, they then give the same
/// values for the same sequence of calls.
pub proof fn lemma_same_low_bits_same_state(s1: i64, s2: i64)
    requires
        (s1 as u64) & 0xFFFF_FFFF_FFFFu64 == (s2 as u64) & 0xFFFF_FFFF_FFFFu64,
    ensures
        initial_state(s1) == initial_state(s2),
{
    let a = s1 as u64;
    let b = s2 as u64;
    assert((a ^ 0x5DEECE66Du64) & 0xFFFF_FFFF_FFFFu64 == (b ^ 0x5DEECE66Du64) & 0xFFFF_FFFF_FFFFu64) by (bit_vector)
        requires
            a & 0xFFFF_FFFF_FFFFu64 == b & 0xFFFF_FFFF_FFFFu64,
    ;
    lemma_mask(a ^ 0x5DEECE66Du64);
    lemma_mask(b ^ 0x5DEECE66Du64);
}

/// A bound `2^k` (`1 <= k <= 30`) is a power-of-two bound, and the value
/// `next_int_bound` gives for it from state `s` is the top `k` bits of one
/// 32-bit draw: the value `next_int` gives from the same state, read
/// unsigned, divided by `2^(32 - k)` (shifted right by `32 - k`). Both calls
/// advance the state by one step.
pub proof fn lemma_power_of_two_bound(s: nat, k: nat)
    requires
        1 <= k <= 30,
    ensures
        power_of_two_bound(pow2(k) as i32),
        ({
            let x = as_signed32(top_bits(lcg_step(s), 32) as int);
            let unsigned = if x < 0 { x + 0x1_0000_0000 } else { x };
            (pow2(k) * top_bits(lcg_step(s), 31)) / 0x8000_0000 == unsigned / (pow2((32 - k) as nat) as int)
        }),
        ({
            let x = as_signed32(top_bits(lcg_step(s), 32) as int) as i32;
            ((x as u32) >> ((32 - k) as u32)) as int == (pow2(k) * top_bits(lcg_step(s), 31)) / 0x8000_0000
        }),
{
    let t = lcg_step(s);
    assert(t < STATE_SPACE);
    JavaRandom::lemma_top_bits_bound(t, 32);
    assert(pow2(32) == 0x1_0000_0000 && pow2(31) == 0x8000_0000 && pow2(16) == 0x10000 && pow2(17) == 0x20000) by {
        vstd::arithmetic::power2::lemma2_to64();
        vstd::arithmetic::power2::lemma2_to64_rest();
    }
    vstd::arithmetic::power2::lemma_pow2_pos(k);
    vstd::arithmetic::power2::lemma_pow2_pos((31 - k) as nat);
    vstd::arithmetic::power2::lemma_pow2_pos((32 - k) as nat);
    vstd::arithmetic::power2::lemma_pow2_pos(16);
    vstd::arithmetic::power2::lemma_pow2_pos(17);
    vstd::arithmetic::power2::lemma_pow2_adds(k, (31 - k) as nat);
    vstd::arithmetic::power2::lemma_pow2_adds(17, (31 - k) as nat);
    vstd::arithmetic::power2::lemma_pow2_adds(16, (32 - k) as nat);
    let q = top_bits(t, 31);
    let pk = pow2(k) as int;
    let m = pow2((31 - k) as nat) as int;
    // (2^k * q) / (2^k * 2^(31-k)) == q / 2^(31-k)
    vstd::arithmetic::div_mod::lemma_div_multiples_vanish(q as int, pk);
    vstd::arithmetic::div_mod::lemma_div_denominator(pk * q, pk, m);
    // q / 2^(31-k) == t / 2^(48-k) == (t / 2^16) / 2^(32-k)
    vstd::arithmetic::div_mod::lemma_div_denominator(t as int, pow2(17) as int, m);
    vstd::arithmetic::div_mod::lemma_div_denominator(t as int, pow2(16) as int, pow2((32 - k) as nat) as int);
    assert(pow2(17) * pow2((31 - k) as nat) == pow2(16) * pow2((32 - k) as nat)) by {
        assert(17 + (31 - k) == 16 + (32 - k));
    }
    // 2^k is a power-of-two bound
    vstd::arithmetic::power2::lemma_pow2_strictly_increases(k, 31);
    let u = 1u32 << (k as u32);
    vstd::bits::lemma_u32_shl_is_mul(1u32, k as u32);
    vstd::bits::lemma_u32_pow2_no_overflow(k);
    assert(u == pow2(k));
    let b = pow2(k) as i32;
    assert(b == u as i32);
    let kk = k as u32;
    assert(((u as i32) & (((u as i32) - 1) as i32)) == 0) by (bit_vector)
        requires
            u == 1u32 << kk,
            kk <= 30,
    ;
    let x = as_signed32(top_bits(lcg_step(s), 32) as int) as i32;
    assert(x as int == as_signed32(top_bits(lcg_step(s), 32) as int));
    assert((x as u32) as int == if x < 0 { x + 0x1_0000_0000 } else { x as int }) by (bit_vector);
    let sh = (32 - k) as u32;
    vstd::bits::lemma_u32_shr_is_div(x as u32, sh);
}

/// `next_long` is two `next_int` draws joined: with `hi` the value the first
/// draw gives from state `s` and `lo` the value the second gives, the value
/// `next_long` gives from `s` is `((hi as i64) << 32).wrapping_add(lo as i64)`,
/// and both end in the state two steps on.
pub proof fn lemma_next_long_from_next_int(s: nat)
    ensures
        ({
            let hi = as_signed32(top_bits(lcg_step(s), 32) as int) as i32;
            let lo = as_signed32(top_bits(lcg_step(lcg_step(s)), 32) as int) as i32;
            vstd::wrapping::i64_specs::wrapping_add((hi as i64) << 32u64, lo as i64) == wrap64(
                as_signed32(top_bits(lcg_step(s), 32) as int) * 0x1_0000_0000 + as_signed32(
                    top_bits(lcg_step(lcg_step(s)), 32) as int,
                ),
            )
        }),
{
    let t1 = lcg_step(s);
    let t2 = lcg_step(t1);
    JavaRandom::lemma_top_bits_bound(t1, 32);
    JavaRandom::lemma_top_bits_bound(t2, 32);
    assert(pow2(32) == 0x1_0000_0000) by {
        vstd::arithmetic::power2::lemma2_to64();
        vstd::arithmetic::power2::lemma2_to64_rest();
    }
    let hi = as_signed32(top_bits(t1, 32) as int) as i32;
    let lo = as_signed32(top_bits(t2, 32) as int) as i32;
    assert(hi as int == as_signed32(top_bits(t1, 32) as int));
    assert(lo as int == as_signed32(top_bits(t2, 32) as int));
    assert(((hi as i64) << 32u64) as int == (hi as int) * 0x1_0000_0000) by (bit_vector);
}

} // verus!
