//! Encoding unsigned counters as IEEE-754 single-precision bit
//! patterns. The scenario format repeats each player's resource
//! stock as 32-bit floats; this module computes the exact bit
//! pattern of a `u32` value with pure integer arithmetic
//! (round-to-nearest, ties to even, as the format's writers do).

use vstd::prelude::*;

verus! {

/// Two to the power `k`.
pub open spec fn pow2(k: nat) -> int
    decreases k,
{
    if k == 0 {
        1
    } else {
        2 * pow2((k - 1) as nat)
    }
}

/// The position of the highest set bit: the largest `e` with
/// `pow2(e) <= v`, and 0 for `v < 2`.
pub open spec fn floor_log2(v: int) -> nat
    decreases v,
{
    if v < 2 {
        0
    } else {
        (1 + floor_log2(v / 2)) as nat
    }
}

/// The IEEE-754 single-precision bit pattern of the non-negative
/// integer `v`: zero stays zero; a value up to 24 bits is exact; a
/// wider value is rounded to 24 significant bits, to nearest, ties
/// to even.
#[verifier::opaque]
pub open spec fn f32_bits_of_uint(v: u32) -> int {
    if v == 0 {
        0
    } else {
        let e = floor_log2(v as int) as int;
        if e <= 23 {
            (127 + e) * 0x800000 + (v * pow2((23 - e) as nat) - 0x800000)
        } else {
            let s = (e - 23) as nat;
            let q = (v as int) / pow2(s);
            let r = (v as int) % pow2(s);
            let half = pow2((s - 1) as nat);
            let q2 = if r > half || (r == half && q % 2 == 1) {
                q + 1
            } else {
                q
            };
            if q2 == 0x1000000 {
                (127 + e + 1) * 0x800000
            } else {
                (127 + e) * 0x800000 + (q2 - 0x800000)
            }
        }
    }
}

pub proof fn lemma_pow2_pos(k: nat)
    ensures
        pow2(k) >= 1,
    decreases k,
{
    if k > 0 {
        lemma_pow2_pos((k - 1) as nat);
    }
}

pub proof fn lemma_pow2_mono(a: nat, b: nat)
    requires
        a <= b,
    ensures
        pow2(a) <= pow2(b),
    decreases b,
{
    if a < b {
        lemma_pow2_mono(a, (b - 1) as nat);
        lemma_pow2_pos((b - 1) as nat);
    }
}

pub proof fn lemma_pow2_add(a: nat, b: nat)
    ensures
        pow2(a + b) == pow2(a) * pow2(b),
    decreases b,
{
    if b == 0 {
    } else {
        lemma_pow2_add(a, (b - 1) as nat);
        assert(pow2((a + b - 1) as nat) == pow2(a) * pow2((b - 1) as nat));
        assert(pow2(a + b) == 2 * pow2((a + b - 1) as nat));
        assert(pow2(a) * pow2(b) == pow2(a) * (2 * pow2((b - 1) as nat)));
        assert(pow2(a) * (2 * pow2((b - 1) as nat)) == 2 * (pow2(a) * pow2((b - 1) as nat)))
            by (nonlinear_arith);
    }
}

/// The defining property of `floor_log2`: it brackets its argument
/// between consecutive powers of two.
pub proof fn lemma_floor_log2(v: int)
    requires
        v >= 1,
    ensures
        pow2(floor_log2(v)) <= v < pow2(floor_log2(v) + 1),
    decreases v,
{
    if v < 2 {
    } else {
        lemma_floor_log2(v / 2);
        let f = floor_log2(v / 2);
        assert(pow2(f) <= v / 2 < pow2(f + 1));
        assert(2 * (v / 2) <= v && v <= 2 * (v / 2) + 1) by (nonlinear_arith)
            requires
                v >= 2,
        ;
    }
}

/// Computes `pow2(k)` for small `k`.
fn pow2_small(k: u32) -> (r: u32)
    requires
        k <= 24,
    ensures
        r as int == pow2(k as nat),
{
    proof {
        reveal_with_fuel(pow2, 26);
        assert(pow2(24) == 0x1000000);
    }
    let mut r: u32 = 1;
    let mut i: u32 = 0;
    while i < k
        invariant
            i <= k,
            k <= 24,
            r as int == pow2(i as nat),
            pow2(24) == 0x1000000,
        decreases k - i,
    {
        proof {
            lemma_pow2_mono(i as nat, 23);
            lemma_pow2_mono((i + 1) as nat, 24);
            reveal_with_fuel(pow2, 26);
        }
        r = r * 2;
        i = i + 1;
    }
    r
}

/// The IEEE-754 single-precision bit pattern of `v`, computed with
/// integer arithmetic alone: round to nearest, ties to even.
#[verifier::rlimit(100)]
pub fn u32_to_f32_bits(v: u32) -> (r: u32)
    ensures
        r as int == f32_bits_of_uint(v),
{
    proof {
        reveal(f32_bits_of_uint);
    }
    if v == 0 {
        return 0;
    }
    let mut e: u32 = 0;
    let mut m: u32 = v;
    while m >= 2
        invariant
            m >= 1,
            floor_log2(v as int) == e + floor_log2(m as int),
            (m as int) * pow2(e as nat) <= v as int,
            e <= 31,
        decreases m,
    {
        proof {
            lemma_pow2_pos(e as nat);
            assert(((m / 2) as int) * pow2((e + 1) as nat) <= (m as int) * pow2(e as nat))
                by (nonlinear_arith)
                requires
                    m >= 2,
                    pow2((e + 1) as nat) == 2 * pow2(e as nat),
                    pow2(e as nat) >= 1,
            ;
            assert(2 * pow2(e as nat) <= (m as int) * pow2(e as nat)) by (nonlinear_arith)
                requires
                    m >= 2,
                    pow2(e as nat) >= 1,
            ;
            if e + 1 > 31 {
                lemma_pow2_mono(32, (e + 1) as nat);
                reveal_with_fuel(pow2, 34);
                assert(pow2(32) == 0x1_0000_0000);
                assert(false);
            }
        }
        m = m / 2;
        e = e + 1;
    }
    proof {
        assert(floor_log2(v as int) == e);
        lemma_floor_log2(v as int);
    }
    if e <= 23 {
        let shift = pow2_small(23 - e);
        proof {
            lemma_pow2_add(e as nat, (23 - e) as nat);
            lemma_pow2_add((e + 1) as nat, (23 - e) as nat);
            lemma_pow2_mono((23 - e) as nat, 23);
            reveal_with_fuel(pow2, 26);
            assert((v as int) * pow2((23 - e) as nat) < pow2((e + 1) as nat) * pow2(
                (23 - e) as nat,
            )) by (nonlinear_arith)
                requires
                    (v as int) < pow2((e + 1) as nat),
                    pow2((23 - e) as nat) >= 1,
            ;
            assert((v as int) * pow2((23 - e) as nat) >= pow2(e as nat) * pow2((23 - e) as nat))
                by (nonlinear_arith)
                requires
                    (v as int) >= pow2(e as nat),
                    pow2((23 - e) as nat) >= 1,
            ;
            assert(pow2((e + 1) as nat) * pow2((23 - e) as nat) == pow2(24));
            assert(pow2(e as nat) * pow2((23 - e) as nat) == pow2(23));
        }
        let mant: u64 = (v as u64) * (shift as u64);
        let bits: u32 = (127 + e) * 0x800000 + ((mant as u32) - 0x800000);
        bits
    } else {
        let s = e - 23;
        let div = pow2_small(s);
        proof {
            lemma_pow2_pos(s as nat);
            assert(pow2(s as nat) == 2 * pow2((s - 1) as nat));
            lemma_pow2_add((e + 1) as nat, 0);
            // bracket the quotient between 2^23 and 2^24
            lemma_pow2_add(23, s as nat);
            lemma_pow2_add(24, s as nat);
            assert((v as int) / pow2(s as nat) >= pow2(23)) by (nonlinear_arith)
                requires
                    (v as int) >= pow2(23) * pow2(s as nat),
                    pow2(s as nat) >= 1,
            ;
            assert((v as int) / pow2(s as nat) < pow2(24)) by (nonlinear_arith)
                requires
                    (v as int) < pow2(24) * pow2(s as nat),
                    pow2(s as nat) >= 1,
            ;
            reveal_with_fuel(pow2, 26);
            assert(pow2(23) == 0x800000 && pow2(24) == 0x1000000);
        }
        let q = v / div;
        let rem = v % div;
        let half = div / 2;
        proof {
            assert(half as int == pow2((s - 1) as nat));
        }
        let q2: u32 = if rem > half || (rem == half && q % 2 == 1) {
            q + 1
        } else {
            q
        };
        if q2 == 0x1000000 {
            (127 + e + 1) * 0x800000
        } else {
            (127 + e) * 0x800000 + (q2 - 0x800000)
        }
    }
}

} // verus!
