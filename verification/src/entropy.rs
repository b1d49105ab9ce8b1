//! Entropies are single-precision floats; the library holds each as its IEEE-754
//! bit pattern and compares them by it.

use vstd::prelude::*;

verus! {

/// The bit pattern is a NaN: exponent all ones, fraction not zero.
pub open spec fn f32_nan(b: u32) -> bool {
    (b / 0x80_0000) % 0x100 == 0xff && b % 0x80_0000 != 0
}

/// The order key of a float that is not NaN: IEEE-754 orders such floats as
/// their sign-magnitude bit patterns, and both zeros have key 0.
pub open spec fn f32_key(b: u32) -> int {
    if b >= 0x8000_0000 {
        -((b - 0x8000_0000) as int)
    } else {
        b as int
    }
}

/// `a < b` between floats.
pub open spec fn f32_less(a: u32, b: u32) -> bool {
    !f32_nan(a) && !f32_nan(b) && f32_key(a) < f32_key(b)
}

/// `b > 0.0`.
pub open spec fn f32_positive(b: u32) -> bool {
    f32_less(0, b)
}

/// `f32_nan` computed.
pub fn is_nan(b: u32) -> (res: bool)
    ensures
        res == f32_nan(b),
{
    (b / 0x80_0000) % 0x100 == 0xff && b % 0x80_0000 != 0
}

/// `f32_key` computed.
pub fn key_of(b: u32) -> (res: i64)
    ensures
        res as int == f32_key(b),
{
    if b >= 0x8000_0000 {
        -((b - 0x8000_0000) as i64)
    } else {
        b as i64
    }
}

/// The number of binary digits of `n`.
pub open spec fn bit_length(n: nat) -> nat
    decreases n,
{
    if n == 0 {
        0
    } else {
        1 + bit_length(n / 2)
    }
}

/// `2` to the power `e`.
pub open spec fn two_to(e: nat) -> nat
    decreases e,
{
    if e == 0 {
        1
    } else {
        2 * two_to((e - 1) as nat)
    }
}

/// The bits of `n as f32`: exact below 2^24, otherwise rounded to the nearest
/// representable value, ties to even.
pub open spec fn f32_bits_of_count(n: u32) -> u32 {
    if n == 0 {
        0
    } else {
        let e = (bit_length(n as nat) - 1) as nat;
        if e <= 23 {
            ((e + 127) * two_to(23) + (n * two_to((23 - e) as nat) - two_to(23))) as u32
        } else {
            let sh = (e - 23) as nat;
            let q = n as nat / two_to(sh);
            let rem = n as nat % two_to(sh);
            let half = two_to((sh - 1) as nat);
            let qr = if rem > half || (rem == half && q % 2 == 1) {
                q + 1
            } else {
                q
            };
            if qr == two_to(24) {
                ((e + 128) * two_to(23)) as u32
            } else {
                ((e + 127) * two_to(23) + (qr - two_to(23))) as u32
            }
        }
    }
}

proof fn lemma_two_to_values()
    ensures
        two_to(0) == 1,
        two_to(1) == 2,
        two_to(23) == 0x80_0000,
        two_to(24) == 0x100_0000,
{
    reveal_with_fuel(two_to, 25);
}

proof fn lemma_two_to_pos(e: nat)
    ensures
        two_to(e) >= 1,
    decreases e,
{
    if e > 0 {
        lemma_two_to_pos((e - 1) as nat);
    }
}

proof fn lemma_bit_length(n: nat)
    requires
        n > 0,
    ensures
        bit_length(n) >= 1,
        two_to((bit_length(n) - 1) as nat) <= n < two_to(bit_length(n)),
    decreases n,
{
    if n == 1 {
        assert(bit_length(0) == 0);
        assert(bit_length(1) == 1);
        reveal_with_fuel(two_to, 2);
    } else {
        lemma_bit_length(n / 2);
        let b = bit_length(n / 2);
        assert(bit_length(n) == 1 + b);
        assert(two_to(b) == 2 * two_to((b - 1) as nat));
        assert(two_to((b + 1) as nat) == 2 * two_to(b));
    }
}

/// `n as f32`, as its bit pattern.
pub fn count_as_f32(n: u32) -> (res: u32)
    ensures
        res == f32_bits_of_count(n),
{
    if n == 0 {
        return 0;
    }
    proof {
        lemma_bit_length(n as nat);
        lemma_two_to_values();
        lemma_two_to_32();
    }
    // e = bit_length(n) - 1 and p = 2^e
    let mut e: u32 = 0;
    let mut p: u64 = 1;
    while p * 2 <= n as u64
        invariant
            1 <= p <= n,
            p == two_to(e as nat),
            e < 32,
            two_to(32) == 0x1_0000_0000,
        decreases n - p,
    {
        proof {
            assert(two_to((e + 1) as nat) == 2 * two_to(e as nat));
            if e + 1 >= 32 {
                lemma_two_to_mono(32, (e + 1) as nat);
            }
        }
        e = e + 1;
        p = p * 2;
    }
    proof {
        assert(two_to((e + 1) as nat) == 2 * two_to(e as nat));
        lemma_bit_length_unique(n as nat, e as nat);
        lemma_two_to_values();
    }
    if e <= 23 {
        let mut scale: u64 = 1;
        let mut k: u32 = 0;
        while k < 23 - e
            invariant
                e <= 23,
                k <= 23 - e,
                scale == two_to(k as nat),
                two_to(23) == 0x80_0000,
            decreases 23 - e - k,
        {
            proof {
                assert(two_to((k + 1) as nat) == 2 * two_to(k as nat));
                lemma_two_to_mono((k + 1) as nat, 23);
            }
            scale = scale * 2;
            k = k + 1;
        }
        proof {
            lemma_two_to_add(e as nat, (23 - e) as nat);
            lemma_two_to_values();
            assert(p * scale == 0x80_0000);
        }
        assert(0x80_0000 <= n * scale < 0x100_0000) by (nonlinear_arith)
            requires
                p <= n < 2 * p,
                p * scale == 0x80_0000,
        {
        }
        let bits: u64 = (e as u64 + 127) * 0x80_0000 + (n as u64 * scale - 0x80_0000);
        bits as u32
    } else {
        let sh = e - 23;
        let mut d: u64 = 1;
        let mut k: u32 = 0;
        while k < sh
            invariant
                k <= sh,
                sh <= 8,
                d == two_to(k as nat),
                d >= 1,
            decreases sh - k,
        {
            proof {
                assert(two_to((k + 1) as nat) == 2 * two_to(k as nat));
                lemma_two_to_mono((k + 1) as nat, 8);
                reveal_with_fuel(two_to, 9);
            }
            d = d * 2;
            k = k + 1;
        }
        let q: u64 = n as u64 / d;
        let rem: u64 = n as u64 % d;
        let half: u64 = d / 2;
        proof {
            assert(two_to(sh as nat) == 2 * two_to((sh - 1) as nat));
            lemma_two_to_add(sh as nat, 23);
            lemma_two_to_values();
            assert(e as nat == sh + 23);
            assert(p == d * 0x80_0000);
        }
        let qr: u64 = if rem > half || (rem == half && q % 2 == 1) { q + 1 } else { q };
        assert(0x80_0000 <= q < 0x100_0000) by (nonlinear_arith)
            requires
                p <= n < 2 * p,
                p == d * 0x80_0000,
                q == (n as u64) / d,
                d >= 1,
        {
        }
        if qr == 0x100_0000 {
            ((e as u64 + 128) * 0x80_0000) as u32
        } else {
            ((e as u64 + 127) * 0x80_0000 + (qr - 0x80_0000)) as u32
        }
    }
}

proof fn lemma_two_to_32()
    ensures
        two_to(32) == 0x1_0000_0000,
{
    reveal_with_fuel(two_to, 33);
}

proof fn lemma_two_to_mono(a: nat, b: nat)
    requires
        a <= b,
    ensures
        two_to(a) <= two_to(b),
    decreases b - a,
{
    if a < b {
        lemma_two_to_mono(a, (b - 1) as nat);
        lemma_two_to_pos((b - 1) as nat);
    }
}

proof fn lemma_two_to_add(a: nat, b: nat)
    ensures
        two_to(a) * two_to(b) == two_to(a + b),
    decreases b,
{
    if b > 0 {
        lemma_two_to_add(a, (b - 1) as nat);
        assert(two_to(b) == 2 * two_to((b - 1) as nat));
        assert((a + b - 1) as nat == a + (b - 1) as nat);
        assert(two_to(a + b) == 2 * two_to((a + b - 1) as nat));
        assert(two_to(a) * two_to(b) == two_to(a) * (2 * two_to((b - 1) as nat)));
        assert(two_to(a) * (2 * two_to((b - 1) as nat)) == 2 * (two_to(a) * two_to((b - 1) as nat))) by (nonlinear_arith);
    } else {
        assert(two_to(0) == 1);
        assert(a + b == a);
    }
}

proof fn lemma_bit_length_unique(n: nat, e: nat)
    requires
        n > 0,
        two_to(e) <= n < 2 * two_to(e),
    ensures
        bit_length(n) == e + 1,
    decreases e,
{
    if e == 0 {
        assert(two_to(0) == 1);
        assert(n == 1);
        assert(bit_length(0) == 0);
    } else {
        assert(two_to(e) == 2 * two_to((e - 1) as nat));
        lemma_two_to_pos((e - 1) as nat);
        lemma_bit_length_unique(n / 2, (e - 1) as nat);
    }
}

/// A count of at most 2^24 is a float of exponent `bit_length(n) - 1`, held
/// exactly.
proof fn lemma_count_bits_range(n: u32)
    requires
        0 < n <= 0x100_0000,
    ensures
        (bit_length(n as nat) - 1 + 127) * 0x80_0000 <= f32_bits_of_count(n) < (bit_length(n as nat) - 1 + 128)
            * 0x80_0000,
        bit_length(n as nat) <= 25,
        bit_length(n as nat) - 1 <= 23 ==> f32_bits_of_count(n) == (bit_length(n as nat) - 1 + 127) * 0x80_0000
            + n * two_to((23 - (bit_length(n as nat) - 1)) as nat) - 0x80_0000,
{
    lemma_bit_length(n as nat);
    lemma_two_to_values();
    let e = (bit_length(n as nat) - 1) as nat;
    if e >= 25 {
        lemma_two_to_mono(25, e);
        reveal_with_fuel(two_to, 26);
    }
    if e <= 23 {
        let s = two_to((23 - e) as nat);
        lemma_two_to_add(e, (23 - e) as nat);
        lemma_two_to_add((e + 1) as nat, (23 - e) as nat);
        assert(two_to((e + 1) as nat) == 2 * two_to(e));
        lemma_two_to_pos((23 - e) as nat);
        assert(0x80_0000 <= n * s < 0x100_0000) by (nonlinear_arith)
            requires
                two_to(e) <= n < 2 * two_to(e),
                two_to(e) * s == 0x80_0000,
                s >= 1,
        {
        }
        lemma_two_to_pos((23 - e) as nat);
    } else {
        assert(e == 24);
        assert(n == 0x100_0000);
        let sh = (e - 23) as nat;
        assert(sh == 1);
        assert(n as nat / two_to(sh) == 0x80_0000);
        assert(n as nat % two_to(sh) == 0);
        assert(two_to((sh - 1) as nat) == 1);
    }
}

/// Counts up to 2^24 keep their order as floats.
pub proof fn lemma_count_bits_mono(a: u32, b: u32)
    requires
        a < b <= 0x100_0000,
    ensures
        f32_less(f32_bits_of_count(a), f32_bits_of_count(b)),
{
    lemma_count_bits_range(b);
    let vb = f32_bits_of_count(b);
    let eb = bit_length(b as nat) - 1;
    if a == 0 {
        assert(f32_bits_of_count(a) == 0);
    } else {
        lemma_count_bits_range(a);
        let ea = bit_length(a as nat) - 1;
        lemma_bit_length(a as nat);
        lemma_bit_length(b as nat);
        if ea > eb {
            lemma_two_to_mono(bit_length(b as nat), (ea) as nat);
        }
        if ea == eb {
            lemma_two_to_values();
            if ea > 23 {
                lemma_two_to_mono(24, ea as nat);
            }
            let s = two_to((23 - ea) as nat);
            lemma_two_to_pos((23 - ea) as nat);
            assert(a * s < b * s) by (nonlinear_arith)
                requires
                    a < b,
                    s >= 1,
            {
            }
            assert(f32_bits_of_count(a) < f32_bits_of_count(b));
        }
    }
    let va = f32_bits_of_count(a);
    assert(va < vb);
    assert(vb < 0x4c00_0000);
    assert(!f32_nan(va)) by {
        assert(va / 0x80_0000 < 152);
    }
    assert(!f32_nan(vb)) by {
        assert(vb / 0x80_0000 < 152);
    }
}

} // verus!
