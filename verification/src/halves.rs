//! Half-precision values by their bit patterns.

use vstd::prelude::*;
use vstd::arithmetic::logarithm::log;
use vstd::arithmetic::power2::pow2;

verus! {

/// Largest integer up to which a half holds every integer exactly (2^11; 2049 is not
/// representable).
pub const F16_EXACT_INT: usize = 2048;

/// The sign bit of a half.
pub const HALF_SIGN: u16 = 0x8000;

/// The half that holds the integer `n`: a biased exponent above ten fraction bits.
pub open spec fn half_int(n: int) -> int {
    if n <= 0 {
        0
    } else {
        (log(2, n) + 14) * 1024 + n * 1024 / pow2(log(2, n) as nat) as int
    }
}

/// The half that holds the integer `n`.
pub fn half_of(n: u16) -> (bits: u16)
    requires
        n <= F16_EXACT_INT,
    ensures
        bits == half_int(n as int),
{
    if n == 0 {
        return 0;
    }
    proof {
        vstd::arithmetic::power2::lemma2_to64();
    }
    let mut exponent: u16 = 0;
    let mut power: u32 = 1;
    while power * 2 <= n as u32
        invariant
            0 < n <= 2048,
            power == pow2(exponent as nat),
            1 <= power <= n,
            exponent < power,
        decreases n - power,
    {
        proof {
            vstd::arithmetic::power2::lemma_pow2_unfold((exponent + 1) as nat);
        }
        exponent = exponent + 1;
        power = power * 2;
    }
    proof {
        lemma_log(n as int, exponent as nat);
        lemma_half_int_bounds(n as int, exponent as nat);
        vstd::arithmetic::power2::lemma2_to64();
        if exponent > 11 {
            vstd::arithmetic::power2::lemma_pow2_strictly_increases(11, exponent as nat);
        }
    }
    (exponent + 14) * 1024 + (n as u32 * 1024 / power) as u16
}

/// The exponent of a power of two just below a number is its logarithm.
proof fn lemma_log(n: int, e: nat)
    requires
        pow2(e) <= n < 2 * pow2(e),
    ensures
        log(2, n) == e,
{
    vstd::arithmetic::power2::lemma_pow2(e);
    vstd::arithmetic::logarithm::lemma_log_pow(2, e);
    vstd::arithmetic::power2::lemma_pow2(e + 1);
    vstd::arithmetic::power2::lemma_pow2_unfold(e + 1);
    vstd::arithmetic::power2::lemma_pow2_pos(e);
    vstd::arithmetic::logarithm::lemma_log_is_ordered(2, pow2(e) as int, n);
    let l = log(2, n);
    vstd::arithmetic::logarithm::lemma_log_nonnegative(2, n);
    if l > e {
        // The logarithm of anything below the next power is less than its exponent.
        lemma_log_below(n, e + 1);
    }
}

proof fn lemma_log_below(n: int, e: nat)
    requires
        1 <= n < pow2(e),
    ensures
        log(2, n) < e,
    decreases e,
{
    vstd::arithmetic::power2::lemma2_to64();
    if n < 2 {
        vstd::arithmetic::logarithm::lemma_log0(2, n);
    } else {
        vstd::arithmetic::logarithm::lemma_log_s(2, n);
        assert(e > 0);
        vstd::arithmetic::power2::lemma_pow2_unfold(e);
        lemma_log_below(n / 2, (e - 1) as nat);
    }
}

proof fn lemma_half_int_bounds(n: int, e: nat)
    requires
        pow2(e) <= n < 2 * pow2(e),
    ensures
        1024 <= n * 1024 / pow2(e) as int <= 2047,
{
    let p = pow2(e) as int;
    vstd::arithmetic::power2::lemma_pow2_pos(e);
    assert(1024 <= n * 1024 / p) by (nonlinear_arith)
        requires
            0 < p <= n,
    ;
    assert(n * 1024 / p <= 2047) by (nonlinear_arith)
        requires
            0 < p,
            n < 2 * p,
    ;
}

/// The order of halves as the IEEE 754 total order has it: negative zero below positive
/// zero.
pub open spec fn half_rank(bits: u16) -> int {
    if bits < HALF_SIGN {
        bits as int
    } else {
        -(bits - HALF_SIGN) - 1
    }
}

/// [`half_rank`], computed.
pub fn half_rank_of(bits: u16) -> (r: i32)
    ensures
        r == half_rank(bits),
{
    if bits < HALF_SIGN {
        bits as i32
    } else {
        -((bits - HALF_SIGN) as i32) - 1
    }
}

/// The lesser of two halves.
pub open spec fn half_min(a: u16, b: u16) -> u16 {
    if half_rank(b) < half_rank(a) {
        b
    } else {
        a
    }
}

/// The greater of two halves.
pub open spec fn half_max(a: u16, b: u16) -> u16 {
    if half_rank(b) > half_rank(a) {
        b
    } else {
        a
    }
}

/// [`half_min`], computed.
pub fn min_half(a: u16, b: u16) -> (m: u16)
    ensures
        m == half_min(a, b),
{
    if half_rank_of(b) < half_rank_of(a) {
        b
    } else {
        a
    }
}

/// [`half_max`], computed.
pub fn max_half(a: u16, b: u16) -> (m: u16)
    ensures
        m == half_max(a, b),
{
    if half_rank_of(b) > half_rank_of(a) {
        b
    } else {
        a
    }
}

/// The half stands for a number, not for an infinity or for none.
pub open spec fn is_number(bits: u16) -> bool {
    bits % HALF_SIGN < 0x7C00
}

/// The size of the number that a half without its sign stands for, in units of the least
/// number that a half can hold. The infinity counts as the number above the largest.
pub open spec fn half_units(bits: int) -> int {
    if bits < 1024 {
        bits
    } else {
        (1024 + bits % 1024) * pow2((bits / 1024 - 1) as nat)
    }
}

/// The number that a half stands for, in those units.
pub open spec fn half_number(bits: u16) -> int {
    if bits < HALF_SIGN {
        half_units(bits as int)
    } else {
        -half_units(bits - HALF_SIGN)
    }
}

/// [`is_number`], computed.
pub fn is_number_half(bits: u16) -> (yes: bool)
    ensures
        yes == is_number(bits),
{
    bits % HALF_SIGN < 0x7C00
}

/// [`half_number`], computed.
pub fn half_number_of(bits: u16) -> (n: i64)
    ensures
        n == half_number(bits),
        -0x400_0000_0000 < n < 0x400_0000_0000,
{
    proof {
        vstd::arithmetic::power2::lemma2_to64();
    }
    let size: u16 = bits % HALF_SIGN;
    let mut n: i64 = size as i64;
    if size >= 1024 {
        n = 1024 + (size % 1024) as i64;
        let ghost base = n as int;
        let doublings: u16 = size / 1024 - 1;
        let mut i: u16 = 0;
        while i < doublings
            invariant
                i <= doublings <= 30,
                1024 <= base < 2048,
                n == base * pow2(i as nat),
                pow2(30) == 0x4000_0000,
            decreases doublings - i,
        {
            proof {
                vstd::arithmetic::power2::lemma_pow2_unfold((i + 1) as nat);
                vstd::arithmetic::power2::lemma_pow2_strictly_increases(i as nat, 30);
                assert(base * (2 * pow2(i as nat)) == 2 * (base * pow2(i as nat)))
                    by (nonlinear_arith);
                assert(base * pow2(i as nat) <= 2048 * 0x4000_0000) by (nonlinear_arith)
                    requires
                        0 <= base < 2048,
                        pow2(i as nat) <= 0x4000_0000,
                ;
            }
            n = n * 2;
            i = i + 1;
        }
        proof {
            if doublings < 30 {
                vstd::arithmetic::power2::lemma_pow2_strictly_increases(doublings as nat, 30);
            }
            assert(0 <= base * pow2(doublings as nat) <= 2047 * 0x4000_0000) by (nonlinear_arith)
                requires
                    0 <= base <= 2047,
                    pow2(doublings as nat) <= 0x4000_0000,
            ;
        }
    }
    if bits < HALF_SIGN {
        n
    } else {
        -n
    }
}

proof fn lemma_half_units_order(a: int, b: int)
    requires
        0 <= a <= b < HALF_SIGN,
    ensures
        0 <= half_units(a) <= half_units(b),
{
    let p = pow2((a / 1024 - 1) as nat) as int;
    let q = pow2((b / 1024 - 1) as nat) as int;
    let f = a % 1024;
    let g = b % 1024;
    if b >= 1024 {
        vstd::arithmetic::power2::lemma_pow2_pos((b / 1024 - 1) as nat);
        assert((1024 + g) * q >= 1024 * q) by (nonlinear_arith)
            requires
                0 <= g,
                0 < q,
        ;
        if a >= 1024 {
            vstd::arithmetic::power2::lemma_pow2_pos((a / 1024 - 1) as nat);
            assert(0 <= (1024 + f) * p <= 2048 * p) by (nonlinear_arith)
                requires
                    0 <= f < 1024,
                    0 < p,
            ;
            if a / 1024 == b / 1024 {
                assert((1024 + f) * p <= (1024 + g) * q) by (nonlinear_arith)
                    requires
                        0 <= f <= g,
                        p == q,
                        0 < p,
                ;
            } else {
                vstd::arithmetic::power2::lemma_pow2_unfold((a / 1024) as nat);
                assert(2 * p <= q) by {
                    if a / 1024 < b / 1024 - 1 {
                        vstd::arithmetic::power2::lemma_pow2_strictly_increases(
                            (a / 1024) as nat,
                            (b / 1024 - 1) as nat,
                        );
                    }
                }
            }
        }
    }
}

/// The order of halves is that of the numbers they stand for.
pub proof fn lemma_half_number_order(a: u16, b: u16)
    requires
        half_rank(a) <= half_rank(b),
    ensures
        half_number(a) <= half_number(b),
{
    let size = |bits: u16| if bits < HALF_SIGN { bits as int } else { bits - HALF_SIGN };
    lemma_half_units_order(0, size(a));
    lemma_half_units_order(0, size(b));
    if size(a) <= size(b) {
        lemma_half_units_order(size(a), size(b));
    } else {
        lemma_half_units_order(size(b), size(a));
    }
}

/// No two integers share a half, so a reader gets back the integer that was stored.
pub proof fn lemma_half_int_exact(a: int, b: int)
    requires
        0 <= a <= F16_EXACT_INT,
        0 <= b <= F16_EXACT_INT,
        half_int(a) == half_int(b),
    ensures
        a == b,
{
    if a > 0 && b > 0 {
        lemma_half_int_parts(a);
        lemma_half_int_parts(b);
        let ea = log(2, a) as nat;
        let eb = log(2, b) as nat;
        let p = pow2(ea) as int;
        lemma_half_int_bounds(a, ea);
        lemma_half_int_bounds(b, eb);
        assert(ea == eb);
        assert(a * 1024 / p == b * 1024 / p);
        lemma_power_divides(ea);
        let k = 1024int / p;
        // Below 2^11 the division leaves nothing over.
        if ea <= 10 {
            assert(a * 1024 == a * k * p) by (nonlinear_arith)
                requires
                    k * p == 1024,
            ;
            assert(b * 1024 == b * k * p) by (nonlinear_arith)
                requires
                    k * p == 1024,
            ;
            vstd::arithmetic::div_mod::lemma_div_by_multiple(a * k, p);
            vstd::arithmetic::div_mod::lemma_div_by_multiple(b * k, p);
            assert(a == b) by (nonlinear_arith)
                requires
                    a * k == b * k,
                    0 < k,
            ;
        }
    } else if a > 0 {
        lemma_half_int_parts(a);
        lemma_half_int_bounds(a, log(2, a) as nat);
    } else if b > 0 {
        lemma_half_int_parts(b);
        lemma_half_int_bounds(b, log(2, b) as nat);
    }
}

proof fn lemma_half_int_parts(n: int)
    requires
        1 <= n <= F16_EXACT_INT,
    ensures
        0 <= log(2, n) <= 11,
        pow2(log(2, n) as nat) <= n < 2 * pow2(log(2, n) as nat),
        log(2, n) == 11 ==> n == 2048,
{
    vstd::arithmetic::power2::lemma2_to64();
    lemma_log_bounds(n);
    lemma_log_below(n, 12);
}

proof fn lemma_log_bounds(n: int)
    requires
        1 <= n,
    ensures
        0 <= log(2, n),
        pow2(log(2, n) as nat) <= n < 2 * pow2(log(2, n) as nat),
    decreases n,
{
    vstd::arithmetic::power2::lemma2_to64();
    if n < 2 {
        vstd::arithmetic::logarithm::lemma_log0(2, n);
    } else {
        vstd::arithmetic::logarithm::lemma_log_s(2, n);
        lemma_log_bounds(n / 2);
        vstd::arithmetic::power2::lemma_pow2_unfold(log(2, n) as nat);
    }
}

proof fn lemma_power_divides(e: nat)
    requires
        e <= 11,
    ensures
        e <= 10 ==> (1024int / pow2(e) as int) * pow2(e) == 1024 && 1024int / pow2(e) as int > 0,
{
    vstd::arithmetic::power2::lemma2_to64();
    if e <= 10 {
        let rest = (10 - e) as nat;
        vstd::arithmetic::power2::lemma_pow2_adds(rest, e);
        vstd::arithmetic::power2::lemma_pow2_pos(e);
        vstd::arithmetic::power2::lemma_pow2_pos(rest);
        vstd::arithmetic::div_mod::lemma_div_by_multiple(pow2(rest) as int, pow2(e) as int);
    }
}

/// A half gives back the integer it holds: the number it stands for is that integer, in
/// units of the least number that a half can hold.
#[verifier::spinoff_prover]
pub proof fn lemma_half_int_reads_back(n: int)
    requires
        0 <= n <= F16_EXACT_INT,
    ensures
        0 <= half_int(n) < 0x7C00,
        half_units(half_int(n)) == n * 0x100_0000,
{
    if n > 0 {
        lemma_half_int_parts(n);
        let e = log(2, n) as nat;
        let p = pow2(e) as int;
        lemma_half_int_bounds(n, e);
        lemma_power_divides(e);
        let q = n * 1024 / p;
        let bits = half_int(n);
        assert(bits == (e + 14) * 1024 + q);
        assert(bits / 1024 == e + 15);
        assert(bits % 1024 == q - 1024);
        assert(q * p == n * 1024) by {
            if e <= 10 {
                let d = 1024int / p;
                assert(d * p == 1024);
                assert(n * 1024 == (n * d) * p) by (nonlinear_arith)
                    requires
                        d * p == 1024,
                ;
                vstd::arithmetic::div_mod::lemma_div_multiples_vanish(n * d, p);
                assert(p * (n * d) == (n * d) * p) by (nonlinear_arith);
                assert(q == n * d);
            } else {
                vstd::arithmetic::power2::lemma2_to64();
                assert(n == 2048 && p == 2048);
                assert(n * 1024 / p == 1024) by (nonlinear_arith)
                    requires
                        n == 2048,
                        p == 2048,
                ;
            }
        }
        vstd::arithmetic::power2::lemma2_to64();
        vstd::arithmetic::power2::lemma_pow2_adds(e, 14);
        assert(pow2(14) == 0x4000);
        assert(half_units(bits) == q * (p * 0x4000));
        assert(q * (p * 0x4000) == (q * p) * 0x4000) by (nonlinear_arith);
    }
}

/// A half stands for a number exactly where that is below 65536 in size; every pattern with
/// the sign stands for the negative of the one without.
pub proof fn lemma_half_is_number(bits: u16)
    requires
        bits < HALF_SIGN,
    ensures
        is_number(bits) <==> half_number(bits) < 65536 * 0x100_0000,
        half_number((bits + HALF_SIGN) as u16) == -half_number(bits),
        is_number((bits + HALF_SIGN) as u16) == is_number(bits),
        0 <= half_number(bits),
{
    vstd::arithmetic::power2::lemma2_to64();
    lemma_half_units_order(0, bits as int);
    assert(half_units(0x7BFF) == 2047 * pow2(29));
    assert(half_units(0x7C00) == 1024 * pow2(30));
    if bits < 0x7C00 {
        lemma_half_units_order(bits as int, 0x7BFF);
    } else {
        lemma_half_units_order(0x7C00, bits as int);
    }
}

/// The lesser and the greater of two halves are the two of them, in the order of the numbers
/// they stand for.
pub proof fn lemma_half_min_max(a: u16, b: u16)
    ensures
        half_min(a, b) == a || half_min(a, b) == b,
        half_max(a, b) == a || half_max(a, b) == b,
        half_number(half_min(a, b)) <= half_number(a) <= half_number(half_max(a, b)),
        half_number(half_min(a, b)) <= half_number(b) <= half_number(half_max(a, b)),
        half_min(a, b) == a <==> half_max(a, b) == b,
{
    lemma_half_number_order(half_min(a, b), a);
    lemma_half_number_order(half_min(a, b), b);
    lemma_half_number_order(a, half_max(a, b));
    lemma_half_number_order(b, half_max(a, b));
}

} // verus!
