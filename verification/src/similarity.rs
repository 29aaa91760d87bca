//! Similarity ratios: IEEE 754 double-precision numbers, held by their bit patterns.
//!
//! A ratio of two counts is the quotient of the doubles nearest to the counts, rounded to the
//! nearest double, ties to the even one. The bit patterns of non-negative doubles are ordered
//! as the numbers are.
use vstd::prelude::*;
use vstd::arithmetic::power2::*;

verus! {

/// 2 to the power 52: one, in units of the last place of a significand.
pub const UNIT: u64 = 0x10_0000_0000_0000;

/// The bit pattern of 1.
pub const ONE: u64 = 0x3FF0_0000_0000_0000;

/// The bit pattern of positive infinity; greater patterns without the sign are not numbers.
pub const INFINITY: u64 = 0x7FF0_0000_0000_0000;

/// The sign bit.
pub const SIGN: u64 = 0x8000_0000_0000_0000;

/// A double-precision number.
#[derive(Debug, Clone, Copy, PartialEq, Eq, Structural)]
pub struct Similarity {
    pub bits: u64,
}

/// `num / den` rounded to the nearest integer, ties to the even one.
pub open spec fn round_half_even(num: nat, den: nat) -> nat {
    let q = num / den;
    let r = num % den;
    if 2 * r > den || (2 * r == den && q % 2 == 1) {
        q + 1
    } else {
        q
    }
}

/// The distance between the doubles at the magnitude of `x`, or 1 where it is smaller.
pub open spec fn spacing(x: nat) -> nat
    decreases x,
{
    if x < 2 * UNIT {
        1
    } else {
        2 * spacing(x / 2)
    }
}

/// The double nearest to `x`, ties to the one with an even significand.
pub open spec fn nearest_double(x: nat) -> nat {
    round_half_even(x, spacing(x)) * spacing(x)
}

/// How often `num` is doubled until it reaches `target`.
pub open spec fn doublings(num: nat, target: nat) -> nat
    decreases (if num < target { target - num } else { 0 }),
{
    if num == 0 || num >= target {
        0
    } else {
        1 + doublings(2 * num, target)
    }
}

/// `num`, doubled until it reaches `target`.
pub open spec fn scaled(num: nat, target: nat) -> nat
    decreases (if num < target { target - num } else { 0 }),
{
    if num == 0 || num >= target {
        num
    } else {
        scaled(2 * num, target)
    }
}

/// The bit pattern of the double nearest to `k / n`, for `0 < k <= n`: the exponent, and a
/// significand between `UNIT` and `2 * UNIT` whose leading bit the exponent's field absorbs.
pub open spec fn quotient_bits(k: nat, n: nat) -> int {
    (1023 - doublings(k * UNIT as nat, n * UNIT as nat)) * UNIT + round_half_even(
        scaled(k * UNIT as nat, n * UNIT as nat),
        n,
    ) - UNIT
}

/// The bit pattern of the ratio of `part` to `whole`, with zero for an empty whole.
pub open spec fn ratio_bits(part: nat, whole: nat) -> int {
    if part == 0 || whole == 0 {
        0
    } else {
        quotient_bits(nearest_double(part), nearest_double(whole))
    }
}

/// Whether the non-negative number `a` is at least the number `t`. Nothing is at least what is
/// not a number.
pub open spec fn at_least(a: Similarity, t: Similarity) -> bool {
    if t.bits < SIGN {
        t.bits <= a.bits
    } else {
        t.bits - SIGN <= INFINITY
    }
}

/// The distance between the doubles at the magnitude of `x`.
fn spacing_of(x: u64) -> (u: u64)
    ensures
        u == spacing(x as nat),
        1 <= u,
        u <= x || u == 1,
    decreases x,
{
    if x < 2 * UNIT {
        1
    } else {
        2 * spacing_of(x / 2)
    }
}

/// `num / den` rounded to the nearest integer, ties to the even one.
fn round_quotient(num: u128, den: u128) -> (q: u128)
    requires
        0 < den < 0x1_0000_0000_0000_0000_0000_0000_0000,
        num < 0x100_0000_0000_0000_0000_0000_0000_0000,
    ensures
        q == round_half_even(num as nat, den as nat),
        q <= num + 1,
{
    let q: u128 = num / den;
    let r: u128 = num % den;
    assert(q <= num) by (nonlinear_arith)
        requires
            q == num / den,
            den >= 1,
            num >= 0,
    ;
    if 2 * r > den || (2 * r == den && q % 2 == 1) {
        q + 1
    } else {
        q
    }
}

proof fn lemma_round_bounds(num: nat, den: nat)
    requires
        den > 0,
    ensures
        num / den <= round_half_even(num, den) <= num / den + 1,
        round_half_even(num, den) * den <= num + den,
        num % den == 0 ==> round_half_even(num, den) == num / den,
        num / den >= 1 ==> round_half_even(num, den) * den >= 1,
{
    let q = num / den;
    let r = num % den;
    assert(q * den <= num) by (nonlinear_arith)
        requires
            q == num / den,
            den > 0,
    ;
    assert((q + 1) * den == q * den + den) by (nonlinear_arith);
    if q >= 1 {
        assert(q * den >= 1) by (nonlinear_arith)
            requires
                q >= 1,
                den >= 1,
        ;
    }
}

proof fn lemma_spacing(x: nat)
    ensures
        spacing(x) >= 1,
        x < 2 * UNIT * spacing(x),
        spacing(x) > 1 ==> x >= UNIT * spacing(x),
        spacing(x) <= x || spacing(x) == 1,
        spacing(x) == 1 <==> x < 2 * UNIT,
    decreases x,
{
    if x >= 2 * UNIT {
        lemma_spacing(x / 2);
    }
}

proof fn lemma_nearest_double_positive(x: nat)
    requires
        x >= 1,
    ensures
        1 <= nearest_double(x) <= 2 * x,
{
    lemma_spacing(x);
    let u = spacing(x);
    assert(x / u >= 1) by (nonlinear_arith)
        requires
            x >= u,
            u >= 1,
    ;
    lemma_round_bounds(x, u);
}

/// The double nearest to a count.
fn count_as_double(x: u64) -> (d: u128)
    ensures
        d == nearest_double(x as nat),
        x > 0 ==> d > 0,
        d <= 2 * x,
{
    proof {
        lemma_spacing(x as nat);
        if x > 0 {
            lemma_nearest_double_positive(x as nat);
        }
        lemma_round_bounds(x as nat, spacing(x as nat));
    }
    let u: u128 = spacing_of(x) as u128;
    let q: u128 = round_quotient(x as u128, u);
    proof {
        if x == 0 {
            assert(u == 1);
            assert(0nat / 1nat == 0);
            assert(q * u == 0) by (nonlinear_arith)
                requires
                    q == 0,
            ;
        }
    }
    q * u
}

proof fn lemma_spacing_monotone(x: nat, y: nat)
    requires
        x <= y,
    ensures
        spacing(x) == spacing(y) || 2 * spacing(x) <= spacing(y),
    decreases y,
{
    lemma_spacing(x);
    lemma_spacing(y);
    if x >= 2 * UNIT {
        lemma_spacing_monotone(x / 2, y / 2);
    } else if y >= 2 * UNIT {
        lemma_spacing(y / 2);
    }
}

/// Rounding to doubles keeps the order.
proof fn lemma_nearest_double_monotone(x: nat, y: nat)
    requires
        x <= y,
    ensures
        nearest_double(x) <= nearest_double(y),
{
    let u = spacing(x);
    let v = spacing(y);
    lemma_spacing(x);
    lemma_spacing(y);
    lemma_spacing_monotone(x, y);
    lemma_round_bounds(x, u);
    lemma_round_bounds(y, v);
    let a = round_half_even(x, u);
    let b = round_half_even(y, v);
    if u == v {
        assert(x / u < y / u || (x / u == y / u && x % u <= y % u)) by (nonlinear_arith)
            requires
                x <= y,
                u >= 1,
        ;
        assert(a <= b);
        assert(a * u <= b * u) by (nonlinear_arith)
            requires
                a <= b,
        ;
    } else {
        assert(x / u < 2 * UNIT) by (nonlinear_arith)
            requires
                x < 2 * UNIT * u,
                u >= 1,
        ;
        assert(a * u <= 2 * UNIT * u) by (nonlinear_arith)
            requires
                a <= 2 * UNIT,
        ;
        assert(y / v >= UNIT) by (nonlinear_arith)
            requires
                y >= UNIT * v,
                v >= 1,
        ;
        assert(b * v >= UNIT * v) by (nonlinear_arith)
            requires
                b >= UNIT,
        ;
        assert(2 * UNIT * u <= UNIT * v) by (nonlinear_arith)
            requires
                2 * u <= v,
        ;
    }
}

/// The significand of a quotient lies between `UNIT` and `2 * UNIT`.
proof fn lemma_significand(num: nat, n: nat)
    requires
        n >= 1,
        n * UNIT <= num < 2 * (n * UNIT),
    ensures
        UNIT <= round_half_even(num, n) <= 2 * UNIT,
        num == n * UNIT ==> round_half_even(num, n) == UNIT,
{
    lemma_round_bounds(num, n);
    assert(num / n >= UNIT) by (nonlinear_arith)
        requires
            n >= 1,
            n * UNIT <= num,
    ;
    assert(num / n < 2 * UNIT) by (nonlinear_arith)
        requires
            n >= 1,
            num < 2 * (n * UNIT),
    ;
    if num == n * UNIT {
        assert(num % n == 0 && num / n == UNIT) by (nonlinear_arith)
            requires
                n >= 1,
                num == n * UNIT,
        ;
    }
}

/// The ratio of `part` to `whole`, with zero for an empty whole.
pub fn ratio(part: usize, whole: usize) -> (res: Similarity)
    requires
        part <= whole,
    ensures
        res.bits == ratio_bits(part as nat, whole as nat),
        part > 0 ==> res.bits > 0,
{
    if part == 0 || whole == 0 {
        return Similarity { bits: 0 };
    }
    let k: u128 = count_as_double(part as u64);
    let n: u128 = count_as_double(whole as u64);
    let unit: u128 = UNIT as u128;
    let target: u128 = n * unit;
    let mut num: u128 = k * unit;
    let mut d: u64 = 0;
    proof {
        lemma_nearest_double_monotone(part as nat, whole as nat);
        lemma2_to64();
        lemma_pow2_unfold(65);
        assert(pow2(0) == 1);
    }
    while num < target
        invariant
            target == n * UNIT,
            n <= 2 * u64::MAX,
            num < 2 * target,
            num >= UNIT * pow2(d as nat),
            d <= 65,
            pow2(65) > 2 * u64::MAX,
            d + doublings(num as nat, target as nat) == doublings(
                k as nat * UNIT as nat,
                target as nat,
            ),
            scaled(num as nat, target as nat) == scaled(k as nat * UNIT as nat, target as nat),
        decreases (if num < target { target - num } else { 0 }),
    {
        proof {
            lemma_pow2_pos(d as nat);
            lemma_pow2_unfold(d as nat + 1);
        }
        num = 2 * num;
        d = d + 1;
    }
    let q: u128 = round_quotient(num, n);
    proof {
        lemma_significand(num as nat, n as nat);
    }
    let bits: u128 = (1023 - d as u128) * unit + q - unit;
    Similarity { bits: bits as u64 }
}

/// Whether the non-negative number `a` is at least the number `t`.
pub fn reaches(a: Similarity, t: Similarity) -> (res: bool)
    ensures
        res == at_least(a, t),
{
    if t.bits < SIGN {
        t.bits <= a.bits
    } else {
        t.bits - SIGN <= INFINITY
    }
}

/// Doubling, counted.
proof fn lemma_scaled(num: nat, target: nat)
    requires
        0 < num <= target,
    ensures
        scaled(num, target) == num * pow2(doublings(num, target)),
        target <= scaled(num, target) < 2 * target,
        doublings(num, target) == 0 <==> num == target,
        num < target ==> num * pow2((doublings(num, target) - 1) as nat) < target,
    decreases target - num,
{
    lemma2_to64();
    if num < target {
        let d = doublings(2 * num, target);
        if 2 * num <= target {
            lemma_scaled(2 * num, target);
        } else {
            assert(doublings(2 * num, target) == 0);
            assert(scaled(2 * num, target) == 2 * num);
            assert((2 * num) * pow2(0) == 2 * num) by (nonlinear_arith)
                requires
                    pow2(0) == 1,
            ;
        }
        lemma_pow2_unfold(d + 1);
        assert((2 * num) * pow2(d) == num * (2 * pow2(d))) by (nonlinear_arith);
        if d >= 1 {
            lemma_pow2_unfold(d);
            assert((2 * num) * pow2((d - 1) as nat) == num * (2 * pow2((d - 1) as nat)))
                by (nonlinear_arith);
        }
        assert(num * pow2(0) == num) by (nonlinear_arith)
            requires
                pow2(0) == 1,
        ;
    } else {
        assert(num * pow2(0) == num) by (nonlinear_arith)
            requires
                pow2(0) == 1,
        ;
    }
}

/// A count below `2 * UNIT` is a double.
proof fn lemma_nearest_double_exact(x: nat)
    requires
        x < 2 * UNIT,
    ensures
        nearest_double(x) == x,
{
    assert(x / 1 == x && x % 1 == 0);
    assert(x * 1 == x);
}

/// The ratio of a part to its whole lies between 0 and 1, is 0 only for no part, and is 1 for
/// the whole itself.
pub proof fn law_ratio_range(part: nat, whole: nat)
    requires
        part <= whole <= u64::MAX,
    ensures
        0 <= ratio_bits(part, whole) <= ONE,
        part > 0 ==> ratio_bits(part, whole) > 0,
        part == whole && whole > 0 ==> ratio_bits(part, whole) == ONE,
{
    if part > 0 {
        let k = nearest_double(part);
        let n = nearest_double(whole);
        lemma_nearest_double_positive(part);
        lemma_nearest_double_positive(whole);
        lemma_nearest_double_monotone(part, whole);
        let num = k * UNIT as nat;
        let target = n * UNIT as nat;
        lemma_scaled(num, target);
        lemma_significand(scaled(num, target), n);
        let d = doublings(num, target);
        if d > 0 {
            lemma2_to64();
            lemma_pow2_unfold(65);
            if d > 66 {
                lemma_pow2_strictly_increases(65, (d - 1) as nat);
            }
            let e = pow2((d - 1) as nat);
            assert(num * e >= UNIT * e) by (nonlinear_arith)
                requires
                    num >= UNIT,
            ;
            assert(e < n);
            assert(d <= 66);
        }
    }
}

/// Rounding tells apart what is more than one apart.
proof fn lemma_round_strict(x: nat, y: nat, n: nat)
    requires
        n >= 1,
        x >= y + n + 1,
    ensures
        round_half_even(x, n) > round_half_even(y, n),
{
    let a = y / n;
    let r = y % n;
    assert(y == a * n + r) by (nonlinear_arith)
        requires
            n >= 1,
            a == y / n,
            r == y % n,
    ;
    let b = x / n;
    let t = x % n;
    assert(x == b * n + t) by (nonlinear_arith)
        requires
            n >= 1,
            b == x / n,
            t == x % n,
    ;
    assert(b >= a + 1) by (nonlinear_arith)
        requires
            x == b * n + t,
            y == a * n + r,
            x >= y + n + 1,
            t < n,
            n >= 1,
    ;
    if b == a + 1 {
        assert(b * n == a * n + n) by (nonlinear_arith)
            requires
                b == a + 1,
        ;
    }
}

/// More of the whole is a greater ratio, as long as the whole is below 2 to the power 53.
pub proof fn law_ratio_strictly_increases(part: nat, more: nat, whole: nat)
    requires
        part < more <= whole < 2 * UNIT,
    ensures
        ratio_bits(part, whole) < ratio_bits(more, whole),
{
    law_ratio_range(more, whole);
    if part > 0 {
        let n = whole;
        lemma_nearest_double_exact(part);
        lemma_nearest_double_exact(more);
        lemma_nearest_double_exact(whole);
        let a = part * UNIT as nat;
        let b = more * UNIT as nat;
        let target = n * UNIT as nat;
        lemma_scaled(a, target);
        lemma_scaled(b, target);
        let da = doublings(a, target);
        let db = doublings(b, target);
        let sa = scaled(a, target);
        let sb = scaled(b, target);
        lemma_significand(sa, n);
        lemma_significand(sb, n);
        let ra = round_half_even(sa, n);
        let rb = round_half_even(sb, n);
        assert(da >= 1);
        let ea = pow2(da);
        let eb = pow2(db);
        lemma2_to64();
        lemma_pow2_unfold(da);
        lemma_pow2_pos((da - 1) as nat);
        assert(ea >= 2);
        if db > da {
            if da < db - 1 {
                lemma_pow2_strictly_increases(da, (db - 1) as nat);
            }
            let e1 = pow2((db - 1) as nat);
            assert(a * ea <= b * e1) by (nonlinear_arith)
                requires
                    a <= b,
                    ea <= e1,
            ;
            assert(false);
        }
        if da == db {
            assert(b * ea - a * ea == (b - a) * ea) by (nonlinear_arith);
            assert((b - a) * ea >= UNIT * 2) by (nonlinear_arith)
                requires
                    b - a >= UNIT,
                    ea >= 2,
            ;
            lemma_round_strict(sb, sa, n);
        } else if da == db + 1 && ra == 2 * UNIT && rb == UNIT {
            assert(ea == 2 * eb);
            // Both sides were rounded towards the power of two between them.
            assert(2 * sa >= (4 * UNIT - 1) * n) by {
                let q = sa / n;
                let r = sa % n;
                assert(sa == q * n + r) by (nonlinear_arith)
                    requires
                        n >= 1,
                        q == sa / n,
                        r == sa % n,
                ;
                lemma_round_bounds(sa, n);
                assert(q < 2 * UNIT) by (nonlinear_arith)
                    requires
                        sa == q * n + r,
                        sa < 2 * (n * UNIT),
                        n >= 1,
                        r >= 0,
                ;
                assert(q == 2 * UNIT - 1);
                assert(2 * r >= n);
                assert(q * n == (2 * UNIT - 1) * n);
                assert(2 * ((2 * UNIT - 1) * n) + n == (4 * UNIT - 1) * n) by (nonlinear_arith);
            }
            assert(2 * sb <= (2 * UNIT + 1) * n) by {
                let q = sb / n;
                let r = sb % n;
                assert(sb == q * n + r) by (nonlinear_arith)
                    requires
                        n >= 1,
                        q == sb / n,
                        r == sb % n,
                ;
                lemma_round_bounds(sb, n);
                assert(q >= UNIT) by (nonlinear_arith)
                    requires
                        sb == q * n + r,
                        sb >= n * UNIT,
                        r < n,
                        n >= 1,
                ;
                assert(q == UNIT);
                assert(2 * r <= n);
                assert(2 * (UNIT * n) + n == (2 * UNIT + 1) * n) by (nonlinear_arith);
            }
            assert(2 * (b * eb) == b * ea) by (nonlinear_arith)
                requires
                    ea == 2 * eb,
            ;
            assert(b * ea - a * ea == (b - a) * ea) by (nonlinear_arith);
            assert((b - a) * ea >= UNIT * ea) by (nonlinear_arith)
                requires
                    b - a >= UNIT,
            ;
            assert(2 * sb - sa >= UNIT * ea);
            assert((4 * UNIT - 1) * n == 4 * (UNIT * n) - n) by (nonlinear_arith);
            assert((2 * UNIT + 1) * n == 2 * (UNIT * n) + n) by (nonlinear_arith);
            assert(2 * (UNIT * ea) <= 3 * n);
            assert(ea < 3);
            assert(da == 1) by {
                if da > 1 {
                    lemma_pow2_strictly_increases(1, da);
                }
            }
            assert(sb == n * UNIT);
            assert(false);
        } else if da > db + 1 {
            assert((1023 - da) * UNIT <= (1021 - db) * UNIT);
        }
    }
}

/// Rounding goes to a nearest integer, and to an even one where two are as near.
proof fn lemma_round_nearest(num: nat, den: nat)
    requires
        den >= 1,
    ensures
        ({
            let error = 2 * (round_half_even(num, den) * den) - 2 * num;
            &&& -den <= error <= den
            &&& error == den || error == -den ==> round_half_even(num, den) % 2 == 0
        }),
{
    let q = num / den;
    let r = num % den;
    assert(num == q * den + r) by (nonlinear_arith)
        requires
            den >= 1,
            q == num / den,
            r == num % den,
    ;
    assert((q + 1) * den == q * den + den) by (nonlinear_arith);
}

/// The ratio of nothing, and the ratio to nothing, is zero.
pub proof fn law_ratio_of_nothing(part: nat, whole: nat)
    ensures
        ratio_bits(0, whole) == 0,
        ratio_bits(part, 0) == 0,
{
}

proof fn lemma_spacing_is_power(x: nat) -> (j: nat)
    ensures
        spacing(x) == pow2(j),
        j == 0 <==> spacing(x) == 1,
    decreases x,
{
    lemma2_to64();
    lemma_spacing(x);
    if x < 2 * UNIT {
        0
    } else {
        let below = lemma_spacing_is_power(x / 2);
        lemma_pow2_unfold(below + 1);
        lemma_spacing(x / 2);
        below + 1
    }
}

/// A count below 2 to the power 53 is a double. A greater one is rounded to a nearest multiple
/// of a power of two, of which it has at least 2 to the power 52, and to an even multiple where
/// two are as near.
pub proof fn law_count_is_nearest(x: nat)
    ensures
        x < 0x20_0000_0000_0000 ==> nearest_double(x) == x,
        exists|j: nat|
            {
                let u = #[trigger] pow2(j);
                &&& j > 0 ==> 0x10_0000_0000_0000 * u <= x
                &&& x < 0x20_0000_0000_0000 * u
                &&& -u <= 2 * nearest_double(x) - 2 * x <= u
                &&& exists|q: nat|
                    {
                        &&& nearest_double(x) == #[trigger] (q * u)
                        &&& 2 * nearest_double(x) - 2 * x == u || 2 * x - 2 * nearest_double(x)
                            == u ==> q % 2 == 0
                    }
            },
{
    lemma_spacing(x);
    let j = lemma_spacing_is_power(x);
    let u = pow2(j);
    lemma_round_nearest(x, u);
    let q = round_half_even(x, u);
    assert(nearest_double(x) == q * u);
    if x < 2 * UNIT {
        lemma_nearest_double_exact(x);
    }
}

/// A ratio is the double nearest to the quotient of the counts, taken as doubles. Its bits are an
/// exponent `e` and a significand `f`, which stand for `f / p`; no other significand is nearer
/// to the quotient, and of two that are as near it is the even one.
pub proof fn law_ratio_is_nearest(part: nat, whole: nat)
    requires
        0 < part <= whole <= u64::MAX,
    ensures
        ({
            let bits = ratio_bits(part, whole);
            let k = nearest_double(part);
            let n = nearest_double(whole);
            let e = bits / 0x10_0000_0000_0000;
            let f = 0x10_0000_0000_0000 + bits % 0x10_0000_0000_0000;
            let p = pow2((1075 - e) as nat);
            let error = 2 * (f * n) - 2 * (k * p);
            &&& 0 < e <= 1023
            &&& -n <= error <= n
            &&& error == n || error == -n ==> f % 2 == 0
        }),
{
    law_ratio_range(part, whole);
    lemma_nearest_double_positive(part);
    lemma_nearest_double_positive(whole);
    lemma_nearest_double_monotone(part, whole);
    let k = nearest_double(part);
    let n = nearest_double(whole);
    let num = k * UNIT as nat;
    let target = n * UNIT as nat;
    lemma_scaled(num, target);
    let d = doublings(num, target);
    let sc = scaled(num, target);
    lemma_significand(sc, n);
    lemma_round_nearest(sc, n);
    let r = round_half_even(sc, n);
    let bits = ratio_bits(part, whole);
    lemma2_to64();
    lemma2_to64_rest();
    lemma_pow2_adds(52, d);
    let pd = pow2(d);
    assert(k * (UNIT * pd) == (k * UNIT) * pd) by (nonlinear_arith);
    assert(bits == (1023 - d) * UNIT + r - UNIT);
    lemma_few_doublings(num, target, n);
    if r < 2 * UNIT {
        assert(bits / (UNIT as int) == 1023 - d && bits % (UNIT as int) == r - UNIT) by {
            assert(bits == (1023 - d) * UNIT + (r - UNIT));
        }
    } else {
        assert(bits == (1024 - d) * UNIT);
        assert(bits / (UNIT as int) == 1024 - d && bits % (UNIT as int) == 0);
        lemma_pow2_unfold(52 + d);
        let p = pow2((51 + d) as nat);
        assert(2 * (k * p) == k * (2 * p)) by (nonlinear_arith);
        assert(2 * (UNIT * n) == r * n) by (nonlinear_arith)
            requires
                r == 2 * UNIT,
        ;
    }
}

proof fn lemma_few_doublings(num: nat, target: nat, n: nat)
    requires
        UNIT <= num <= target == n * UNIT,
        n <= 2 * u64::MAX,
    ensures
        doublings(num, target) <= 66,
{
    let d = doublings(num, target);
    lemma_scaled(num, target);
    lemma2_to64();
    lemma_pow2_unfold(65);
    if d > 66 {
        lemma_pow2_strictly_increases(65, (d - 1) as nat);
        let e = pow2((d - 1) as nat);
        assert(num * e >= UNIT * e) by (nonlinear_arith)
            requires
                num >= UNIT,
        ;
        assert(e < n);
    }
}

/// Rounding keeps the order.
proof fn lemma_round_monotone(x: nat, y: nat, n: nat)
    requires
        n >= 1,
        x <= y,
    ensures
        round_half_even(x, n) <= round_half_even(y, n),
{
    assert(x / n < y / n || (x / n == y / n && x % n <= y % n)) by (nonlinear_arith)
        requires
            x <= y,
            n >= 1,
    ;
}

/// More of the whole is no lower ratio, however great the whole is.
pub proof fn law_ratio_never_decreases(part: nat, more: nat, whole: nat)
    requires
        part <= more <= whole <= u64::MAX,
    ensures
        ratio_bits(part, whole) <= ratio_bits(more, whole),
{
    law_ratio_range(more, whole);
    if part > 0 {
        let n = nearest_double(whole);
        lemma_nearest_double_positive(part);
        lemma_nearest_double_positive(whole);
        lemma_nearest_double_monotone(part, more);
        lemma_nearest_double_monotone(more, whole);
        let a = nearest_double(part) * UNIT as nat;
        let b = nearest_double(more) * UNIT as nat;
        let target = n * UNIT as nat;
        lemma_scaled(a, target);
        lemma_scaled(b, target);
        let da = doublings(a, target);
        let db = doublings(b, target);
        let sa = scaled(a, target);
        let sb = scaled(b, target);
        lemma_significand(sa, n);
        lemma_significand(sb, n);
        let ea = pow2(da);
        if db > da {
            if da < db - 1 {
                lemma_pow2_strictly_increases(da, (db - 1) as nat);
            }
            let e1 = pow2((db - 1) as nat);
            assert(a * ea <= b * e1) by (nonlinear_arith)
                requires
                    a <= b,
                    ea <= e1,
            ;
            assert(false);
        }
        if da == db {
            assert(a * ea <= b * ea) by (nonlinear_arith)
                requires
                    a <= b,
            ;
            lemma_round_monotone(sa, sb, n);
        } else {
            assert((1023 - da) * UNIT <= (1022 - db) * UNIT);
        }
    }
}

/// The place of a number in the order of numbers: negative ones have negative ranks, and both
/// zeros have rank 0.
pub open spec fn rank(t: Similarity) -> int {
    if t.bits < SIGN {
        t.bits as int
    } else {
        SIGN - t.bits
    }
}

/// Whether a bit pattern is that of a number, infinities among them.
pub open spec fn is_number(t: Similarity) -> bool {
    -INFINITY <= rank(t) <= INFINITY
}

/// Reaching is the order of numbers, and nothing reaches what is not a number.
pub proof fn law_reaching_is_the_order(a: Similarity, t: Similarity)
    requires
        a.bits <= INFINITY,
    ensures
        at_least(a, t) <==> is_number(t) && rank(t) <= rank(a),
{
}

/// What reaches a threshold reaches every lower one.
pub proof fn law_lower_threshold(a: Similarity, threshold: Similarity, lower: Similarity)
    requires
        is_number(lower),
        rank(lower) <= rank(threshold),
        at_least(a, threshold),
    ensures
        at_least(a, lower),
{
}

} // verus!
