use vstd::arithmetic::power::{
    lemma_pow0,
    lemma_pow1,
    lemma_pow_adds,
    lemma_pow_distributes,
    lemma_pow_multiplies,
    lemma_pow_positive,
    lemma_square_is_pow2,
    pow,
};
use vstd::arithmetic::power2::{
    lemma_pow2,
    lemma2_to64,
    lemma2_to64_rest,
    lemma_pow2_adds,
    lemma_pow2_pos,
    lemma_pow2_strictly_increases,
    lemma_pow2_unfold,
    pow2,
};
use vstd::prelude::*;

verus! {

/// The score that stands for `1.0`: two to the power 32.
pub const ONE: u64 = 4294967296;

/// Two to the power 63: the least mantissa.
pub const TOP_BIT: u64 = 9223372036854775808;

/// The number of binary digits behind the point of a score.
pub const DIGITS: u64 = 32;

/// `part / whole` as a score: rounded down, but for a part that is not
/// zero never to the score 0. The least score that is not zero stands for
/// every part too small to be told from it.
pub open spec fn spec_ratio(part: nat, whole: nat) -> nat
    recommends
        whole > 0,
{
    let quotient = part * ONE as nat / whole;
    if part > 0 && quotient == 0 {
        1
    } else {
        quotient
    }
}

/// The distance between two scores.
pub open spec fn spec_distance(a: u64, b: u64) -> u64 {
    if a >= b {
        (a - b) as u64
    } else {
        (b - a) as u64
    }
}

/// The whole part of the binary logarithm of `x`: the greatest `k` with
/// `pow2(k) <= x`, and 0 for `x == 0`.
pub open spec fn floor_log2(x: nat) -> nat
    decreases x,
{
    if x < 2 {
        0
    } else {
        1 + floor_log2(x / 2)
    }
}

/// `x` scaled by a power of two into the range `TOP_BIT <= m < 2 * TOP_BIT`,
/// where it stands for `m / TOP_BIT`, a number from 1 up to 2.
pub open spec fn mantissa(x: nat) -> nat
    recommends
        1 <= x < 2 * TOP_BIT,
{
    x * pow2((63 - floor_log2(x)) as nat)
}

/// The first `digits` binary digits of the logarithm of the mantissa `m`,
/// read as a whole number. Squaring a number doubles its logarithm, so the
/// next digit is 1 exactly when the square reaches 2; the square is then
/// halved, and in either case rounded down to a mantissa again.
pub open spec fn log2_fraction(m: nat, digits: nat) -> nat
    recommends
        TOP_BIT <= m < 2 * TOP_BIT,
    decreases digits,
{
    if digits == 0 {
        0
    } else {
        let square = m * m / TOP_BIT as nat;
        if square >= 2 * TOP_BIT {
            pow2((digits - 1) as nat) + log2_fraction(square / 2, (digits - 1) as nat)
        } else {
            log2_fraction(square, (digits - 1) as nat)
        }
    }
}

/// An allowance for the rounding of the squares: what `digits` more
/// squarings make of a mantissa that may be too small by `slack`.
/// Squaring a mantissa doubles what it lacks twice over, since a mantissa
/// stands for a number up to 2, and rounding the square down adds to it.
pub open spec fn slack_after(slack: nat, digits: nat) -> nat
    decreases digits,
{
    if digits == 0 {
        slack
    } else {
        slack_after(4 * slack + 2 + slack * slack / TOP_BIT as nat, (digits - 1) as nat)
    }
}

/// The binary logarithm of `x` as a score: its whole part, and 32 binary
/// digits of the logarithm of its mantissa.
pub open spec fn log2_score(x: nat) -> nat
    recommends
        1 <= x < 2 * TOP_BIT,
{
    floor_log2(x) * ONE as nat + log2_fraction(mantissa(x), DIGITS as nat)
}

/// The share `-p * log2(p)` of a probability `p` in the entropy of its
/// column, with `0 * log2(0)` taken as 0. The probability is a score, and
/// the share counts units of two to the power -64.
pub open spec fn entropy_term(p: nat) -> nat
    recommends
        p <= ONE,
{
    if p == 0 {
        0
    } else {
        (p * (DIGITS * ONE - log2_score(p))) as nat
    }
}

/// The efficiency of a column of four probabilities: its entropy divided
/// by `log2(4)`, as a score of at most `ONE`. The logarithm is never above
/// the real one, so neither is the entropy below the real one, and what
/// rounding adds beyond `ONE` is cut off.
pub open spec fn spec_efficiency(a: nat, c: nat, g: nat, t: nat) -> nat
    recommends
        a <= ONE,
        c <= ONE,
        g <= ONE,
        t <= ONE,
{
    let entropy = entropy_term(a) + entropy_term(c) + entropy_term(g) + entropy_term(t);
    let scaled = entropy / (2 * ONE) as nat;
    if scaled > ONE {
        ONE as nat
    } else {
        scaled
    }
}

/// `floor_log2(x)` is the one `k` with `pow2(k) <= x < pow2(k + 1)`.
pub proof fn lemma_floor_log2_is(x: nat, k: nat)
    requires
        pow2(k) <= x < pow2(k + 1),
    ensures
        floor_log2(x) == k,
    decreases k,
{
    lemma_pow2_unfold(k + 1);
    if k == 0 {
        lemma2_to64();
    } else {
        lemma_pow2_unfold(k);
        lemma_floor_log2_is(x / 2, (k - 1) as nat);
    }
}

/// A number lies between the power of two of its `floor_log2` and the next.
pub proof fn lemma_floor_log2_bounds(x: nat)
    requires
        x >= 1,
    ensures
        pow2(floor_log2(x)) <= x < pow2(floor_log2(x) + 1),
    decreases x,
{
    lemma2_to64();
    if x >= 2 {
        lemma_floor_log2_bounds(x / 2);
        lemma_pow2_unfold(floor_log2(x));
        lemma_pow2_unfold(floor_log2(x) + 1);
    }
}

/// The mantissa of a number below two to the 64 lies in the upper half of
/// that range.
pub proof fn lemma_mantissa_bounds(x: nat)
    requires
        1 <= x < 2 * TOP_BIT,
    ensures
        floor_log2(x) <= 63,
        TOP_BIT <= mantissa(x) < 2 * TOP_BIT,
{
    let k = floor_log2(x);
    lemma_floor_log2_bounds(x);
    lemma2_to64_rest();
    if k > 63 {
        lemma_pow2_strictly_increases(64, k);
    }
    let shift = (63 - k) as nat;
    lemma_pow2_adds(k, shift);
    lemma_pow2_adds(k + 1, shift);
    lemma_pow2_pos(shift);
    assert(pow2(k) * pow2(shift) <= x * pow2(shift) < pow2(k + 1) * pow2(shift)) by (nonlinear_arith)
        requires
            pow2(k) <= x < pow2(k + 1),
            pow2(shift) > 0,
    ;
}

/// `digits` binary digits make a number below `pow2(digits)`.
pub proof fn lemma_log2_fraction_bound(m: nat, digits: nat)
    ensures
        log2_fraction(m, digits) < pow2(digits),
    decreases digits,
{
    if digits == 0 {
        lemma2_to64();
    } else {
        let square = m * m / TOP_BIT as nat;
        lemma_pow2_unfold(digits);
        lemma_log2_fraction_bound(square, (digits - 1) as nat);
        lemma_log2_fraction_bound(square / 2, (digits - 1) as nat);
    }
}

/// The logarithm of the mantissa that stands for 1 has no digit set.
pub proof fn lemma_log2_fraction_of_one(digits: nat)
    ensures
        log2_fraction(TOP_BIT as nat, digits) == 0,
    decreases digits,
{
    if digits > 0 {
        assert(TOP_BIT as nat * TOP_BIT as nat / TOP_BIT as nat == TOP_BIT) by (nonlinear_arith);
        lemma_log2_fraction_of_one((digits - 1) as nat);
    }
}

/// The logarithm of a number is its whole part and a fraction below 1.
pub proof fn lemma_log2_score_bounds(x: nat)
    requires
        1 <= x < 2 * TOP_BIT,
    ensures
        floor_log2(x) * ONE <= log2_score(x) < (floor_log2(x) + 1) * ONE,
        log2_score(x) < 64 * ONE,
{
    lemma_mantissa_bounds(x);
    lemma_log2_fraction_bound(mantissa(x), DIGITS as nat);
    lemma2_to64();
    assert((floor_log2(x) + 1) * ONE <= 64 * ONE) by (nonlinear_arith)
        requires
            floor_log2(x) <= 63,
    ;
}

/// On a power of two the logarithm is exact.
pub proof fn lemma_log2_score_of_pow2(k: nat)
    requires
        k <= 63,
    ensures
        log2_score(pow2(k)) == k * ONE,
{
    lemma_pow2_unfold(k + 1);
    lemma_pow2_pos(k);
    lemma_floor_log2_is(pow2(k), k);
    lemma_pow2_adds(k, (63 - k) as nat);
    lemma2_to64_rest();
    lemma_log2_fraction_of_one(DIGITS as nat);
}

/// The logarithm of a number up to `pow2(k)` is at most `k`.
pub proof fn lemma_log2_score_at_most(x: nat, k: nat)
    requires
        1 <= x <= pow2(k),
        k <= 63,
    ensures
        log2_score(x) <= k * ONE,
{
    lemma_floor_log2_bounds(x);
    lemma2_to64_rest();
    lemma_pow2_strictly_increases(k, 64);
    if x == pow2(k) {
        lemma_log2_score_of_pow2(k);
    } else {
        assert(floor_log2(x) < k) by {
            if floor_log2(x) > k {
                lemma_pow2_strictly_increases(k, floor_log2(x));
            }
        }
        lemma_log2_score_bounds(x);
        assert((floor_log2(x) + 1) * ONE <= k * ONE) by (nonlinear_arith)
            requires
                floor_log2(x) + 1 <= k,
        ;
    }
}

/// A greater mantissa has no smaller logarithm.
pub proof fn lemma_log2_fraction_increases(a: nat, b: nat, digits: nat)
    requires
        a <= b,
    ensures
        log2_fraction(a, digits) <= log2_fraction(b, digits),
    decreases digits,
{
    if digits > 0 {
        let below = (digits - 1) as nat;
        let square_a = a * a / TOP_BIT as nat;
        let square_b = b * b / TOP_BIT as nat;
        assert(square_a <= square_b) by (nonlinear_arith)
            requires
                a <= b,
                square_a == a * a / TOP_BIT as nat,
                square_b == b * b / TOP_BIT as nat,
                TOP_BIT > 0,
        ;
        if square_a >= 2 * TOP_BIT {
            lemma_log2_fraction_increases(square_a / 2, square_b / 2, below);
        } else if square_b >= 2 * TOP_BIT {
            lemma_log2_fraction_bound(square_a, below);
        } else {
            lemma_log2_fraction_increases(square_a, square_b, below);
        }
    }
}

/// A greater number has no smaller whole part of its logarithm.
pub proof fn lemma_floor_log2_increases(x: nat, y: nat)
    requires
        x <= y,
    ensures
        floor_log2(x) <= floor_log2(y),
    decreases y,
{
    if x >= 2 {
        lemma_floor_log2_increases(x / 2, y / 2);
    }
}

/// The logarithm does not decrease.
pub proof fn lemma_log2_score_increases(x: nat, y: nat)
    requires
        1 <= x <= y < 2 * TOP_BIT,
    ensures
        log2_score(x) <= log2_score(y),
{
    lemma_floor_log2_increases(x, y);
    lemma_log2_score_bounds(x);
    lemma_log2_score_bounds(y);
    if floor_log2(x) == floor_log2(y) {
        let shift = pow2((63 - floor_log2(x)) as nat);
        assert(x * shift <= y * shift) by (nonlinear_arith)
            requires
                x <= y,
                shift >= 0,
        ;
        lemma_log2_fraction_increases(mantissa(x), mantissa(y), DIGITS as nat);
    } else {
        assert((floor_log2(x) + 1) * ONE <= floor_log2(y) * ONE) by (nonlinear_arith)
            requires
                floor_log2(x) + 1 <= floor_log2(y),
        ;
    }
}

/// A power does not decrease with its base.
pub proof fn lemma_pow_base_increases(a: int, b: int, e: nat)
    requires
        0 <= a <= b,
    ensures
        0 <= pow(a, e) <= pow(b, e),
    decreases e,
{
    reveal(pow);
    if e > 0 {
        lemma_pow_base_increases(a, b, (e - 1) as nat);
        assert(a * pow(a, (e - 1) as nat) <= b * pow(b, (e - 1) as nat) && 0 <= a * pow(
            a,
            (e - 1) as nat,
        )) by (nonlinear_arith)
            requires
                0 <= a <= b,
                0 <= pow(a, (e - 1) as nat) <= pow(b, (e - 1) as nat),
        ;
    }
}

/// The digits of the logarithm of a mantissa never exceed the real
/// logarithm: two to the power of them, as a fraction of `pow2(digits)`,
/// is at most the number that the mantissa stands for.
pub proof fn lemma_log2_fraction_below(m: nat, digits: nat)
    requires
        TOP_BIT <= m,
    ensures
        pow(2, log2_fraction(m, digits)) * pow(TOP_BIT as int, pow2(digits)) <= pow(
            m as int,
            pow2(digits),
        ),
    decreases digits,
{
    let top = TOP_BIT as int;
    if digits == 0 {
        lemma2_to64();
        lemma_pow0(2);
        lemma_pow1(top);
        lemma_pow1(m as int);
    } else {
        let below = (digits - 1) as nat;
        let half = pow2(below);
        lemma_pow2_unfold(digits);
        let square = m * m / TOP_BIT as nat;
        assert(square * top <= m * m && square >= top) by (nonlinear_arith)
            requires
                square == m * m / TOP_BIT as nat,
                top == TOP_BIT,
                top <= m,
                top > 0,
        ;
        // The digits, as a power of two, are at most the square.
        let digits_here = log2_fraction(m, digits);
        assert(pow(2, digits_here) * pow(top, half) <= pow(square as int, half)) by {
            if square >= 2 * TOP_BIT {
                let next = square / 2;
                let rest = log2_fraction(next, below);
                lemma_log2_fraction_below(next, below);
                lemma_pow_adds(2, half, rest);
                lemma_pow_distributes(2, next as int, half);
                lemma_pow_base_increases(2 * (next as int), square as int, half);
                lemma_pow_positive(2, half);
                assert(pow(2, half) * pow(2, rest) * pow(top, half) <= pow(2, half) * pow(
                    next as int,
                    half,
                )) by (nonlinear_arith)
                    requires
                        pow(2, rest) * pow(top, half) <= pow(next as int, half),
                        pow(2, half) > 0,
                ;
            } else {
                lemma_log2_fraction_below(square, below);
            }
        }
        lemma_pow_adds(top, half, half);
        lemma_pow_positive(top, half);
        lemma_pow_distributes(square as int, top, half);
        lemma_pow_base_increases((square as int) * top, (m * m) as int, half);
        lemma_square_is_pow2(m as int);
        lemma_pow_multiplies(m as int, 2, half);
        assert(pow(2, digits_here) * (pow(top, half) * pow(top, half)) <= pow(square as int, half)
            * pow(top, half)) by (nonlinear_arith)
            requires
                pow(2, digits_here) * pow(top, half) <= pow(square as int, half),
                pow(top, half) > 0,
        ;
    }
}

/// The logarithm never exceeds the real logarithm: two to the power of
/// the score of `x` is at most `x` to the power of `ONE`.
pub proof fn lemma_log2_score_below(x: nat)
    requires
        1 <= x < 2 * TOP_BIT,
    ensures
        pow(2, log2_score(x)) <= pow(x as int, ONE as nat),
{
    let k = floor_log2(x);
    let shift = (63 - k) as nat;
    let one = ONE as nat;
    let fraction = log2_fraction(mantissa(x), DIGITS as nat);
    lemma_mantissa_bounds(x);
    lemma2_to64();
    lemma2_to64_rest();
    lemma_log2_fraction_below(mantissa(x), DIGITS as nat);
    // Both sides of that bound hold the factor two to the power `shift * one`.
    lemma_pow2(63);
    lemma_pow2(shift);
    lemma_pow2(k);
    lemma_pow2_adds(k, shift);
    lemma_pow_distributes(pow2(k) as int, pow2(shift) as int, one);
    lemma_pow_distributes(x as int, pow2(shift) as int, one);
    lemma_pow_multiplies(2, k, one);
    lemma_pow_adds(2, k * one, fraction);
    lemma_pow_positive(2, shift);
    lemma_pow_positive(pow2(shift) as int, one);
    let common = pow(pow2(shift) as int, one);
    assert(pow(2, k * one) * pow(2, fraction) <= pow(x as int, one)) by (nonlinear_arith)
        requires
            pow(2, fraction) * (pow(2, k * one) * common) <= pow(x as int, one) * common,
            common > 0,
    ;
    assert(k * one + fraction == log2_score(x)) by (nonlinear_arith)
        requires
            log2_score(x) == k * ONE as nat + fraction,
            one == ONE,
    ;
}

/// After 32 squarings the allowance is still less than a mantissa may be.
pub proof fn lemma_slack_of_all_digits()
    ensures
        slack_after(0, DIGITS as nat) <= 2 * TOP_BIT,
{
    assert(slack_after(0, 32) == slack_after(2, 31));
    assert(slack_after(2, 31) == slack_after(10, 30));
    assert(slack_after(10, 30) == slack_after(42, 29));
    assert(slack_after(42, 29) == slack_after(170, 28));
    assert(slack_after(170, 28) == slack_after(682, 27));
    assert(slack_after(682, 27) == slack_after(2730, 26));
    assert(slack_after(2730, 26) == slack_after(10922, 25));
    assert(slack_after(10922, 25) == slack_after(43690, 24));
    assert(slack_after(43690, 24) == slack_after(174762, 23));
    assert(slack_after(174762, 23) == slack_after(699050, 22));
    assert(slack_after(699050, 22) == slack_after(2796202, 21));
    assert(slack_after(2796202, 21) == slack_after(11184810, 20));
    assert(slack_after(11184810, 20) == slack_after(44739242, 19));
    assert(slack_after(44739242, 19) == slack_after(178956970, 18));
    assert(slack_after(178956970, 18) == slack_after(715827882, 17));
    assert(slack_after(715827882, 17) == slack_after(2863311530, 16));
    assert(slack_after(2863311530, 16) == slack_after(11453246122, 15));
    assert(slack_after(11453246122, 15) == slack_after(45812984504, 14));
    assert(slack_after(45812984504, 14) == slack_after(183251938245, 13));
    assert(slack_after(183251938245, 13) == slack_after(733007756622, 12));
    assert(slack_after(733007756622, 12) == slack_after(2932031084744, 11));
    assert(slack_after(2932031084744, 11) == slack_after(11728125271045, 10));
    assert(slack_after(11728125271045, 10) == slack_after(46912515997266, 9));
    assert(slack_after(46912515997266, 9) == slack_after(187650302598562, 8));
    assert(slack_after(187650302598562, 8) == slack_after(750605028155902, 7));
    assert(slack_after(750605028155902, 7) == slack_after(3002481197431426, 6));
    assert(slack_after(3002481197431426, 6) == slack_after(12010902186420202, 5));
    assert(slack_after(12010902186420202, 5) == slack_after(48059249638269259, 4));
    assert(slack_after(48059249638269259, 4) == slack_after(192487415804659692, 3));
    assert(slack_after(192487415804659692, 3) == slack_after(773966784624465819, 2));
    assert(slack_after(773966784624465819, 2) == slack_after(3160813514000049479, 1));
    assert(slack_after(3160813514000049479, 1) == slack_after(13726452481734767210, 0));
}

/// The digits of the logarithm of a mantissa are less than two units in
/// the last place below the real logarithm, also of a mantissa that is
/// too small by `slack`: two to the power of the digits and two, as a
/// fraction of `pow2(digits)`, exceeds the number that the mantissa and
/// the slack stand for.
pub proof fn lemma_log2_fraction_above(m: nat, slack: nat, digits: nat)
    requires
        TOP_BIT <= m < 2 * TOP_BIT,
        slack_after(slack, digits) <= 2 * TOP_BIT,
    ensures
        pow((m + slack) as int, pow2(digits)) < pow(2, log2_fraction(m, digits) + 2) * pow(
            TOP_BIT as int,
            pow2(digits),
        ),
    decreases digits,
{
    let top = TOP_BIT as int;
    let wide = (m + slack) as int;
    if digits == 0 {
        lemma2_to64();
        lemma_pow1(top);
        lemma_pow1(wide);
        lemma_square_is_pow2(2);
    } else {
        let below = (digits - 1) as nat;
        let half = pow2(below);
        lemma_pow2_unfold(digits);
        let square = (m * m / TOP_BIT as nat) as int;
        let lost = (slack * slack / TOP_BIT as nat) as int;
        let next_slack = 4 * slack + 2 + lost;
        // The square of the widened mantissa is below the widened square.
        assert(m * m < (square + 1) * top && top <= square < 4 * top) by (nonlinear_arith)
            requires
                square == m * m / (top as nat),
                top <= m < 2 * top,
                top > 0,
        ;
        assert(slack * slack < (lost + 1) * top) by (nonlinear_arith)
            requires
                lost == slack * slack / (top as nat),
                top > 0,
        ;
        assert(2 * (m * slack) <= 4 * (slack * top)) by (nonlinear_arith)
            requires
                m <= 2 * top,
                slack >= 0,
        ;
        assert(wide * wide == m * m + 2 * (m * slack) + slack * slack) by (nonlinear_arith)
            requires
                wide == m + slack,
        ;
        assert((square + next_slack) * top == (square + 1) * top + 4 * (slack * top) + (lost + 1)
            * top) by (nonlinear_arith)
            requires
                next_slack == 4 * slack + 2 + lost,
        ;
        assert(wide * wide < (square + next_slack) * top);
        lemma_square_is_pow2(wide);
        lemma_pow_multiplies(wide, 2, half);
        lemma_pow_adds(top, half, half);
        lemma_pow_positive(top, half);
        let digits_here = log2_fraction(m, digits);
        // The widened square, as a power, is below the digits and two.
        assert(pow(wide * wide, half) < pow(2, digits_here + 2) * pow(top, half) * pow(top, half)) by {
            if square >= 2 * TOP_BIT {
                let next = square / 2;
                let rest = log2_fraction(next as nat, below);
                lemma_log2_fraction_above(next as nat, next_slack as nat, below);
                assert(wide * wide <= 2 * ((next + next_slack) * top)) by (nonlinear_arith)
                    requires
                        wide * wide < (square + next_slack) * top,
                        square <= 2 * next + 1,
                        next_slack >= 1,
                        top > 0,
                ;
                lemma_pow_base_increases(wide * wide, 2 * ((next + next_slack) * top), half);
                lemma_pow_distributes(2, (next + next_slack) * top, half);
                lemma_pow_distributes(next + next_slack, top, half);
                lemma_pow_adds(2, half, rest + 2);
                lemma_pow_positive(2, half);
                assert(pow(2, half) * (pow(next + next_slack, half) * pow(top, half)) < pow(2, half)
                    * pow(2, rest + 2) * pow(top, half) * pow(top, half)) by (nonlinear_arith)
                    requires
                        pow(next + next_slack, half) < pow(2, rest + 2) * pow(top, half),
                        pow(2, half) > 0,
                        pow(top, half) > 0,
                ;
            } else {
                lemma_log2_fraction_above(square as nat, next_slack as nat, below);
                lemma_pow_base_increases(wide * wide, (square + next_slack) * top, half);
                lemma_pow_distributes(square + next_slack, top, half);
                assert(pow(square + next_slack, half) * pow(top, half) < pow(2, digits_here + 2)
                    * pow(top, half) * pow(top, half)) by (nonlinear_arith)
                    requires
                        pow(square + next_slack, half) < pow(2, digits_here + 2) * pow(top, half),
                        pow(top, half) > 0,
                ;
            }
        }
        assert(pow(2, digits_here + 2) * pow(top, half) * pow(top, half) == pow(2, digits_here + 2)
            * (pow(top, half) * pow(top, half))) by (nonlinear_arith);
    }
}

/// The logarithm is less than two units in the last place below the real
/// logarithm: `x` to the power of `ONE` is below two to the power of the
/// score of `x` and two.
pub proof fn lemma_log2_score_above(x: nat)
    requires
        1 <= x < 2 * TOP_BIT,
    ensures
        pow(x as int, ONE as nat) < pow(2, log2_score(x) + 2),
{
    let k = floor_log2(x);
    let shift = (63 - k) as nat;
    let one = ONE as nat;
    let fraction = log2_fraction(mantissa(x), DIGITS as nat);
    lemma_mantissa_bounds(x);
    lemma2_to64();
    lemma2_to64_rest();
    lemma_slack_of_all_digits();
    lemma_log2_fraction_above(mantissa(x), 0, DIGITS as nat);
    // Both sides of that bound hold the factor two to the power `shift * one`.
    lemma_pow2(63);
    lemma_pow2(shift);
    lemma_pow2(k);
    lemma_pow2_adds(k, shift);
    lemma_pow_distributes(pow2(k) as int, pow2(shift) as int, one);
    lemma_pow_distributes(x as int, pow2(shift) as int, one);
    lemma_pow_multiplies(2, k, one);
    lemma_pow_adds(2, k * one, fraction + 2);
    lemma_pow_positive(2, shift);
    lemma_pow_positive(pow2(shift) as int, one);
    let common = pow(pow2(shift) as int, one);
    assert(pow(x as int, one) < pow(2, k * one) * pow(2, fraction + 2)) by (nonlinear_arith)
        requires
            pow(x as int, one) * common < pow(2, fraction + 2) * (pow(2, k * one) * common),
            common > 0,
    ;
    assert(k * one + (fraction + 2) == log2_score(x) + 2) by (nonlinear_arith)
        requires
            log2_score(x) == k * ONE as nat + fraction,
            one == ONE,
    ;
}

/// A ratio is 0 only of no part at all, and `ONE` or more only of the
/// whole or more. Between them it is the greatest score that, times the
/// whole, is at most the part times `ONE`; where that would be 0, it is 1.
pub proof fn lemma_ratio_resolution(part: nat, whole: nat)
    requires
        whole > 0,
    ensures
        spec_ratio(part, whole) == 0 <==> part == 0,
        spec_ratio(part, whole) >= ONE <==> part >= whole,
        part * ONE >= whole ==> spec_ratio(part, whole) * whole <= part * ONE < (spec_ratio(
            part,
            whole,
        ) + 1) * whole,
        0 < part && part * ONE < whole ==> spec_ratio(part, whole) == 1,
{
    let scaled = (part * ONE as nat) as int;
    let q = scaled / whole as int;
    vstd::arithmetic::div_mod::lemma_fundamental_div_mod(scaled, whole as int);
    vstd::arithmetic::div_mod::lemma_mod_bound(scaled, whole as int);
    assert(q * whole <= scaled < (q + 1) * whole) by (nonlinear_arith)
        requires
            scaled == whole * q + scaled % (whole as int),
            0 <= scaled % (whole as int) < whole,
    ;
    assert(q == 0 <==> scaled < whole) by (nonlinear_arith)
        requires
            q * whole <= scaled < (q + 1) * whole,
            scaled >= 0,
            whole > 0,
    ;
    assert(q >= ONE <==> part >= whole) by (nonlinear_arith)
        requires
            q * whole <= scaled < (q + 1) * whole,
            scaled == part * ONE,
            whole > 0,
            ONE == 0x1_0000_0000,
    ;
    assert(part == 0 ==> scaled == 0);
}

/// `part / whole` as a score: rounded down, but for a part that is not
/// zero never to the score 0.
pub fn ratio(part: u64, whole: u64) -> (r: u64)
    requires
        part <= whole,
        whole > 0,
    ensures
        r == spec_ratio(part as nat, whole as nat),
        r <= ONE,
        r == ONE <==> part == whole,
        r == 0 <==> part == 0,
{
    proof {
        lemma_ratio_resolution(part as nat, whole as nat);
    }
    assert(part * ONE <= whole * ONE <= 0xFFFF_FFFF_FFFF_FFFF * 0x1_0000_0000) by (nonlinear_arith)
        requires
            part <= whole <= 0xFFFF_FFFF_FFFF_FFFF,
            ONE == 0x1_0000_0000,
    ;
    let scaled: u128 = part as u128 * ONE as u128;
    let quotient: u128 = scaled / whole as u128;
    assert(quotient <= ONE) by (nonlinear_arith)
        requires
            quotient == (part * ONE) / (whole as int),
            part <= whole,
            whole > 0,
            ONE == 0x1_0000_0000,
    ;
    if part > 0 && quotient == 0 {
        1
    } else {
        quotient as u64
    }
}

/// The distance between two scores.
pub fn distance(a: u64, b: u64) -> (d: u64)
    ensures
        d == spec_distance(a, b),
{
    if a >= b {
        a - b
    } else {
        b - a
    }
}

/// The binary logarithm of `x` as a score.
pub fn log2(x: u64) -> (r: u64)
    requires
        x >= 1,
    ensures
        r == log2_score(x as nat),
        r < 64 * ONE,
{
    let mut m: u64 = x;
    let mut k: u64 = 63;
    proof {
        lemma2_to64();
        lemma2_to64_rest();
        assert(x * pow2(0) == x) by (nonlinear_arith)
            requires
                pow2(0) == 1,
        ;
    }
    while m < TOP_BIT
        invariant
            x >= 1,
            k <= 63,
            m == x * pow2((63 - k) as nat),
            pow2(63) == TOP_BIT,
        decreases k,
    {
        proof {
            lemma_pow2_pos((63 - k) as nat);
            if k == 0 {
                assert(x * pow2(63) >= pow2(63)) by (nonlinear_arith)
                    requires
                        x >= 1,
                ;
            }
            lemma_pow2_unfold((64 - k) as nat);
            assert(x * (2 * pow2((63 - k) as nat)) == 2 * (x * pow2((63 - k) as nat)))
                by (nonlinear_arith);
        }
        m = m * 2;
        k = k - 1;
    }
    proof {
        let shift = (63 - k) as nat;
        lemma_pow2_adds(k as nat, shift);
        lemma_pow2_adds((k + 1) as nat, shift);
        lemma_pow2_pos(shift);
        assert(pow2(k as nat) <= x < pow2((k + 1) as nat)) by (nonlinear_arith)
            requires
                pow2(k as nat) * pow2(shift) <= x * pow2(shift) < pow2((k + 1) as nat) * pow2(shift),
                pow2(shift) > 0,
        ;
        lemma_floor_log2_is(x as nat, k as nat);
        assert(m == mantissa(x as nat));
    }
    let ghost first = m as nat;
    let mut fraction: u64 = 0;
    let mut i: u64 = 0;
    while i < DIGITS
        invariant
            i <= DIGITS,
            TOP_BIT <= m,
            fraction < pow2(i as nat),
            pow2(32) == ONE,
            log2_fraction(first, DIGITS as nat) == fraction * pow2((DIGITS - i) as nat) + log2_fraction(
                m as nat,
                (DIGITS - i) as nat,
            ),
        decreases DIGITS - i,
    {
        assert(0x4000_0000_0000_0000_0000_0000_0000_0000 <= m * m < 0x1_0000_0000_0000_0000_0000_0000_0000_0000)
            by (nonlinear_arith)
            requires
                0x8000_0000_0000_0000 <= m < 0x1_0000_0000_0000_0000,
        ;
        let square: u128 = (m as u128 * m as u128) / (TOP_BIT as u128);
        proof {
            lemma_pow2_unfold((DIGITS - i) as nat);
            lemma_pow2_unfold((i + 1) as nat);
            lemma_pow2_strictly_increases(i as nat, 32);
            assert((2 * fraction + 1) * pow2((DIGITS - i - 1) as nat) == fraction * (2 * pow2(
                (DIGITS - i - 1) as nat,
            )) + pow2((DIGITS - i - 1) as nat)) by (nonlinear_arith);
            assert((2 * fraction) * pow2((DIGITS - i - 1) as nat) == fraction * (2 * pow2(
                (DIGITS - i - 1) as nat,
            ))) by (nonlinear_arith);
        }
        if square >= 2 * (TOP_BIT as u128) {
            m = (square / 2) as u64;
            fraction = 2 * fraction + 1;
        } else {
            m = square as u64;
            fraction = 2 * fraction;
        }
        i = i + 1;
    }
    proof {
        lemma2_to64();
        assert(fraction * pow2(0) == fraction) by (nonlinear_arith)
            requires
                pow2(0) == 1,
        ;
        assert(k * ONE <= 63 * ONE) by (nonlinear_arith)
            requires
                k <= 63,
        ;
    }
    k * ONE + fraction
}

/// The share of a probability in the entropy of its column.
pub fn entropy_part(p: u64) -> (part: u128)
    requires
        p <= ONE,
    ensures
        part == entropy_term(p as nat),
        part <= ONE * (DIGITS * ONE),
{
    if p == 0 {
        0
    } else {
        let log = log2(p);
        proof {
            lemma2_to64();
            lemma_log2_score_at_most(p as nat, 32);
        }
        let gap: u64 = DIGITS * ONE - log;
        assert(p * gap <= ONE * (DIGITS * ONE)) by (nonlinear_arith)
            requires
                p <= ONE,
                gap <= DIGITS * ONE,
        ;
        p as u128 * gap as u128
    }
}

/// The efficiency of a column of four probabilities.
pub fn efficiency_of(a: u64, c: u64, g: u64, t: u64) -> (e: u64)
    requires
        a <= ONE,
        c <= ONE,
        g <= ONE,
        t <= ONE,
    ensures
        e == spec_efficiency(a as nat, c as nat, g as nat, t as nat),
        e <= ONE,
{
    let entropy: u128 = entropy_part(a) + entropy_part(c) + entropy_part(g) + entropy_part(t);
    let scaled: u128 = entropy / (2 * ONE as u128);
    if scaled > ONE as u128 {
        ONE
    } else {
        scaled as u64
    }
}

/// A column in which every nucleotide is either certain or absent has the
/// efficiency 0.
pub proof fn lemma_efficiency_of_certainty(a: nat, c: nat, g: nat, t: nat)
    requires
        a == 0 || a == ONE,
        c == 0 || c == ONE,
        g == 0 || g == ONE,
        t == 0 || t == ONE,
    ensures
        spec_efficiency(a, c, g, t) == 0,
{
    lemma2_to64();
    lemma_log2_score_of_pow2(32);
    assert(entropy_term(ONE as nat) == 0) by (nonlinear_arith)
        requires
            entropy_term(ONE as nat) == (ONE * (DIGITS * ONE - 32 * ONE)) as nat,
            DIGITS == 32,
    ;
}

/// A probability that is not zero and at most one half has a share of at
/// least two whole units in the entropy, so that its column has an
/// efficiency above 0.
pub proof fn lemma_entropy_of_small_share(p: nat)
    requires
        1 <= p <= ONE / 2,
    ensures
        entropy_term(p) >= 2 * ONE,
{
    lemma2_to64();
    if p == 1 {
        lemma_log2_score_of_pow2(0);
    } else {
        lemma_log2_score_at_most(p, 31);
        let gap = DIGITS * ONE - log2_score(p);
        assert(p * gap >= 2 * ONE) by (nonlinear_arith)
            requires
                p >= 2,
                gap >= ONE,
        ;
    }
}

/// A column of four equal probabilities has the efficiency 1.
pub proof fn lemma_efficiency_of_uniform()
    ensures
        spec_efficiency(ONE as nat / 4, ONE as nat / 4, ONE as nat / 4, ONE as nat / 4) == ONE,
{
    lemma2_to64();
    lemma_log2_score_of_pow2(30);
    let quarter = ONE as nat / 4;
    assert(quarter == 0x4000_0000);
    assert(entropy_term(quarter) == 0x8000_0000_0000_0000) by (nonlinear_arith)
        requires
            entropy_term(quarter) == (quarter * (DIGITS * ONE - 30 * ONE)) as nat,
            quarter == 0x4000_0000,
            DIGITS == 32,
            ONE == 0x1_0000_0000,
    ;
    let entropy = 4 * entropy_term(quarter);
    assert(entropy / (2 * ONE) as nat == ONE) by (nonlinear_arith)
        requires
            entropy == 0x2_0000_0000 * 0x1_0000_0000,
            ONE == 0x1_0000_0000,
    ;
}

} // verus!
