//! The length of a segment, and how a playlist writes it.
use crate::text::{
    all_digits, decimal, digit, lemma_decimal_round_trip, lemma_digits_have_places, number_of,
    push_decimal, push_digit, value_of,
};
use vstd::prelude::*;
use vstd::string::StringExecFns;

verus! {

/// The length of a segment: its frames, of 1024 samples each, at a sample
/// rate.
///
/// In seconds it is `frames * 1024 / sample_rate` as a double precision
/// number.
#[derive(Clone, Copy, PartialEq, Eq, Structural)]
pub struct SegmentDuration {
    pub frames: u32,
    pub sample_rate: u32,
}

/// The samples of a segment, for each channel.
pub open spec fn samples_in(d: SegmentDuration) -> nat {
    (d.frames * 1024) as nat
}

/// The length in whole seconds, rounded up. Without a sample rate it is
/// without bound, and nothing over nothing counts as no time.
///
/// Double precision does not matter here: the samples are too few for a
/// quotient to be rounded to a whole number that it is not.
pub open spec fn ceil_seconds(d: SegmentDuration) -> u64 {
    if d.sample_rate > 0 {
        ((samples_in(d) + d.sample_rate - 1) / d.sample_rate as int) as u64
    } else if d.frames > 0 {
        u64::MAX
    } else {
        0
    }
}

/// The whole number nearest to a quotient, and of two equally near the even
/// one.
pub open spec fn nearest(n: nat, d: nat) -> nat {
    let whole = n / d;
    let rest = n % d;
    if 2 * rest > d || (2 * rest == d && whole % 2 == 1) {
        whole + 1
    } else {
        whole
    }
}

/// Doubles a number until it reaches `floor`, and a scale with it. Zero stays.
pub open spec fn doubled(top: nat, scale: nat, floor: nat) -> (nat, nat)
    decreases 2 * floor - top,
{
    if top == 0 || top >= floor {
        (top, scale)
    } else {
        doubled(2 * top, 2 * scale, floor)
    }
}

/// A quotient in double precision: 53 significant bits over a power of two.
pub open spec fn double_of(n: nat, d: nat) -> (nat, nat) {
    let (top, scale) = doubled(n, 1, d * 0x10_0000_0000_0000);
    (nearest(top, d), scale)
}

/// The length in thousandths of a second, rounded to the nearest.
pub open spec fn rounded_millis(d: SegmentDuration) -> nat {
    let (mantissa, scale) = double_of(samples_in(d), d.sample_rate as nat);
    nearest(mantissa * 1000, scale)
}

/// The length in seconds with three decimals.
pub open spec fn seconds_text(d: SegmentDuration) -> Seq<char> {
    if d.sample_rate > 0 {
        let millis = rounded_millis(d);
        decimal(millis / 1000) + "."@ + seq![
            digit(millis / 100 % 10),
            digit(millis / 10 % 10),
            digit(millis % 10),
        ]
    } else if d.frames > 0 {
        "inf"@
    } else {
        "NaN"@
    }
}

/// Divides, and rounds to the nearest.
fn divide(n: u128, d: u128) -> (r: u128)
    requires
        0 < d < 0x1000_0000_0000_0000_0000_0000_0000,
        n < 0x1000_0000_0000_0000_0000_0000_0000,
    ensures
        r == nearest(n as nat, d as nat),
{
    let whole: u128 = n / d;
    let rest: u128 = n % d;
    assert(rest < d && whole <= n) by (nonlinear_arith)
        requires
            d > 0,
            whole == n / d,
            rest == n % d,
    ;
    if 2 * rest > d || (2 * rest == d && whole % 2 == 1) {
        whole + 1
    } else {
        whole
    }
}

/// Rounding stays at or below a whole number that the quotient is below.
proof fn lemma_nearest_bound(n: nat, d: nat, bound: nat)
    requires
        d > 0,
        n < bound * d,
    ensures
        nearest(n, d) <= bound,
{
    let whole = n / d;
    assert(whole < bound) by (nonlinear_arith)
        requires
            d > 0,
            whole == n / d,
            n < bound * d,
    ;
}

impl SegmentDuration {
    /// Rounds up to whole seconds.
    pub fn ceil(&self) -> (r: u64)
        ensures
            r == ceil_seconds(*self),
    {
        if self.sample_rate > 0 {
            let rate: u64 = self.sample_rate as u64;
            (self.frames as u64 * 1024 + rate - 1) / rate
        } else if self.frames > 0 {
            u64::MAX
        } else {
            0
        }
    }

    /// The length in thousandths of a second.
    fn millis(&self) -> (r: u64)
        requires
            self.sample_rate > 0,
        ensures
            r == rounded_millis(*self),
    {
        let samples: u128 = self.frames as u128 * 1024;
        let rate: u128 = self.sample_rate as u128;
        let floor: u128 = rate * 0x10_0000_0000_0000;
        let mut top: u128 = samples;
        let mut scale: u128 = 1;
        while top != 0 && top < floor
            invariant
                floor == rate * 0x10_0000_0000_0000,
                0 < rate < 0x1_0000_0000,
                samples < 0x1_0000_0000_0000,
                top < 2 * floor,
                samples > 0 ==> scale <= top,
                samples == 0 ==> top == 0 && scale == 1,
                scale > 0,
                doubled(samples as nat, 1, floor as nat) == doubled(
                    top as nat,
                    scale as nat,
                    floor as nat,
                ),
            decreases 2 * floor - top,
        {
            top = top * 2;
            scale = scale * 2;
        }
        proof {
            lemma_nearest_bound(top as nat, rate as nat, 0x20_0000_0000_0000);
        }
        let mantissa: u128 = divide(top, rate);
        proof {
            let n = (mantissa * 1000) as nat;
            assert(n < (n + 1) * scale) by (nonlinear_arith)
                requires
                    scale >= 1,
            ;
            lemma_nearest_bound(n, scale as nat, n + 1);
        }
        divide(mantissa * 1000, scale) as u64
    }

    /// Appends the length in seconds, with three decimals.
    pub fn push_text(&self, out: &mut String)
        ensures
            final(out)@ == old(out)@ + seconds_text(*self),
    {
        if self.sample_rate > 0 {
            let millis: u64 = self.millis();
            push_decimal(out, millis / 1000);
            out.append(".");
            push_digit(out, (millis / 100 % 10) as u8);
            push_digit(out, (millis / 10 % 10) as u8);
            push_digit(out, (millis % 10) as u8);
            assert(out@ =~= old(out)@ + seconds_text(*self));
        } else if self.frames > 0 {
            out.append("inf");
        } else {
            out.append("NaN");
        }
    }
}

/// Rounding up gives the least whole number of seconds that is not shorter.
pub proof fn lemma_ceil_bounds(d: SegmentDuration)
    requires
        d.sample_rate > 0,
    ensures
        samples_in(d) <= ceil_seconds(d) * d.sample_rate,
        (ceil_seconds(d) - 1) * d.sample_rate < samples_in(d),
{
    let samples = samples_in(d) as int;
    let rate = d.sample_rate as int;
    let top = samples + rate - 1;
    let seconds = top / rate;
    assert(top == seconds * rate + top % rate && 0 <= top % rate < rate) by (nonlinear_arith)
        requires
            rate > 0,
            seconds == top / rate,
    ;
    assert((seconds - 1) * rate == seconds * rate - rate) by (nonlinear_arith);
    assert(0 <= seconds <= top) by (nonlinear_arith)
        requires
            rate > 0,
            seconds == top / rate,
            top >= 0,
    ;
}

proof fn lemma_doubled(n: nat, top: nat, scale: nat, floor: nat)
    requires
        n > 0,
        top == n * scale,
        scale > 0,
    ensures
        ({
            let (t, s) = doubled(top, scale, floor);
            t == n * s && s > 0 && t >= floor
        }),
    decreases 2 * floor - top,
{
    assert(n * scale > 0) by (nonlinear_arith)
        requires
            n > 0,
            scale > 0,
    ;
    if top < floor {
        assert(2 * top == n * (2 * scale)) by (nonlinear_arith)
            requires
                top == n * scale,
        ;
        lemma_doubled(n, 2 * top, 2 * scale, floor);
    }
}

/// Rounding to the nearest misses by half a unit at most.
pub proof fn lemma_nearest_is_near(n: nat, d: nat)
    requires
        d > 0,
    ensures
        2 * (nearest(n, d) * d - n) <= d,
        2 * (n - nearest(n, d) * d) <= d,
{
    let whole = n / d;
    let rest = n % d;
    assert(n == whole * d + rest && rest < d) by (nonlinear_arith)
        requires
            d > 0,
            whole == n / d,
            rest == n % d,
    ;
    assert((whole + 1) * d == whole * d + d) by (nonlinear_arith);
}

/// The length in thousandths of a second is the nearest there is, but for what
/// double precision takes away: for a segment of up to 4096 seconds it misses
/// by half a thousandth and less than a part in a thousand million of one more.
#[verifier::spinoff_prover]
#[verifier::rlimit(60)]
pub proof fn lemma_millis_are_near(d: SegmentDuration)
    requires
        d.sample_rate > 0,
        d.frames * 1024 <= d.sample_rate * 4096,
    ensures
        ({
            let missed = rounded_millis(d) * d.sample_rate - 1000 * (d.frames * 1024);
            let half = d.sample_rate * 0x100_0000_03E8;
            -half <= 0x200_0000_0000 * missed <= half
        }),
{
    let n = (d.frames * 1024) as nat;
    let r = d.sample_rate as nat;
    let m = rounded_millis(d);
    if n == 0 {
        assert(double_of(0, r) == (0nat, 1nat)) by {
            lemma_nearest_is_near(0, r);
            assert(0nat / r == 0 && 0nat % r == 0) by (nonlinear_arith)
                requires
                    r > 0,
            ;
        }
        assert(m == 0);
        assert(0 * r == 0) by (nonlinear_arith);
    } else {
        let floor = r * 0x10_0000_0000_0000;
        lemma_doubled(n, n, 1, floor);
        let (top, scale) = doubled(n, 1, floor);
        let big = nearest(top, r);
        lemma_nearest_is_near(top, r);
        lemma_nearest_is_near(big * 1000, scale);
        assert(scale >= 0x100_0000_0000) by (nonlinear_arith)
            requires
                n * scale >= r * 0x10_0000_0000_0000,
                n <= r * 4096,
                r > 0,
                scale > 0,
        ;
        let e = m * r - 1000 * n;
        let e1 = m * scale - big * 1000;
        let e2 = big * r - top;
        assert(e * scale == e1 * r + 1000 * e2) by (nonlinear_arith)
            requires
                e == m * r - 1000 * n,
                e1 == m * scale - big * 1000,
                e2 == big * r - top,
                top == n * scale,
        ;
        lemma_error_bound(e, e1, e2, r as int, scale as int);
    }
}

#[verifier::spinoff_prover]
#[verifier::rlimit(60)]
proof fn lemma_error_bound(e: int, e1: int, e2: int, r: int, scale: int)
    requires
        r > 0,
        scale >= 0x100_0000_0000,
        e * scale == e1 * r + 1000 * e2,
        -scale <= 2 * e1 <= scale,
        -r <= 2 * e2 <= r,
    ensures
        -(r * 0x100_0000_03E8) <= 0x200_0000_0000 * e <= r * 0x100_0000_03E8,
{
    assert(-(scale * r) <= 2 * (e1 * r) <= scale * r) by (nonlinear_arith)
        requires
            r > 0,
            -scale <= 2 * e1 <= scale,
    ;
    assert((2 * e - r) * scale == 2 * (e * scale) - scale * r) by (nonlinear_arith);
    assert((2 * e + r) * scale == 2 * (e * scale) + scale * r) by (nonlinear_arith);
    let over = 2 * e - r;
    let under = 2 * e + r;
    assert(over * scale <= 1000 * r);
    assert(under * scale >= -1000 * r);
    if over > 0 {
        assert(over * 0x100_0000_0000 <= over * scale) by (nonlinear_arith)
            requires
                over > 0,
                scale >= 0x100_0000_0000,
        ;
    }
    if under < 0 {
        assert(under * 0x100_0000_0000 >= under * scale) by (nonlinear_arith)
            requires
                under < 0,
                scale >= 0x100_0000_0000,
        ;
    }
}

/// The text of a length reads back as its thousandths: whole seconds, a point,
/// and three digits.
#[verifier::spinoff_prover]
#[verifier::rlimit(60)]
pub proof fn lemma_seconds_read_back(d: SegmentDuration)
    requires
        d.sample_rate > 0,
    ensures
        ({
            let text = seconds_text(d);
            let n = text.len() - 4;
            &&& n > 0
            &&& text[n] == '.'
            &&& number_of(text.take(n)) == Some(rounded_millis(d) / 1000)
            &&& number_of(text.skip(n + 1)) == Some(rounded_millis(d) % 1000)
        }),
{
    reveal_strlit(".");
    let m = rounded_millis(d);
    let text = seconds_text(d);
    let whole = decimal(m / 1000);
    let n = whole.len() as int;
    let (a, b, c) = (digit(m / 100 % 10), digit(m / 10 % 10), digit(m % 10));
    lemma_decimal_round_trip(m / 1000);
    assert(text.len() == n + 4);
    assert(text.take(n) =~= whole);
    assert(text.skip(n + 1) =~= seq![a, b, c]);
    lemma_three_digits(m / 100 % 10, m / 10 % 10, m % 10);
    lemma_last_three(m);
}

proof fn lemma_last_three(m: nat)
    ensures
        (m / 100 % 10) * 100 + (m / 10 % 10) * 10 + m % 10 == m % 1000,
{
    assert(m / 10 / 10 == m / 100);
    assert(m / 100 / 10 == m / 1000);
}

proof fn lemma_three_digits(x: nat, y: nat, z: nat)
    requires
        x < 10,
        y < 10,
        z < 10,
    ensures
        number_of(seq![digit(x), digit(y), digit(z)]) == Some(x * 100 + y * 10 + z),
{
    let (a, b, c) = (digit(x), digit(y), digit(z));
    let one = seq![a];
    let two = seq![a, b];
    assert(a as int - 48 == x && b as int - 48 == y && c as int - 48 == z);
    assert(all_digits(one));
    lemma_digits_have_places(one, a);
    assert(value_of(one) == x);
    assert(all_digits(two));
    lemma_digits_have_places(one, b);
    assert(one.push(b) =~= two);
    lemma_digits_have_places(two, c);
    assert(two.push(c) =~= seq![a, b, c]);
}

/// Without a sample rate a length has no number: it is without bound, or none
/// where there are no frames.
pub proof fn lemma_no_rate_no_number(d: SegmentDuration)
    requires
        d.sample_rate == 0,
    ensures
        seconds_text(d) == if d.frames > 0 {
            "inf"@
        } else {
            "NaN"@
        },
        ceil_seconds(d) == if d.frames > 0 {
            u64::MAX
        } else {
            0
        },
{
}

} // verus!
