//! The scales of the groove radar: how the rate behind each score is
//! turned into the score.

use crate::math::{lemma_quotient_ordered, quotient, toward_zero};
use vstd::arithmetic::div_mod::{
    lemma_div_is_ordered, lemma_div_multiples_vanish, lemma_div_pos_is_pos,
};
use vstd::prelude::*;

verus! {

/// How a rate is turned into a score: in two straight pieces that meet at
/// `breakpoint`. Below it the score is the rate times `low_factor` over
/// `low_divisor`; from it on, the rate plus `shift`, times 100 over
/// `high_divisor`.
#[derive(Debug, PartialEq, Eq, Clone, Copy, Structural)]
pub struct Scale {
    pub breakpoint: i32,
    pub low_factor: i32,
    pub low_divisor: i32,
    pub shift: i32,
    pub high_divisor: i32,
}

impl Scale {
    /// Whether the two pieces meet at the breakpoint, in a score of 100,
    /// and both rise.
    pub open spec fn is_continuous(&self) -> bool {
        &&& self.low_factor > 0
        &&& self.low_divisor > 0
        &&& self.high_divisor > 0
        &&& self.breakpoint * self.low_factor == 100 * self.low_divisor
        &&& (self.breakpoint + self.shift) * 100 == 100 * self.high_divisor
    }

    /// The score of the rate `num / den`, rounded toward zero.
    pub open spec fn score(&self, num: int, den: int) -> int {
        if num < self.breakpoint * den {
            quotient(num * self.low_factor, den * self.low_divisor)
        } else {
            quotient((num + self.shift * den) * 100, den * self.high_divisor)
        }
    }

    /// Scores the rate `num / den`, in exact arithmetic.
    pub fn exact_score(&self, num: i64, den: i64) -> (score: i128)
        requires
            den > 0,
            self.low_divisor > 0,
            self.high_divisor > 0,
        ensures
            score == self.score(num as int, den as int),
    {
        let n = num as i128;
        let d = den as i128;
        let limit = self.breakpoint as i128;
        assert(-0x8000_0000 * d <= limit * d <= 0x8000_0000 * d) by (nonlinear_arith)
            requires
                d > 0,
                -0x8000_0000 <= limit <= 0x8000_0000,
        ;
        if n < limit * d {
            let factor = self.low_factor as i128;
            let divisor = self.low_divisor as i128;
            assert(-0x8000_0000_0000_0000 * 0x8000_0000 <= n * factor <= 0x8000_0000_0000_0000
                * 0x8000_0000) by (nonlinear_arith)
                requires
                    -0x8000_0000_0000_0000 <= n <= 0x8000_0000_0000_0000,
                    -0x8000_0000 <= factor <= 0x8000_0000,
            ;
            assert(0 < d * divisor <= 0x8000_0000_0000_0000 * 0x8000_0000) by (nonlinear_arith)
                requires
                    0 < d <= 0x8000_0000_0000_0000,
                    0 < divisor <= 0x8000_0000,
            ;
            toward_zero(n * factor, d * divisor)
        } else {
            let shift = self.shift as i128;
            let divisor = self.high_divisor as i128;
            assert(-0x8000_0000_0000_0000 * 0x8000_0000 <= shift * d <= 0x8000_0000_0000_0000
                * 0x8000_0000) by (nonlinear_arith)
                requires
                    0 < d <= 0x8000_0000_0000_0000,
                    -0x8000_0000 <= shift <= 0x8000_0000,
            ;
            assert(0 < d * divisor <= 0x8000_0000_0000_0000 * 0x8000_0000) by (nonlinear_arith)
                requires
                    0 < d <= 0x8000_0000_0000_0000,
                    0 < divisor <= 0x8000_0000,
            ;
            toward_zero((n + shift * d) * 100, d * divisor)
        }
    }
}

/// The scale of the stream score, over divisions per minute.
pub fn stream_scale() -> (s: Scale)
    ensures
        s.breakpoint == 300,
        s.low_factor == 1,
        s.low_divisor == 3,
        s.shift == -139,
        s.high_divisor == 161,
        s.is_continuous(),
{
    Scale { breakpoint: 300, low_factor: 1, low_divisor: 3, shift: -139, high_divisor: 161 }
}

/// The scale of the voltage score, over the highest density per minute.
pub fn voltage_scale() -> (s: Scale)
    ensures
        s.breakpoint == 600,
        s.low_factor == 1,
        s.low_divisor == 6,
        s.shift == 594,
        s.high_divisor == 1194,
        s.is_continuous(),
{
    Scale { breakpoint: 600, low_factor: 1, low_divisor: 6, shift: 594, high_divisor: 1194 }
}

/// The scale of the air score, over jumps and shocks per minute.
pub fn air_scale() -> (s: Scale)
    ensures
        s.breakpoint == 55,
        s.low_factor == 20,
        s.low_divisor == 11,
        s.shift == 36,
        s.high_divisor == 91,
        s.is_continuous(),
{
    Scale { breakpoint: 55, low_factor: 20, low_divisor: 11, shift: 36, high_divisor: 91 }
}

/// The scale of the freeze score, over ten thousand times the share of
/// beats that are held.
pub fn freeze_scale() -> (s: Scale)
    ensures
        s.breakpoint == 3500,
        s.low_factor == 1,
        s.low_divisor == 35,
        s.shift == 2484,
        s.high_divisor == 5984,
        s.is_continuous(),
{
    Scale { breakpoint: 3500, low_factor: 1, low_divisor: 35, shift: 2484, high_divisor: 5984 }
}

/// The scale of the chaos score, over the degree of chaos.
pub fn chaos_scale() -> (s: Scale)
    ensures
        s.breakpoint == 2000,
        s.low_factor == 1,
        s.low_divisor == 20,
        s.shift == 21605,
        s.high_divisor == 23605,
        s.is_continuous(),
{
    Scale { breakpoint: 2000, low_factor: 1, low_divisor: 20, shift: 21605, high_divisor: 23605 }
}

/// On a continuous scale the change of piece adds no jump: at the
/// breakpoint both pieces give 100, a rate below it scores at most 100 and a
/// rate from it on at least 100.
pub proof fn lemma_scale_continuous(s: Scale, num: int, den: int)
    requires
        s.is_continuous(),
        den > 0,
    ensures
        num == s.breakpoint * den ==> s.score(num, den) == 100 && quotient(
            num * s.low_factor,
            den * s.low_divisor,
        ) == 100,
        0 <= num < s.breakpoint * den ==> 0 <= s.score(num, den) <= 100,
        num >= s.breakpoint * den ==> s.score(num, den) >= 100,
{
    let b = s.breakpoint as int;
    let lf = s.low_factor as int;
    let ld = s.low_divisor as int;
    let sh = s.shift as int;
    let hd = s.high_divisor as int;
    assert(den * ld > 0 && den * hd > 0) by (nonlinear_arith)
        requires
            den > 0,
            ld > 0,
            hd > 0,
    ;
    if num >= b * den {
        assert((num + sh * den) * 100 >= (den * hd) * 100) by (nonlinear_arith)
            requires
                num >= b * den,
                (b + sh) * 100 == 100 * hd,
                den > 0,
        ;
        lemma_div_is_ordered(
            (den * hd) * 100,
            (num + sh * den) * 100,
            den * hd,
        );
        lemma_div_multiples_vanish(100, den * hd);
    }
    if num == b * den {
        assert(num * lf == (den * ld) * 100 && (num + sh * den) * 100 == (den * hd) * 100) by (nonlinear_arith)
            requires
                num == b * den,
                b * lf == 100 * ld,
                (b + sh) * 100 == 100 * hd,
        ;
        lemma_div_multiples_vanish(100, den * ld);
        lemma_div_multiples_vanish(100, den * hd);
    }
    if 0 <= num < b * den {
        assert(0 <= num * lf <= (den * ld) * 100) by (nonlinear_arith)
            requires
                0 <= num < b * den,
                b * lf == 100 * ld,
                lf > 0,
                den > 0,
        ;
        lemma_div_is_ordered(num * lf, (den * ld) * 100, den * ld);
        lemma_div_multiples_vanish(100, den * ld);
        lemma_div_pos_is_pos(num * lf, den * ld);
    }
}

/// On a continuous scale a higher rate never scores lower.
pub proof fn lemma_score_monotone(s: Scale, low: int, high: int, den: int)
    requires
        s.is_continuous(),
        den > 0,
        0 <= low <= high,
    ensures
        s.score(low, den) <= s.score(high, den),
{
    let b = s.breakpoint as int;
    let lf = s.low_factor as int;
    let ld = s.low_divisor as int;
    let sh = s.shift as int;
    let hd = s.high_divisor as int;
    assert(den * ld > 0 && den * hd > 0) by (nonlinear_arith)
        requires
            den > 0,
            ld > 0,
            hd > 0,
    ;
    if high < b * den {
        assert(low * lf <= high * lf) by (nonlinear_arith)
            requires
                low <= high,
                lf > 0,
        ;
        lemma_quotient_ordered(low * lf, high * lf, den * ld);
    } else if low < b * den {
        lemma_scale_continuous(s, low, den);
        lemma_scale_continuous(s, high, den);
    } else {
        lemma_quotient_ordered((low + sh * den) * 100, (high + sh * den) * 100, den * hd);
    }
}

} // verus!
