//! Nominal durations: written values and dots.

use crate::temporal::fraction::{
    Fraction, lemma_fraction_arithmetic, lemma_reduced_value, ratio, reduced, reduce};
use vstd::arithmetic::power2::{
    lemma2_to64, lemma_pow2_pos, lemma_pow2_strictly_increases, lemma_pow2_unfold, pow2,
};
use vstd::prelude::*;

verus! {

/// The written value of a note, from the maxima (eight whole notes) down to
/// the two-hundred-fifty-sixth note.
#[derive(Copy, Clone, Debug, PartialEq, Eq, Structural, Hash)]
pub enum DurationType {
    Maxima,
    Long,
    Breve,
    Whole,
    Half,
    Quarter,
    Eighth,
    Sixteenth,
    ThirtySecond,
    SixtyFourth,
    OneHundredTwentyEighth,
    TwoHundredFiftySixth,
    /// A length given exactly, in whole notes: `numerator` over
    /// `denominator`. A term of zero counts as one, so that every duration
    /// lasts.
    Exact { numerator: u64, denominator: u64 },
}

/// A nominal duration: a written value and its number of dots.
#[derive(Copy, Clone, Debug, PartialEq, Eq, Structural, Hash)]
pub struct Duration {
    pub value: DurationType,
    pub dots: u8,
}

/// The most dots whose value this library computes.
pub const MAX_DOTS: u8 = 32;

impl Default for Duration {
    fn default() -> (r: Self)
        ensures
            r == (Duration { value: DurationType::Quarter, dots: 0 }),
    {
        Duration { value: DurationType::Quarter, dots: 0 }
    }
}

impl DurationType {
    /// The numerator of the value in whole notes.
    pub open spec fn numer(self) -> nat {
        match self {
            DurationType::Maxima => 8,
            DurationType::Long => 4,
            DurationType::Breve => 2,
            DurationType::Exact { numerator, denominator } => if numerator == 0 {
                1
            } else {
                numerator as nat
            },
            _ => 1,
        }
    }

    /// The denominator of the value in whole notes.
    pub open spec fn denom(self) -> nat {
        match self {
            DurationType::Maxima | DurationType::Long | DurationType::Breve | DurationType::Whole => 1,
            DurationType::Half => 2,
            DurationType::Quarter => 4,
            DurationType::Eighth => 8,
            DurationType::Sixteenth => 16,
            DurationType::ThirtySecond => 32,
            DurationType::SixtyFourth => 64,
            DurationType::OneHundredTwentyEighth => 128,
            DurationType::TwoHundredFiftySixth => 256,
            DurationType::Exact { numerator, denominator } => if denominator == 0 {
                1
            } else {
                denominator as nat
            },
        }
    }

    fn numerator(&self) -> (r: u64)
        ensures
            r == self.numer(),
    {
        match self {
            DurationType::Maxima => 8,
            DurationType::Long => 4,
            DurationType::Breve => 2,
            DurationType::Exact { numerator, denominator } => if *numerator == 0 {
                1
            } else {
                *numerator
            },
            _ => 1,
        }
    }

    fn denominator(&self) -> (r: u64)
        ensures
            r == self.denom(),
    {
        match self {
            DurationType::Maxima | DurationType::Long | DurationType::Breve | DurationType::Whole => 1,
            DurationType::Half => 2,
            DurationType::Quarter => 4,
            DurationType::Eighth => 8,
            DurationType::Sixteenth => 16,
            DurationType::ThirtySecond => 32,
            DurationType::SixtyFourth => 64,
            DurationType::OneHundredTwentyEighth => 128,
            DurationType::TwoHundredFiftySixth => 256,
            DurationType::Exact { numerator, denominator } => if *denominator == 0 {
                1
            } else {
                *denominator
            },
        }
    }
}

impl Duration {
    /// The numerator of the dotted value in whole notes: each dot adds half
    /// of what the one before it added.
    pub open spec fn numer(self) -> nat {
        (self.value.numer() * (pow2((self.dots + 1) as nat) - 1)) as nat
    }

    /// The denominator of the dotted value in whole notes.
    pub open spec fn denom(self) -> nat {
        self.value.denom() * pow2(self.dots as nat)
    }

    /// The length in whole notes.
    pub open spec fn whole_notes(self) -> real {
        ratio(self.numer() as int, self.denom() as int)
    }

    /// The length in beats of the given base note.
    pub open spec fn exact_beats(self, base: Duration) -> real {
        self.whole_notes() / base.whole_notes()
    }

    /// The length in whole notes as a fraction: there is one for a written
    /// value with up to `MAX_DOTS` dots, and for a length given exactly
    /// where, with its dots, it can be held.
    pub open spec fn spec_value(self) -> Option<Fraction> {
        if self.dots > MAX_DOTS {
            None
        } else {
            reduced(self.numer(), self.denom())
        }
    }

    /// The length in beats of the given base note as a fraction, where both
    /// values and their quotient can be held.
    pub open spec fn spec_beats(self, base: Duration) -> Option<Fraction> {
        match (self.spec_value(), base.spec_value()) {
            (Some(v), Some(b)) => v.spec_div(b),
            _ => None,
        }
    }

    #[must_use]
    pub fn new(value: DurationType, dots: u8) -> (r: Self)
        ensures
            r == (Duration { value, dots }),
    {
        Duration { value, dots }
    }

    /// The length in whole notes.
    pub fn value(&self) -> (r: Option<Fraction>)
        ensures
            r == self.spec_value(),
            r is Some ==> self.dots <= MAX_DOTS,
            !(self.value is Exact) && self.dots <= MAX_DOTS ==> r is Some,
            r is Some ==> r.unwrap().value() == self.whole_notes() && r.unwrap().numer() > 0,
    {
        if self.dots > MAX_DOTS {
            return None;
        }
        let mut power: u64 = 1;
        let mut i: u8 = 0;
        proof {
            lemma2_to64();
        }
        while i < self.dots
            invariant
                i <= self.dots <= MAX_DOTS,
                power == pow2(i as nat),
                1 <= power <= 0x1_0000_0000,
                pow2(32) == 0x1_0000_0000,
            decreases self.dots - i,
        {
            proof {
                lemma_pow2_unfold((i + 1) as nat);
                if i + 1 < 32 {
                    lemma_pow2_strictly_increases((i + 1) as nat, 32);
                }
            }
            power = power * 2;
            i = i + 1;
        }
        let tn: u64 = self.value.numerator();
        let td: u64 = self.value.denominator();
        assert(tn * (2 * power - 1) <= u128::MAX && td * power <= u128::MAX) by (nonlinear_arith)
            requires
                tn <= 0xFFFF_FFFF_FFFF_FFFF,
                td <= 0xFFFF_FFFF_FFFF_FFFF,
                1 <= power <= 0x1_0000_0000,
        ;
        let n: u128 = (tn as u128) * ((2 * power - 1) as u128);
        let d: u128 = (td as u128) * (power as u128);
        proof {
            lemma_pow2_unfold((self.dots + 1) as nat);
            lemma_reduced_value(n as nat, d as nat);
            lemma_value_is_positive(*self);
            if !(self.value is Exact) {
                assert(tn <= 8 && td <= 256);
                assert(tn * (2 * power - 1) <= u64::MAX && td * power <= u64::MAX)
                    by (nonlinear_arith)
                    requires
                        tn <= 8,
                        td <= 256,
                        1 <= power <= 0x1_0000_0000,
                ;
            }
        }
        reduce(n, d)
    }

    /// The length in beats of the given base note.
    pub fn beats(&self, base: &Duration) -> (r: Option<Fraction>)
        ensures
            r == self.spec_beats(*base),
            r is Some ==> r.unwrap().value() == self.exact_beats(*base),
            r is Some ==> self.dots <= MAX_DOTS && base.dots <= MAX_DOTS,
    {
        match (self.value(), base.value()) {
            (Some(v), Some(b)) => v.checked_div(&b),
            _ => None,
        }
    }
}

/// The fraction that holds a nominal duration is not zero.
pub proof fn lemma_value_is_positive(d: Duration)
    ensures
        d.numer() > 0,
        d.denom() > 0,
        d.whole_notes() > 0real,
        d.spec_value() is Some ==> d.spec_value().unwrap().numer() > 0
            && d.spec_value().unwrap().well_formed()
            && d.spec_value().unwrap().value() == d.whole_notes(),
{
    lemma_pow2_pos(d.dots as nat);
    lemma_pow2_unfold((d.dots + 1) as nat);
    let p = pow2(d.dots as nat) as int;
    let vn = d.value.numer() as int;
    let vd = d.value.denom() as int;
    assert(vn * (2 * p - 1) > 0) by (nonlinear_arith)
        requires
            vn >= 1,
            p >= 1,
    ;
    assert(vd * p > 0) by (nonlinear_arith)
        requires
            vd >= 1,
            p >= 1,
    ;
    let (n, m) = (d.numer() as real, d.denom() as real);
    assert(n / m > 0real) by (nonlinear_arith)
        requires
            n > 0real,
            m > 0real,
    ;
    lemma_reduced_value(d.numer(), d.denom());
    if d.spec_value() is Some {
        let f = d.spec_value().unwrap();
        if f.numer() == 0 {
            let fd = f.denom() as real;
            assert(0real / fd == 0real) by (nonlinear_arith)
                requires
                    fd > 0real,
            ;
        }
    }
}

/// Where the beats of a duration can be held, they are the exact quotient of
/// the two lengths.
pub proof fn lemma_beats_are_exact(d: Duration, base: Duration)
    ensures
        d.spec_beats(base) is Some ==> d.spec_beats(base).unwrap().well_formed() && d.spec_beats(
            base,
        ).unwrap().value() == d.exact_beats(base),
        d.exact_beats(base) > 0real,
{
    lemma_value_is_positive(d);
    lemma_value_is_positive(base);
    if d.spec_value() is Some && base.spec_value() is Some {
        lemma_fraction_arithmetic(d.spec_value().unwrap(), base.spec_value().unwrap());
    }
    let (x, y) = (d.whole_notes(), base.whole_notes());
    assert(x / y > 0real) by (nonlinear_arith)
        requires
            x > 0real,
            y > 0real,
    ;
}

} // verus!
