//! The loudness score of a sample sequence: the mean of the absolute sample
//! values, kept as an exact fraction so that scores compare without rounding.

use vstd::prelude::*;

verus! {

/// The absolute value of one sample.
pub open spec fn magnitude(sample: i16) -> nat {
    if sample < 0 {
        (-(sample as int)) as nat
    } else {
        sample as nat
    }
}

/// The sum of the absolute values of all samples.
pub open spec fn magnitude_sum(samples: Seq<i16>) -> nat
    decreases samples.len(),
{
    if samples.len() == 0 {
        0
    } else {
        magnitude_sum(samples.drop_last()) + magnitude(samples.last())
    }
}

/// A loudness score: `total / count`, the mean absolute sample value.
///
/// A score with `count == 0` belongs to an empty sample sequence and stands
/// for the value zero, so that every score has a place in the order.
#[derive(Clone, Copy, Debug)]
pub struct Loudness {
    /// The sum of the absolute sample values.
    pub total: u128,
    /// The number of samples.
    pub count: usize,
}

impl Loudness {
    /// The numerator of the score as a fraction.
    pub open spec fn numer(self) -> nat {
        if self.count == 0 {
            0
        } else {
            self.total as nat
        }
    }

    /// The denominator of the score as a fraction; never zero.
    pub open spec fn denom(self) -> nat {
        if self.count == 0 {
            1
        } else {
            self.count as nat
        }
    }

    /// The score of `self` is less than or equal to the score of `other`.
    pub open spec fn at_most(self, other: Loudness) -> bool {
        self.numer() * other.denom() <= other.numer() * self.denom()
    }

    /// The score of `self` is strictly less than the score of `other`.
    pub open spec fn below(self, other: Loudness) -> bool {
        self.numer() * other.denom() < other.numer() * self.denom()
    }

    /// Both scores are the same value.
    pub open spec fn same_as(self, other: Loudness) -> bool {
        self.numer() * other.denom() == other.numer() * self.denom()
    }

    /// The score that `samples` has.
    pub open spec fn of_samples(samples: Seq<i16>) -> Loudness {
        Loudness { total: magnitude_sum(samples) as u128, count: samples.len() as usize }
    }

    /// Measures a sample sequence. An empty sequence gets the score zero.
    pub fn of(samples: &[i16]) -> (score: Loudness)
        ensures
            score.total == magnitude_sum(samples@),
            score.count == samples@.len(),
            score == Loudness::of_samples(samples@),
    {
        let mut total: u128 = 0;
        let mut i: usize = 0;
        while i < samples.len()
            invariant
                i <= samples@.len(),
                total == magnitude_sum(samples@.take(i as int)),
                total <= 32768 * i,
            decreases samples@.len() - i,
        {
            let s: i16 = samples[i];
            let m: u128 = if s < 0 {
                (-(s as i32)) as u128
            } else {
                s as u128
            };
            proof {
                let next = samples@.take(i + 1);
                assert(next.drop_last() =~= samples@.take(i as int));
                assert(next.last() == s);
            }
            total = total + m;
            i = i + 1;
        }
        proof {
            assert(samples@.take(i as int) =~= samples@);
        }
        Loudness { total, count: samples.len() }
    }

    /// Whether the score is the one of an empty sample sequence or of silence.
    pub fn is_zero(&self) -> (zero: bool)
        ensures
            zero == (self.numer() == 0),
    {
        self.count == 0 || self.total == 0
    }

    /// Whether the score of `self` is less than or equal to that of `other`.
    pub fn le(&self, other: &Loudness) -> (holds: bool)
        ensures
            holds == self.at_most(*other),
    {
        let na: u128 = if self.count == 0 { 0 } else { self.total };
        let da: u128 = if self.count == 0 { 1 } else { self.count as u128 };
        let nb: u128 = if other.count == 0 { 0 } else { other.total };
        let db: u128 = if other.count == 0 { 1 } else { other.count as u128 };
        let qa: u128 = na / da;
        let ra: u128 = na % da;
        let qb: u128 = nb / db;
        let rb: u128 = nb % db;
        proof {
            lemma_fraction_order(na as int, da as int, nb as int, db as int);
            assert(ra * db <= 0xffff_ffff_ffff_ffff * 0xffff_ffff_ffff_ffff) by (nonlinear_arith)
                requires
                    0 <= ra <= 0xffff_ffff_ffff_ffff,
                    0 <= db <= 0xffff_ffff_ffff_ffff,
            ;
            assert(rb * da <= 0xffff_ffff_ffff_ffff * 0xffff_ffff_ffff_ffff) by (nonlinear_arith)
                requires
                    0 <= rb <= 0xffff_ffff_ffff_ffff,
                    0 <= da <= 0xffff_ffff_ffff_ffff,
            ;
        }
        if qa != qb {
            qa < qb
        } else {
            ra * db <= rb * da
        }
    }

    /// How the score of `self` stands to that of `other`.
    pub fn compare(&self, other: &Loudness) -> (order: core::cmp::Ordering)
        ensures
            order == core::cmp::Ordering::Less <==> self.below(*other),
            order == core::cmp::Ordering::Equal <==> self.same_as(*other),
            order == core::cmp::Ordering::Greater <==> other.below(*self),
    {
        if self.le(other) {
            if other.le(self) {
                core::cmp::Ordering::Equal
            } else {
                core::cmp::Ordering::Less
            }
        } else {
            core::cmp::Ordering::Greater
        }
    }
}

/// The score of an empty sample sequence is zero: no score lies below it.
pub proof fn lemma_empty_score_is_least(other: Loudness)
    ensures
        Loudness::of_samples(Seq::<i16>::empty()).numer() == 0,
        Loudness::of_samples(Seq::<i16>::empty()).at_most(other),
        !other.below(Loudness::of_samples(Seq::<i16>::empty())),
{
    let empty = Loudness::of_samples(Seq::<i16>::empty());
    assert(empty.count == 0);
    assert(0 * other.denom() == 0) by (nonlinear_arith);
    assert(other.numer() * 1 == other.numer()) by (nonlinear_arith);
}

/// Of two scores, the first is at most the second or the second lies below
/// the first.
pub proof fn lemma_scores_comparable(a: Loudness, b: Loudness)
    ensures
        a.at_most(b) || b.below(a),
        a.at_most(b) <==> a.below(b) || a.same_as(b),
        !(a.below(b) && b.at_most(a)),
        a.same_as(b) <==> b.same_as(a),
        a.at_most(a),
{
}

/// A score that is at most a second one, which is at most a third, is at most
/// the third.
pub proof fn lemma_at_most_transitive(a: Loudness, b: Loudness, c: Loudness)
    requires
        a.at_most(b),
        b.at_most(c),
    ensures
        a.at_most(c),
        a.below(b) || b.below(c) ==> a.below(c),
{
    let na = a.numer() as int;
    let da = a.denom() as int;
    let nb = b.numer() as int;
    let db = b.denom() as int;
    let nc = c.numer() as int;
    let dc = c.denom() as int;
    assert(na * dc * db <= nc * da * db) by (nonlinear_arith)
        requires
            na * db <= nb * da,
            nb * dc <= nc * db,
            0 < da,
            0 < dc,
            0 <= na,
            0 <= nb,
            0 <= nc,
    {
        assert((na * db) * dc <= (nb * da) * dc);
        assert((nb * dc) * da <= (nc * db) * da);
    }
    assert(na * dc <= nc * da) by (nonlinear_arith)
        requires
            na * dc * db <= nc * da * db,
            0 < db,
    ;
    if a.below(b) || b.below(c) {
        assert(na * dc * db < nc * da * db) by (nonlinear_arith)
            requires
                na * db <= nb * da,
                nb * dc <= nc * db,
                na * db < nb * da || nb * dc < nc * db,
                0 < da,
                0 < dc,
                0 <= na,
                0 <= nb,
                0 <= nc,
        {
            assert((na * db) * dc <= (nb * da) * dc);
            assert((nb * dc) * da <= (nc * db) * da);
            if na * db < nb * da {
                assert((na * db) * dc < (nb * da) * dc);
            } else {
                assert((nb * dc) * da < (nc * db) * da);
            }
        }
        assert(na * dc < nc * da) by (nonlinear_arith)
            requires
                na * dc * db < nc * da * db,
                0 < db,
        ;
    }
}

/// Two fractions compare as their whole parts do and, where those agree, as
/// their remainders do.
pub proof fn lemma_fraction_order(na: int, da: int, nb: int, db: int)
    requires
        0 <= na,
        0 < da,
        0 <= nb,
        0 < db,
    ensures
        na / da < nb / db ==> na * db < nb * da,
        na / da > nb / db ==> na * db > nb * da,
        na / da == nb / db ==> ((na * db <= nb * da) <==> ((na % da) * db <= (nb % db) * da)),
        na / da == nb / db ==> ((na * db < nb * da) <==> ((na % da) * db < (nb % db) * da)),
{
    let qa = na / da;
    let ra = na % da;
    let qb = nb / db;
    let rb = nb % db;
    vstd::arithmetic::div_mod::lemma_fundamental_div_mod(na, da);
    vstd::arithmetic::div_mod::lemma_fundamental_div_mod(nb, db);
    vstd::arithmetic::div_mod::lemma_mod_bound(na, da);
    vstd::arithmetic::div_mod::lemma_mod_bound(nb, db);
    assert(na == da * qa + ra);
    assert(nb == db * qb + rb);
    assert(na * db == qa * (da * db) + ra * db) by (nonlinear_arith)
        requires
            na == da * qa + ra,
    ;
    assert(nb * da == qb * (da * db) + rb * da) by (nonlinear_arith)
        requires
            nb == db * qb + rb,
    ;
    assert(ra * db < da * db) by (nonlinear_arith)
        requires
            0 <= ra < da,
            0 < db,
    ;
    assert(rb * da < da * db) by (nonlinear_arith)
        requires
            0 <= rb < db,
            0 < da,
    ;
    assert(0 <= ra * db) by (nonlinear_arith)
        requires
            0 <= ra,
            0 < db,
    ;
    assert(0 <= rb * da) by (nonlinear_arith)
        requires
            0 <= rb,
            0 < da,
    ;
    if qa < qb {
        assert((qa + 1) * (da * db) <= qb * (da * db)) by (nonlinear_arith)
            requires
                qa + 1 <= qb,
                0 < da * db,
        ;
        assert((qa + 1) * (da * db) == qa * (da * db) + da * db) by (nonlinear_arith);
    }
    if qb < qa {
        assert((qb + 1) * (da * db) <= qa * (da * db)) by (nonlinear_arith)
            requires
                qb + 1 <= qa,
                0 < da * db,
        ;
        assert((qb + 1) * (da * db) == qb * (da * db) + da * db) by (nonlinear_arith);
    }
    assert(0 < da * db) by (nonlinear_arith)
        requires
            0 < da,
            0 < db,
    ;
}

} // verus!
