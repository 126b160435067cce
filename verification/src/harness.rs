//! The train/validate evaluation harness: positional splitting, confusion
//! matrix accumulation, and derived metrics as exact ratios.

use vstd::prelude::*;
use vstd::arithmetic::div_mod::lemma_div_is_ordered;
use vstd::arithmetic::div_mod::lemma_div_multiples_vanish;
use vstd::arithmetic::div_mod::lemma_div_pos_is_pos;
use crate::classifier::NaiveBayesClassifier;
use crate::classifier::classifies_positive;
use crate::classifier::views_of;

verus! {

/// The four outcome counts of one validation run. Every validation example
/// falls in exactly one cell.
pub struct ConfusionMatrix {
    pub true_positive: u64,
    pub true_negative: u64,
    pub false_positive: u64,
    pub false_negative: u64,
}

/// An exact ratio of two counts. The metrics are quotients of counts; a
/// ratio keeps them exact, and a caller that wants a decimal divides.
pub struct Ratio {
    pub numerator: u64,
    pub denominator: u64,
}

/// `r` holds `num / den` exactly, or is `None` when the denominator is
/// zero and the ratio undefined.
pub open spec fn ratio_or_undefined(num: int, den: int, r: Option<Ratio>) -> bool {
    &&& (r is Some <==> den > 0)
    &&& (r is Some ==> r.unwrap().numerator == num && r.unwrap().denominator == den)
}

/// Where a sequence of `len` examples is cut for the ratio
/// `ratio_num / ratio_den`: the floor of `ratio * len`.
pub open spec fn split_point(len: int, ratio_num: int, ratio_den: int) -> int {
    ratio_num * len / ratio_den
}

/// Splits the examples positionally: the first `floor(ratio * len)` become
/// the training set, the rest the validation set, both in input order.
/// The ratio is given as the fraction `ratio_num / ratio_den`, strictly
/// between 0 and 1, so the cut is exact. Any shuffling is the caller's
/// business: the split itself is deterministic and reproducible.
pub fn split(examples: Vec<(bool, Vec<String>)>, ratio_num: u64, ratio_den: u64) -> (r: (
    Vec<(bool, Vec<String>)>,
    Vec<(bool, Vec<String>)>,
))
    requires
        0 < ratio_num < ratio_den,
    ensures
        r.0@ == examples@.take(
            split_point(examples@.len() as int, ratio_num as int, ratio_den as int),
        ),
        r.1@ == examples@.skip(
            split_point(examples@.len() as int, ratio_num as int, ratio_den as int),
        ),
{
    let len: usize = examples.len();
    proof {
        assert((ratio_num as int) * (len as int) < 0x1_0000_0000_0000_0000_0000_0000_0000_0000)
            by (nonlinear_arith)
            requires
                ratio_num <= 0xffff_ffff_ffff_ffffu64,
                len <= 0xffff_ffff_ffff_ffffu64,
        ;
    }
    let sp_wide: u128 = (ratio_num as u128) * (len as u128) / (ratio_den as u128);
    proof {
        let num = ratio_num as int;
        let den = ratio_den as int;
        let l = len as int;
        assert(num * l <= den * l) by (nonlinear_arith)
            requires
                num <= den,
                l >= 0,
        ;
        lemma_div_is_ordered(num * l, den * l, den);
        lemma_div_multiples_vanish(l, den);
        assert(den * l == l * den) by (nonlinear_arith);
        assert(sp_wide <= l);
        lemma_div_pos_is_pos(num * l, den);
        assert(num * l >= 0) by (nonlinear_arith)
            requires
                num >= 0,
                l >= 0,
        ;
    }
    let sp: usize = sp_wide as usize;
    let mut training = examples;
    let validation = training.split_off(sp);
    proof {
        assert(training@ =~= examples@.take(sp as int));
        assert(validation@ =~= examples@.skip(sp as int));
    }
    (training, validation)
}

/// How many examples of `v` have label `expected` and are classified
/// `predicted` by `m`.
pub open spec fn outcome_count(
    m: NaiveBayesClassifier,
    v: Seq<(bool, Vec<String>)>,
    expected: bool,
    predicted: bool,
) -> int
    decreases v.len(),
{
    if v.len() == 0 {
        0
    } else {
        (if v[0].0 == expected && classifies_positive(m, views_of(v[0].1@)) == predicted {
            1int
        } else {
            0int
        }) + outcome_count(m, v.drop_first(), expected, predicted)
    }
}

proof fn lemma_outcome_snoc(
    m: NaiveBayesClassifier,
    v: Seq<(bool, Vec<String>)>,
    e: (bool, Vec<String>),
    expected: bool,
    predicted: bool,
)
    ensures
        outcome_count(m, v.push(e), expected, predicted) == outcome_count(
            m,
            v,
            expected,
            predicted,
        ) + (if e.0 == expected && classifies_positive(m, views_of(e.1@)) == predicted {
            1int
        } else {
            0int
        }),
    decreases v.len(),
{
    assert(outcome_count(m, Seq::<(bool, Vec<String>)>::empty(), expected, predicted) == 0);
    assert(v.push(e)[0] == if v.len() == 0 {
        e
    } else {
        v[0]
    });
    assert(outcome_count(m, v.push(e), expected, predicted) == (if v.push(e)[0].0 == expected
        && classifies_positive(m, views_of(v.push(e)[0].1@)) == predicted {
        1int
    } else {
        0int
    }) + outcome_count(m, v.push(e).drop_first(), expected, predicted));
    if v.len() == 0 {
        assert(v.push(e).drop_first() =~= Seq::<(bool, Vec<String>)>::empty());
    } else {
        assert(v.push(e).drop_first() =~= v.drop_first().push(e));
        lemma_outcome_snoc(m, v.drop_first(), e, expected, predicted);
    }
}

/// The four cells partition the validation set: they add up to its length,
/// so no example is skipped or double-counted.
pub proof fn lemma_outcome_partition(m: NaiveBayesClassifier, v: Seq<(bool, Vec<String>)>)
    ensures
        outcome_count(m, v, true, true) + outcome_count(m, v, true, false) + outcome_count(
            m,
            v,
            false,
            true,
        ) + outcome_count(m, v, false, false) == v.len(),
    decreases v.len(),
{
    if v.len() > 0 {
        lemma_outcome_partition(m, v.drop_first());
    }
}

/// On a non-empty validation set the accuracy denominator is positive, so
/// by the contract of [`ConfusionMatrix::accuracy`] the accuracy is
/// defined and lies between 0 and 1.
pub proof fn lemma_accuracy_defined(
    m: NaiveBayesClassifier,
    v: Seq<(bool, Vec<String>)>,
    cm: ConfusionMatrix,
)
    requires
        v.len() > 0,
        cm.true_positive == outcome_count(m, v, true, true),
        cm.false_negative == outcome_count(m, v, true, false),
        cm.false_positive == outcome_count(m, v, false, true),
        cm.true_negative == outcome_count(m, v, false, false),
    ensures
        cm.true_positive + cm.true_negative + cm.false_positive + cm.false_negative > 0,
{
    lemma_outcome_partition(m, v);
}

/// Classifies every validation example and tallies each into the one
/// confusion-matrix cell that its expected and predicted labels pick.
pub fn evaluate(model: &NaiveBayesClassifier, validation: &Vec<(bool, Vec<String>)>) -> (cm:
    ConfusionMatrix)
    requires
        validation@.len() <= u64::MAX,
    ensures
        cm.true_positive == outcome_count(*model, validation@, true, true),
        cm.false_negative == outcome_count(*model, validation@, true, false),
        cm.false_positive == outcome_count(*model, validation@, false, true),
        cm.true_negative == outcome_count(*model, validation@, false, false),
{
    let ghost v = validation@;
    let mut cm = ConfusionMatrix {
        true_positive: 0,
        true_negative: 0,
        false_positive: 0,
        false_negative: 0,
    };
    let n: usize = validation.len();
    let mut i: usize = 0;
    proof {
        assert(v.take(0) =~= Seq::<(bool, Vec<String>)>::empty());
    }
    while i < n
        invariant
            n == v.len(),
            v == validation@,
            v.len() <= u64::MAX,
            i <= n,
            cm.true_positive == outcome_count(*model, v.take(i as int), true, true),
            cm.false_negative == outcome_count(*model, v.take(i as int), true, false),
            cm.false_positive == outcome_count(*model, v.take(i as int), false, true),
            cm.true_negative == outcome_count(*model, v.take(i as int), false, false),
            cm.true_positive + cm.false_negative + cm.false_positive + cm.true_negative == i,
        decreases n - i,
    {
        let expected: bool = validation[i].0;
        let predicted: bool = model.classify(&validation[i].1);
        if expected && predicted {
            cm.true_positive = cm.true_positive + 1;
        } else if !expected && !predicted {
            cm.true_negative = cm.true_negative + 1;
        } else if !expected && predicted {
            cm.false_positive = cm.false_positive + 1;
        } else {
            cm.false_negative = cm.false_negative + 1;
        }
        proof {
            assert(v.take(i + 1) =~= v.take(i as int).push(v[i as int]));
            lemma_outcome_snoc(*model, v.take(i as int), v[i as int], true, true);
            lemma_outcome_snoc(*model, v.take(i as int), v[i as int], true, false);
            lemma_outcome_snoc(*model, v.take(i as int), v[i as int], false, true);
            lemma_outcome_snoc(*model, v.take(i as int), v[i as int], false, false);
        }
        i += 1;
    }
    proof {
        assert(v.take(n as int) =~= v);
    }
    cm
}

impl ConfusionMatrix {
    /// `tp / (tp + fp)`: of everything predicted positive, the share that
    /// was positive. Undefined when nothing was predicted positive.
    pub fn precision(&self) -> (r: Option<Ratio>)
        requires
            self.true_positive + self.false_positive <= u64::MAX,
        ensures
            ratio_or_undefined(
                self.true_positive as int,
                self.true_positive + self.false_positive,
                r,
            ),
    {
        let den: u64 = self.true_positive + self.false_positive;
        if den == 0 {
            None
        } else {
            Some(Ratio { numerator: self.true_positive, denominator: den })
        }
    }

    /// `tp / (tp + fn)`: of everything actually positive, the share found.
    /// Undefined when nothing was actually positive.
    pub fn recall(&self) -> (r: Option<Ratio>)
        requires
            self.true_positive + self.false_negative <= u64::MAX,
        ensures
            ratio_or_undefined(
                self.true_positive as int,
                self.true_positive + self.false_negative,
                r,
            ),
    {
        let den: u64 = self.true_positive + self.false_negative;
        if den == 0 {
            None
        } else {
            Some(Ratio { numerator: self.true_positive, denominator: den })
        }
    }

    /// `tn / (tn + fp)`: of everything actually negative, the share found.
    /// Undefined when nothing was actually negative.
    pub fn specificity(&self) -> (r: Option<Ratio>)
        requires
            self.true_negative + self.false_positive <= u64::MAX,
        ensures
            ratio_or_undefined(
                self.true_negative as int,
                self.true_negative + self.false_positive,
                r,
            ),
    {
        let den: u64 = self.true_negative + self.false_positive;
        if den == 0 {
            None
        } else {
            Some(Ratio { numerator: self.true_negative, denominator: den })
        }
    }

    /// `(tp + tn) / (tp + tn + fp + fn)`: the share of examples classified
    /// correctly. Undefined on an empty validation set; whenever it is
    /// defined it lies between 0 and 1, as the last clause states.
    pub fn accuracy(&self) -> (r: Option<Ratio>)
        requires
            self.true_positive + self.true_negative + self.false_positive + self.false_negative
                <= u64::MAX,
        ensures
            ratio_or_undefined(
                self.true_positive + self.true_negative,
                self.true_positive + self.true_negative + self.false_positive
                    + self.false_negative,
                r,
            ),
            r is Some ==> r.unwrap().numerator <= r.unwrap().denominator,
    {
        let num: u64 = self.true_positive + self.true_negative;
        let den: u64 = num + self.false_positive + self.false_negative;
        if den == 0 {
            None
        } else {
            Some(Ratio { numerator: num, denominator: den })
        }
    }
}

} // verus!
