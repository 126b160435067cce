//! The binary Naive Bayes model: frequency accounting and the decision rule.

use vstd::prelude::*;
use crate::bignum::BigNat;
use crate::bignum::nat_of;
use crate::counter::Counter;

verus! {

/// Per-class aggregate statistics.
///
/// `feature_count` always equals the sum of all counts in `feature_lookup`;
/// `document_count` is the number of training examples seen with this label.
pub struct LabelStatistics {
    pub feature_count: u64,
    pub document_count: u64,
    pub feature_lookup: Counter,
}

/// A binary Naive Bayes model over string feature tokens.
///
/// It owns the positive and the negative class statistics and a global
/// counter that, for every feature, carries the two per-class counts added
/// together.
pub struct NaiveBayesClassifier {
    pub positive_label: LabelStatistics,
    pub negative_label: LabelStatistics,
    pub total_feature_count: Counter,
}

/// How many examples of the batch carry `label`.
pub open spec fn batch_documents(ex: Seq<(bool, Vec<String>)>, label: bool) -> int
    decreases ex.len(),
{
    if ex.len() == 0 {
        0
    } else {
        (if ex[0].0 == label {
            1int
        } else {
            0int
        }) + batch_documents(ex.drop_first(), label)
    }
}

/// How many feature-token occurrences the batch carries under `label`,
/// duplicates counted individually.
pub open spec fn batch_tokens(ex: Seq<(bool, Vec<String>)>, label: bool) -> int
    decreases ex.len(),
{
    if ex.len() == 0 {
        0
    } else {
        (if ex[0].0 == label {
            ex[0].1@.len() as int
        } else {
            0int
        }) + batch_tokens(ex.drop_first(), label)
    }
}

/// How many of the tokens equal `f`.
pub open spec fn token_occurrences(toks: Seq<String>, f: Seq<char>) -> int
    decreases toks.len(),
{
    if toks.len() == 0 {
        0
    } else {
        (if toks[0]@ == f {
            1int
        } else {
            0int
        }) + token_occurrences(toks.drop_first(), f)
    }
}

/// How often feature `f` occurs in the batch under `label`.
pub open spec fn batch_feature_count(
    ex: Seq<(bool, Vec<String>)>,
    label: bool,
    f: Seq<char>,
) -> int
    decreases ex.len(),
{
    if ex.len() == 0 {
        0
    } else {
        (if ex[0].0 == label {
            token_occurrences(ex[0].1@, f)
        } else {
            0int
        }) + batch_feature_count(ex.drop_first(), label, f)
    }
}

/// The views of a vector of tokens.
pub open spec fn views_of(toks: Seq<String>) -> Seq<Seq<char>> {
    Seq::new(toks.len(), |i: int| toks[i]@)
}

proof fn lemma_token_occ_nonneg(toks: Seq<String>, f: Seq<char>)
    ensures
        token_occurrences(toks, f) >= 0,
    decreases toks.len(),
{
    if toks.len() > 0 {
        lemma_token_occ_nonneg(toks.drop_first(), f);
    }
}

proof fn lemma_token_occ_snoc(toks: Seq<String>, x: String, f: Seq<char>)
    ensures
        token_occurrences(toks.push(x), f) == token_occurrences(toks, f) + (if x@ == f {
            1int
        } else {
            0int
        }),
    decreases toks.len(),
{
    assert(token_occurrences(Seq::<String>::empty(), f) == 0);
    assert(toks.push(x)[0] == if toks.len() == 0 {
        x
    } else {
        toks[0]
    });
    assert(token_occurrences(toks.push(x), f) == (if toks.push(x)[0]@ == f {
        1int
    } else {
        0int
    }) + token_occurrences(toks.push(x).drop_first(), f));
    if toks.len() == 0 {
        assert(toks.push(x).drop_first() =~= Seq::<String>::empty());
    } else {
        assert(toks.push(x).drop_first() =~= toks.drop_first().push(x));
        lemma_token_occ_snoc(toks.drop_first(), x, f);
    }
}

proof fn lemma_token_occ_concat(t1: Seq<String>, t2: Seq<String>, f: Seq<char>)
    ensures
        token_occurrences(t1 + t2, f) == token_occurrences(t1, f) + token_occurrences(t2, f),
    decreases t1.len(),
{
    if t1.len() == 0 {
        assert(t1 + t2 =~= t2);
    } else {
        assert((t1 + t2).drop_first() =~= t1.drop_first() + t2);
        lemma_token_occ_concat(t1.drop_first(), t2, f);
    }
}

/// A strict prefix, plus the token right after it, never counts more
/// occurrences of `f` than the whole sequence.
proof fn lemma_token_prefix_bound(toks: Seq<String>, j: int, f: Seq<char>)
    requires
        0 <= j < toks.len(),
    ensures
        token_occurrences(toks.take(j), f) + (if toks[j]@ == f {
            1int
        } else {
            0int
        }) <= token_occurrences(toks, f),
{
    assert(toks =~= toks.take(j + 1) + toks.skip(j + 1));
    lemma_token_occ_concat(toks.take(j + 1), toks.skip(j + 1), f);
    assert(toks.take(j + 1) =~= toks.take(j).push(toks[j]));
    lemma_token_occ_snoc(toks.take(j), toks[j], f);
    lemma_token_occ_nonneg(toks.skip(j + 1), f);
}

proof fn lemma_batch_nonneg(ex: Seq<(bool, Vec<String>)>, label: bool, f: Seq<char>)
    ensures
        batch_documents(ex, label) >= 0,
        batch_tokens(ex, label) >= 0,
        batch_feature_count(ex, label, f) >= 0,
    decreases ex.len(),
{
    if ex.len() > 0 {
        lemma_token_occ_nonneg(ex[0].1@, f);
        lemma_batch_nonneg(ex.drop_first(), label, f);
    }
}

proof fn lemma_batch_snoc(
    ex: Seq<(bool, Vec<String>)>,
    e: (bool, Vec<String>),
    label: bool,
    f: Seq<char>,
)
    ensures
        batch_documents(ex.push(e), label) == batch_documents(ex, label) + (if e.0 == label {
            1int
        } else {
            0int
        }),
        batch_tokens(ex.push(e), label) == batch_tokens(ex, label) + (if e.0 == label {
            e.1@.len() as int
        } else {
            0int
        }),
        batch_feature_count(ex.push(e), label, f) == batch_feature_count(ex, label, f) + (
        if e.0 == label {
            token_occurrences(e.1@, f)
        } else {
            0int
        }),
    decreases ex.len(),
{
    assert(batch_documents(Seq::<(bool, Vec<String>)>::empty(), label) == 0);
    assert(batch_tokens(Seq::<(bool, Vec<String>)>::empty(), label) == 0);
    assert(batch_feature_count(Seq::<(bool, Vec<String>)>::empty(), label, f) == 0);
    assert(ex.push(e)[0] == if ex.len() == 0 {
        e
    } else {
        ex[0]
    });
    assert(batch_documents(ex.push(e), label) == (if ex.push(e)[0].0 == label {
        1int
    } else {
        0int
    }) + batch_documents(ex.push(e).drop_first(), label));
    assert(batch_tokens(ex.push(e), label) == (if ex.push(e)[0].0 == label {
        ex.push(e)[0].1@.len() as int
    } else {
        0int
    }) + batch_tokens(ex.push(e).drop_first(), label));
    assert(batch_feature_count(ex.push(e), label, f) == (if ex.push(e)[0].0 == label {
        token_occurrences(ex.push(e)[0].1@, f)
    } else {
        0int
    }) + batch_feature_count(ex.push(e).drop_first(), label, f));
    if ex.len() == 0 {
        assert(ex.push(e).drop_first() =~= Seq::<(bool, Vec<String>)>::empty());
    } else {
        assert(ex.push(e).drop_first() =~= ex.drop_first().push(e));
        lemma_batch_snoc(ex.drop_first(), e, label, f);
    }
}

/// Training on one batch after another accumulates exactly what training on
/// the two batches joined into one would: every batch quantity is additive
/// over concatenation. Together with the contract of
/// [`NaiveBayesClassifier::train`] this says that two `train` calls leave
/// the same counts as a single call on the concatenated example sequence.
pub proof fn lemma_train_batch_concat(
    ex1: Seq<(bool, Vec<String>)>,
    ex2: Seq<(bool, Vec<String>)>,
    label: bool,
    f: Seq<char>,
)
    ensures
        batch_documents(ex1 + ex2, label) == batch_documents(ex1, label) + batch_documents(
            ex2,
            label,
        ),
        batch_tokens(ex1 + ex2, label) == batch_tokens(ex1, label) + batch_tokens(ex2, label),
        batch_feature_count(ex1 + ex2, label, f) == batch_feature_count(ex1, label, f)
            + batch_feature_count(ex2, label, f),
    decreases ex1.len(),
{
    if ex1.len() == 0 {
        assert(ex1 + ex2 =~= ex2);
    } else {
        assert((ex1 + ex2).drop_first() =~= ex1.drop_first() + ex2);
        lemma_train_batch_concat(ex1.drop_first(), ex2, label, f);
    }
}

/// Removing the example at `k` takes away exactly its own contribution.
proof fn lemma_batch_remove(ex: Seq<(bool, Vec<String>)>, k: int, label: bool, f: Seq<char>)
    requires
        0 <= k < ex.len(),
    ensures
        batch_documents(ex, label) == batch_documents(ex.remove(k), label) + (if ex[k].0
            == label {
            1int
        } else {
            0int
        }),
        batch_tokens(ex, label) == batch_tokens(ex.remove(k), label) + (if ex[k].0 == label {
            ex[k].1@.len() as int
        } else {
            0int
        }),
        batch_feature_count(ex, label, f) == batch_feature_count(ex.remove(k), label, f) + (
        if ex[k].0 == label {
            token_occurrences(ex[k].1@, f)
        } else {
            0int
        }),
{
    assert(ex =~= (ex.take(k).push(ex[k])) + ex.skip(k + 1));
    assert(ex.remove(k) =~= ex.take(k) + ex.skip(k + 1));
    lemma_train_batch_concat(ex.take(k).push(ex[k]), ex.skip(k + 1), label, f);
    lemma_train_batch_concat(ex.take(k), ex.skip(k + 1), label, f);
    lemma_batch_snoc(ex.take(k), ex[k], label, f);
}

/// Training order does not matter: two example sequences that are
/// permutations of one another accumulate the same batch quantities, so by
/// the contract of [`NaiveBayesClassifier::train`] they leave a model with
/// the same counts. All updates are additive increments keyed by token.
pub proof fn lemma_train_batch_permutation(
    ex1: Seq<(bool, Vec<String>)>,
    ex2: Seq<(bool, Vec<String>)>,
    label: bool,
    f: Seq<char>,
)
    requires
        ex1.to_multiset() == ex2.to_multiset(),
    ensures
        batch_documents(ex1, label) == batch_documents(ex2, label),
        batch_tokens(ex1, label) == batch_tokens(ex2, label),
        batch_feature_count(ex1, label, f) == batch_feature_count(ex2, label, f),
    decreases ex1.len(),
{
    broadcast use vstd::seq_lib::group_to_multiset_ensures;

    if ex1.len() == 0 {
        assert(ex1.to_multiset().len() == 0);
        assert(ex2.len() == 0);
    } else {
        let e = ex1[0];
        assert(ex1.contains(e));
        assert(ex1.to_multiset().count(e) > 0);
        assert(ex2.to_multiset().count(e) > 0);
        assert(ex2.contains(e));
        let k = choose|k: int| 0 <= k < ex2.len() && ex2[k] == e;
        assert(ex1.remove(0).to_multiset() == ex1.to_multiset().remove(e));
        assert(ex2.remove(k).to_multiset() == ex2.to_multiset().remove(e));
        assert(ex1.remove(0) =~= ex1.drop_first());
        lemma_train_batch_permutation(ex1.drop_first(), ex2.remove(k), label, f);
        lemma_batch_remove(ex2, k, label, f);
    }
}

/// The positive side of the decision rule: the product, over the features,
/// of the smoothed positive evidence `(count(f) + 1)` scaled by the
/// negative class's smoothed denominator `(feature_count + 1)`.
pub open spec fn positive_product(m: NaiveBayesClassifier, feats: Seq<Seq<char>>) -> int
    decreases feats.len(),
{
    if feats.len() == 0 {
        1
    } else {
        (m.positive_label.feature_lookup.count(feats[0]) + 1) * (m.negative_label.feature_count
            + 1) * positive_product(m, feats.drop_first())
    }
}

/// The negative side of the decision rule, mirror of [`positive_product`].
pub open spec fn negative_product(m: NaiveBayesClassifier, feats: Seq<Seq<char>>) -> int
    decreases feats.len(),
{
    if feats.len() == 0 {
        1
    } else {
        (m.negative_label.feature_lookup.count(feats[0]) + 1) * (m.positive_label.feature_count
            + 1) * negative_product(m, feats.drop_first())
    }
}

/// The decision rule. The model scores a document by the prior
/// `log2((positive.document_count + 1) / (negative.document_count + 1))`
/// plus, over the features,
/// `log2(P(f|positive) / P(f|negative))` with
/// `P(f|label) = (count(f) + 1) / (feature_count + 1)`, and answers
/// positively exactly when the score is strictly above zero. Since `log2`
/// is strictly monotone, that score is strictly positive exactly when the
/// product of all numerators exceeds the product of all denominators, which
/// is what this predicate states, exactly, over the integers.
pub open spec fn classifies_positive(m: NaiveBayesClassifier, feats: Seq<Seq<char>>) -> bool {
    (m.positive_label.document_count + 1) * positive_product(m, feats) > (
    m.negative_label.document_count + 1) * negative_product(m, feats)
}

proof fn lemma_product_snoc(m: NaiveBayesClassifier, feats: Seq<Seq<char>>, f: Seq<char>)
    ensures
        positive_product(m, feats.push(f)) == positive_product(m, feats) * ((
        m.positive_label.feature_lookup.count(f) + 1) * (m.negative_label.feature_count + 1)),
        negative_product(m, feats.push(f)) == negative_product(m, feats) * ((
        m.negative_label.feature_lookup.count(f) + 1) * (m.positive_label.feature_count + 1)),
    decreases feats.len(),
{
    assert(feats.push(f)[0] == if feats.len() == 0 {
        f
    } else {
        feats[0]
    });
    assert(positive_product(m, feats.push(f)) == (m.positive_label.feature_lookup.count(
        feats.push(f)[0],
    ) + 1) * (m.negative_label.feature_count + 1) * positive_product(
        m,
        feats.push(f).drop_first(),
    ));
    assert(negative_product(m, feats.push(f)) == (m.negative_label.feature_lookup.count(
        feats.push(f)[0],
    ) + 1) * (m.positive_label.feature_count + 1) * negative_product(
        m,
        feats.push(f).drop_first(),
    ));
    if feats.len() == 0 {
        assert(feats.push(f).drop_first() =~= Seq::<Seq<char>>::empty());
        assert(positive_product(m, Seq::<Seq<char>>::empty()) == 1);
        assert(negative_product(m, Seq::<Seq<char>>::empty()) == 1);
    } else {
        assert(feats.push(f).drop_first() =~= feats.drop_first().push(f));
        lemma_product_snoc(m, feats.drop_first(), f);
        let a = (m.positive_label.feature_lookup.count(feats[0]) + 1) * (
        m.negative_label.feature_count + 1);
        let b = (m.positive_label.feature_lookup.count(f) + 1) * (
        m.negative_label.feature_count + 1);
        let p = positive_product(m, feats.drop_first());
        assert(a * (p * b) == (a * p) * b) by (nonlinear_arith);
        let a2 = (m.negative_label.feature_lookup.count(feats[0]) + 1) * (
        m.positive_label.feature_count + 1);
        let b2 = (m.negative_label.feature_lookup.count(f) + 1) * (
        m.positive_label.feature_count + 1);
        let p2 = negative_product(m, feats.drop_first());
        assert(a2 * (p2 * b2) == (a2 * p2) * b2) by (nonlinear_arith);
    }
}

/// On a model with no trained statistics at all, the two sides of the
/// decision rule are equal for every input, so `classify` answers `false`
/// by the tie rule.
pub proof fn lemma_untrained_classifies_negative(
    m: NaiveBayesClassifier,
    feats: Seq<Seq<char>>,
)
    requires
        m.positive_label.document_count == 0,
        m.negative_label.document_count == 0,
        m.positive_label.feature_count == 0,
        m.negative_label.feature_count == 0,
        forall|f: Seq<char>| m.positive_label.feature_lookup.count(f) == 0,
        forall|f: Seq<char>| m.negative_label.feature_lookup.count(f) == 0,
    ensures
        !classifies_positive(m, feats),
        positive_product(m, feats) == negative_product(m, feats),
    decreases feats.len(),
{
    if feats.len() > 0 {
        lemma_untrained_classifies_negative(m, feats.drop_first());
        assert(m.positive_label.feature_lookup.count(feats[0]) == 0);
        assert(m.negative_label.feature_lookup.count(feats[0]) == 0);
    }
}

impl NaiveBayesClassifier {
    /// The model's internal consistency: each class's `feature_count` is
    /// the sum of its lookup table, and the global counter carries, for
    /// every feature, the two per-class counts added together.
    pub open spec fn wf(self) -> bool {
        &&& self.positive_label.feature_count == self.positive_label.feature_lookup.total()
        &&& self.negative_label.feature_count == self.negative_label.feature_lookup.total()
        &&& forall|f: Seq<char>|
            #[trigger] self.total_feature_count.count(f)
                == self.positive_label.feature_lookup.count(f)
                + self.negative_label.feature_lookup.count(f)
    }

    /// An untrained model: every count is zero.
    pub fn new() -> (c: NaiveBayesClassifier)
        ensures
            c.wf(),
            c.positive_label.document_count == 0,
            c.negative_label.document_count == 0,
            c.positive_label.feature_count == 0,
            c.negative_label.feature_count == 0,
            forall|f: Seq<char>| #[trigger] c.positive_label.feature_lookup.count(f) == 0,
            forall|f: Seq<char>| #[trigger] c.negative_label.feature_lookup.count(f) == 0,
            forall|f: Seq<char>| #[trigger] c.total_feature_count.count(f) == 0,
    {
        let positive = LabelStatistics {
            feature_count: 0,
            document_count: 0,
            feature_lookup: Counter::new(),
        };
        let negative = LabelStatistics {
            feature_count: 0,
            document_count: 0,
            feature_lookup: Counter::new(),
        };
        NaiveBayesClassifier {
            positive_label: positive,
            negative_label: negative,
            total_feature_count: Counter::new(),
        }
    }

    /// Accumulates a batch of labeled examples into the model, in input
    /// order: per example one document count, and per feature-token
    /// occurrence one count in the label's lookup table, in the label's
    /// `feature_count`, and in the global counter.
    pub fn train(&mut self, labeled_features: &Vec<(bool, Vec<String>)>)
        requires
            old(self).wf(),
            old(self).positive_label.document_count + batch_documents(
                labeled_features@,
                true,
            ) <= u64::MAX,
            old(self).negative_label.document_count + batch_documents(
                labeled_features@,
                false,
            ) <= u64::MAX,
            old(self).positive_label.feature_count + batch_tokens(labeled_features@, true)
                <= u64::MAX,
            old(self).negative_label.feature_count + batch_tokens(labeled_features@, false)
                <= u64::MAX,
            forall|f: Seq<char>|
                old(self).total_feature_count.count(f) + #[trigger] batch_feature_count(
                    labeled_features@,
                    true,
                    f,
                ) + batch_feature_count(labeled_features@, false, f) <= u32::MAX,
        ensures
            final(self).wf(),
            final(self).positive_label.document_count == old(
                self,
            ).positive_label.document_count + batch_documents(labeled_features@, true),
            final(self).negative_label.document_count == old(
                self,
            ).negative_label.document_count + batch_documents(labeled_features@, false),
            final(self).positive_label.feature_count == old(self).positive_label.feature_count
                + batch_tokens(labeled_features@, true),
            final(self).negative_label.feature_count == old(self).negative_label.feature_count
                + batch_tokens(labeled_features@, false),
            forall|f: Seq<char>|
                #[trigger] final(self).positive_label.feature_lookup.count(f) == old(
                    self,
                ).positive_label.feature_lookup.count(f) + batch_feature_count(
                    labeled_features@,
                    true,
                    f,
                ),
            forall|f: Seq<char>|
                #[trigger] final(self).negative_label.feature_lookup.count(f) == old(
                    self,
                ).negative_label.feature_lookup.count(f) + batch_feature_count(
                    labeled_features@,
                    false,
                    f,
                ),
            forall|f: Seq<char>|
                #[trigger] final(self).total_feature_count.count(f) == old(
                    self,
                ).total_feature_count.count(f) + batch_feature_count(labeled_features@, true, f)
                    + batch_feature_count(labeled_features@, false, f),
    {
        let ghost ex = labeled_features@;
        let ghost m0 = *old(self);
        let n: usize = labeled_features.len();
        let mut i: usize = 0;
        proof {
            assert(ex.take(0) =~= Seq::<(bool, Vec<String>)>::empty());
        }
        while i < n
            invariant
                n == ex.len(),
                ex == labeled_features@,
                i <= n,
                self.wf(),
                m0.wf(),
                m0.positive_label.document_count + batch_documents(ex, true) <= u64::MAX,
                m0.negative_label.document_count + batch_documents(ex, false) <= u64::MAX,
                m0.positive_label.feature_count + batch_tokens(ex, true) <= u64::MAX,
                m0.negative_label.feature_count + batch_tokens(ex, false) <= u64::MAX,
                forall|f: Seq<char>|
                    m0.total_feature_count.count(f) + #[trigger] batch_feature_count(ex, true, f)
                        + batch_feature_count(ex, false, f) <= u32::MAX,
                self.positive_label.document_count == m0.positive_label.document_count
                    + batch_documents(ex.take(i as int), true),
                self.negative_label.document_count == m0.negative_label.document_count
                    + batch_documents(ex.take(i as int), false),
                self.positive_label.feature_count == m0.positive_label.feature_count
                    + batch_tokens(ex.take(i as int), true),
                self.negative_label.feature_count == m0.negative_label.feature_count
                    + batch_tokens(ex.take(i as int), false),
                forall|f: Seq<char>|
                    #[trigger] self.positive_label.feature_lookup.count(f)
                        == m0.positive_label.feature_lookup.count(f) + batch_feature_count(
                        ex.take(i as int),
                        true,
                        f,
                    ),
                forall|f: Seq<char>|
                    #[trigger] self.negative_label.feature_lookup.count(f)
                        == m0.negative_label.feature_lookup.count(f) + batch_feature_count(
                        ex.take(i as int),
                        false,
                        f,
                    ),
                forall|f: Seq<char>|
                    #[trigger] self.total_feature_count.count(f)
                        == m0.total_feature_count.count(f) + batch_feature_count(
                        ex.take(i as int),
                        true,
                        f,
                    ) + batch_feature_count(ex.take(i as int), false, f),
            decreases n - i,
        {
            let label: bool = labeled_features[i].0;
            let ghost toks = ex[i as int].1@;
            proof {
                lemma_batch_nonneg(ex.take(i as int), true, Seq::<char>::empty());
                lemma_batch_nonneg(ex.take(i as int), false, Seq::<char>::empty());
                lemma_batch_nonneg(ex.skip(i + 1), true, Seq::<char>::empty());
                lemma_batch_nonneg(ex.skip(i + 1), false, Seq::<char>::empty());
                assert(ex =~= (ex.take(i as int).push(ex[i as int])) + ex.skip(i + 1));
                lemma_train_batch_concat(
                    ex.take(i as int).push(ex[i as int]),
                    ex.skip(i + 1),
                    true,
                    Seq::<char>::empty(),
                );
                lemma_train_batch_concat(
                    ex.take(i as int).push(ex[i as int]),
                    ex.skip(i + 1),
                    false,
                    Seq::<char>::empty(),
                );
                lemma_batch_snoc(ex.take(i as int), ex[i as int], true, Seq::<char>::empty());
                lemma_batch_snoc(ex.take(i as int), ex[i as int], false, Seq::<char>::empty());
            }
            if label {
                self.positive_label.document_count = self.positive_label.document_count + 1;
            } else {
                self.negative_label.document_count = self.negative_label.document_count + 1;
            }
            let m: usize = labeled_features[i].1.len();
            let mut j: usize = 0;
            proof {
                assert(toks.take(0) =~= Seq::<String>::empty());
            }
            while j < m
                invariant
                    n == ex.len(),
                    ex == labeled_features@,
                    i < n,
                    label == ex[i as int].0,
                    toks == ex[i as int].1@,
                    m == toks.len(),
                    j <= m,
                    self.wf(),
                    m0.wf(),
                    m0.positive_label.feature_count + batch_tokens(ex, true) <= u64::MAX,
                    m0.negative_label.feature_count + batch_tokens(ex, false) <= u64::MAX,
                    forall|f: Seq<char>|
                        m0.total_feature_count.count(f) + #[trigger] batch_feature_count(
                            ex,
                            true,
                            f,
                        ) + batch_feature_count(ex, false, f) <= u32::MAX,
                    self.positive_label.document_count == m0.positive_label.document_count
                        + batch_documents(ex.take(i as int), true) + (if label {
                        1int
                    } else {
                        0int
                    }),
                    self.negative_label.document_count == m0.negative_label.document_count
                        + batch_documents(ex.take(i as int), false) + (if label {
                        0int
                    } else {
                        1int
                    }),
                    self.positive_label.feature_count == m0.positive_label.feature_count
                        + batch_tokens(ex.take(i as int), true) + (if label {
                        j as int
                    } else {
                        0int
                    }),
                    self.negative_label.feature_count == m0.negative_label.feature_count
                        + batch_tokens(ex.take(i as int), false) + (if label {
                        0int
                    } else {
                        j as int
                    }),
                    forall|f: Seq<char>|
                        #[trigger] self.positive_label.feature_lookup.count(f)
                            == m0.positive_label.feature_lookup.count(f) + batch_feature_count(
                            ex.take(i as int),
                            true,
                            f,
                        ) + (if label {
                            token_occurrences(toks.take(j as int), f)
                        } else {
                            0int
                        }),
                    forall|f: Seq<char>|
                        #[trigger] self.negative_label.feature_lookup.count(f)
                            == m0.negative_label.feature_lookup.count(f) + batch_feature_count(
                            ex.take(i as int),
                            false,
                            f,
                        ) + (if label {
                            0int
                        } else {
                            token_occurrences(toks.take(j as int), f)
                        }),
                    forall|f: Seq<char>|
                        #[trigger] self.total_feature_count.count(f)
                            == m0.total_feature_count.count(f) + batch_feature_count(
                            ex.take(i as int),
                            true,
                            f,
                        ) + batch_feature_count(ex.take(i as int), false, f)
                            + token_occurrences(toks.take(j as int), f),
                decreases m - j,
            {
                let tok: &String = &labeled_features[i].1[j];
                let ghost fk = tok@;
                proof {
                    assert(toks[j as int]@ == fk);
                    // Bound the three counters that are about to grow.
                    lemma_token_prefix_bound(toks, j as int, fk);
                    lemma_token_occ_nonneg(toks.take(j as int), fk);
                    lemma_batch_nonneg(ex.take(i as int), true, fk);
                    lemma_batch_nonneg(ex.take(i as int), false, fk);
                    lemma_batch_nonneg(ex.skip(i + 1), true, fk);
                    lemma_batch_nonneg(ex.skip(i + 1), false, fk);
                    assert(ex =~= (ex.take(i as int).push(ex[i as int])) + ex.skip(i + 1));
                    lemma_train_batch_concat(
                        ex.take(i as int).push(ex[i as int]),
                        ex.skip(i + 1),
                        true,
                        fk,
                    );
                    lemma_train_batch_concat(
                        ex.take(i as int).push(ex[i as int]),
                        ex.skip(i + 1),
                        false,
                        fk,
                    );
                    lemma_batch_snoc(ex.take(i as int), ex[i as int], true, fk);
                    lemma_batch_snoc(ex.take(i as int), ex[i as int], false, fk);
                    assert(m0.total_feature_count.count(fk) + batch_feature_count(ex, true, fk)
                        + batch_feature_count(ex, false, fk) <= u32::MAX);
                    assert(self.total_feature_count.count(fk) < u32::MAX);
                }
                let ghost before_pos = self.positive_label.feature_lookup;
                let ghost before_neg = self.negative_label.feature_lookup;
                let ghost before_tot = self.total_feature_count;
                if label {
                    self.positive_label.feature_lookup.increment(tok.as_str());
                    self.positive_label.feature_count = self.positive_label.feature_count + 1;
                } else {
                    self.negative_label.feature_lookup.increment(tok.as_str());
                    self.negative_label.feature_count = self.negative_label.feature_count + 1;
                }
                self.total_feature_count.increment(tok.as_str());
                proof {
                    assert(toks.take(j + 1) =~= toks.take(j as int).push(toks[j as int]));
                    assert forall|f: Seq<char>|
                        #[trigger] self.total_feature_count.count(f)
                            == m0.total_feature_count.count(f) + batch_feature_count(
                            ex.take(i as int),
                            true,
                            f,
                        ) + batch_feature_count(ex.take(i as int), false, f)
                            + token_occurrences(toks.take(j + 1), f) by {
                        lemma_token_occ_snoc(toks.take(j as int), toks[j as int], f);
                    }
                    assert forall|f: Seq<char>|
                        #[trigger] self.positive_label.feature_lookup.count(f)
                            == m0.positive_label.feature_lookup.count(f) + batch_feature_count(
                            ex.take(i as int),
                            true,
                            f,
                        ) + (if label {
                            token_occurrences(toks.take(j + 1), f)
                        } else {
                            0int
                        }) by {
                        lemma_token_occ_snoc(toks.take(j as int), toks[j as int], f);
                    }
                    assert forall|f: Seq<char>|
                        #[trigger] self.negative_label.feature_lookup.count(f)
                            == m0.negative_label.feature_lookup.count(f) + batch_feature_count(
                            ex.take(i as int),
                            false,
                            f,
                        ) + (if label {
                            0int
                        } else {
                            token_occurrences(toks.take(j + 1), f)
                        }) by {
                        lemma_token_occ_snoc(toks.take(j as int), toks[j as int], f);
                    }
                    assert forall|f: Seq<char>|
                        #[trigger] self.total_feature_count.count(f)
                            == self.positive_label.feature_lookup.count(f)
                            + self.negative_label.feature_lookup.count(f) by {
                        if f != fk {
                            assert(before_tot.count(f) == before_pos.count(f) + before_neg.count(
                                f,
                            ));
                        }
                    }
                }
                j += 1;
            }
            proof {
                assert(toks.take(m as int) =~= toks);
                assert(ex.take(i + 1) =~= ex.take(i as int).push(ex[i as int]));
                assert forall|f: Seq<char>|
                    #[trigger] self.positive_label.feature_lookup.count(f)
                        == m0.positive_label.feature_lookup.count(f) + batch_feature_count(
                        ex.take(i + 1),
                        true,
                        f,
                    ) by {
                    lemma_batch_snoc(ex.take(i as int), ex[i as int], true, f);
                }
                assert forall|f: Seq<char>|
                    #[trigger] self.negative_label.feature_lookup.count(f)
                        == m0.negative_label.feature_lookup.count(f) + batch_feature_count(
                        ex.take(i + 1),
                        false,
                        f,
                    ) by {
                    lemma_batch_snoc(ex.take(i as int), ex[i as int], false, f);
                }
                assert forall|f: Seq<char>|
                    #[trigger] self.total_feature_count.count(f) == m0.total_feature_count.count(
                        f,
                    ) + batch_feature_count(ex.take(i + 1), true, f) + batch_feature_count(
                        ex.take(i + 1),
                        false,
                        f,
                    ) by {
                    lemma_batch_snoc(ex.take(i as int), ex[i as int], true, f);
                    lemma_batch_snoc(ex.take(i as int), ex[i as int], false, f);
                }
                lemma_batch_snoc(ex.take(i as int), ex[i as int], true, Seq::<char>::empty());
                lemma_batch_snoc(ex.take(i as int), ex[i as int], false, Seq::<char>::empty());
            }
            i += 1;
        }
        proof {
            assert(ex.take(n as int) =~= ex);
        }
    }

    /// Scores the features by the smoothed log-odds rule and returns `true`
    /// exactly when the score is strictly positive; a tie answers `false`.
    /// The comparison is carried out exactly, as the equivalent integer
    /// product comparison, so no token ever seen or unseen can fail it, and
    /// an empty input leaves only the prior. The model is not changed.
    pub fn classify(&self, feature_vec: &Vec<String>) -> (r: bool)
        ensures
            r == classifies_positive(*self, views_of(feature_vec@)),
    {
        let ghost fs = views_of(feature_vec@);
        let mut num = BigNat::one();
        let mut den = BigNat::one();
        num.mul_succ(self.positive_label.document_count);
        den.mul_succ(self.negative_label.document_count);
        let n: usize = feature_vec.len();
        let mut i: usize = 0;
        proof {
            assert(fs.take(0) =~= Seq::<Seq<char>>::empty());
            assert(positive_product(*self, Seq::<Seq<char>>::empty()) == 1);
            assert(negative_product(*self, Seq::<Seq<char>>::empty()) == 1);
        }
        while i < n
            invariant
                n == feature_vec@.len(),
                fs == views_of(feature_vec@),
                i <= n,
                nat_of(num.limbs@) == (self.positive_label.document_count + 1)
                    * positive_product(*self, fs.take(i as int)),
                nat_of(den.limbs@) == (self.negative_label.document_count + 1)
                    * negative_product(*self, fs.take(i as int)),
            decreases n - i,
        {
            let c_pos: u32 = self.positive_label.feature_lookup.get(feature_vec[i].as_str());
            let c_neg: u32 = self.negative_label.feature_lookup.get(feature_vec[i].as_str());
            let ghost num_before = nat_of(num.limbs@);
            let ghost den_before = nat_of(den.limbs@);
            num.mul_succ(c_pos as u64);
            num.mul_succ(self.negative_label.feature_count);
            den.mul_succ(c_neg as u64);
            den.mul_succ(self.positive_label.feature_count);
            proof {
                assert(fs[i as int] == feature_vec@[i as int]@);
                assert(fs.take(i + 1) =~= fs.take(i as int).push(fs[i as int]));
                lemma_product_snoc(*self, fs.take(i as int), fs[i as int]);
                let dp = self.positive_label.document_count + 1;
                let dn = self.negative_label.document_count + 1;
                let pp = positive_product(*self, fs.take(i as int));
                let np = negative_product(*self, fs.take(i as int));
                let wp = (c_pos + 1) * (self.negative_label.feature_count + 1);
                let wn = (c_neg + 1) * (self.positive_label.feature_count + 1);
                assert(nat_of(num.limbs@) == dp * (pp * wp)) by (nonlinear_arith)
                    requires
                        nat_of(num.limbs@) == (num_before * ((c_pos as int) + 1)) * ((
                        self.negative_label.feature_count as int) + 1),
                        num_before == dp * pp,
                        wp == ((c_pos as int) + 1) * ((self.negative_label.feature_count as int)
                            + 1),
                ;
                assert(nat_of(den.limbs@) == dn * (np * wn)) by (nonlinear_arith)
                    requires
                        nat_of(den.limbs@) == (den_before * ((c_neg as int) + 1)) * ((
                        self.positive_label.feature_count as int) + 1),
                        den_before == dn * np,
                        wn == ((c_neg as int) + 1) * ((self.positive_label.feature_count as int)
                            + 1),
                ;
            }
            i += 1;
        }
        proof {
            assert(fs.take(n as int) =~= fs);
        }
        den.lt(&num)
    }
}

} // verus!
