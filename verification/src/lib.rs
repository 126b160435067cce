//! A verified binary Naive Bayes text classifier.
//!
//! A document is a sequence of string feature tokens. The model keeps
//! per-label frequency statistics and decides a label by a Laplace-smoothed
//! log-odds rule; the decision is specified and computed exactly, as a
//! comparison of integer products. An evaluation harness splits a labeled
//! corpus, scores the trained model on the held-out part, and derives
//! precision, recall, specificity and accuracy as exact ratios.

pub mod bignum;
pub mod classifier;
pub mod counter;
pub mod harness;
