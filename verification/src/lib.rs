//! A small supervised text classifier: a multinomial Naive Bayes model with
//! additive (add-one) smoothing over whitespace-separated, stemmed words.
//!
//! Labels are scored by the posterior log-score
//! `ln(prior) + sum of ln(smoothed word likelihood)`; since `ln` is strictly
//! monotone and the total document count is a common factor of every prior,
//! labels are ordered exactly as the integer products of counts over the
//! common smoothing denominators, so the chosen label is computed here by
//! exact integer comparison.

pub mod bignum;
pub mod model;
pub mod text;
