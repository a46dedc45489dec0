//! Statistical text categorization by character n-gram profiles.
//!
//! A text is normalized, split into overlapping character n-grams, and the
//! n-grams are ranked by frequency into a profile. Profiles are compared
//! with an out-of-place rank distance, and a store of labeled profiles
//! classifies unseen text, reporting a label only when the best match is
//! unambiguous.
use vstd::prelude::*;

pub mod category;
pub mod lexord;
pub mod normalize;
pub mod ngram;
