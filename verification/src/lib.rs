//! Pattern classification for discrete symbol sequences: training of
//! first-order Markov models from labeled sequences, log-likelihood scoring
//! support, and accumulation of classification results (confusion matrix,
//! rank statistics, accuracy counts).

pub mod c12n;
pub mod mm;
pub mod sequence;
