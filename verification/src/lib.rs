//! Fuzzy string matching: distance and similarity scorers over Unicode
//! scalar values, and a finder that ranks candidates against a query.

pub mod datetime;
pub mod edits;
pub mod error;
pub mod finder;
pub mod hamming;
pub mod jaro;
pub mod levenshtein;
pub mod natural;
pub mod rank;
pub mod score;
pub mod text;
