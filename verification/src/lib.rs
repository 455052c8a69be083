//! Search engine for word sequences that are letter-for-letter permutations
//! of a fixed target phrase and whose rendered text matches one of a set of
//! known content hashes: multiset arithmetic over letters, a dictionary index
//! keyed by sorted letters, a backtracking combination search, a permutation
//! engine, a cartesian word expander with checksum matching, and a scheduler
//! that drives one branch per top-level key.

pub mod chars;
pub mod checksum;
pub mod dict;
pub mod metrics;
pub mod permute;
pub mod search;
