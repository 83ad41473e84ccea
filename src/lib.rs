//! Enumeration and reduction of quadruples of antipodal sequences that are
//! periodic complementary: rowsum and sequence generation, correlation
//! fingerprints and the join of candidate pairs, the equivalence classes
//! under a catalogue of generators with their canonical representatives,
//! and the block matrices built from the solutions.

pub mod quad;
pub mod symmetries;
pub mod rowsum;
pub mod equivalence;
pub mod counting;
pub mod matching;
pub mod matrices;
pub mod equations;
pub mod records;
pub mod laws;
