//! Detection of cross-sample index hopping in sorted single-cell
//! molecular-barcode record streams.
//!
//! Several per-sample streams of records (cell barcode, UMI, equivalence
//! class, read count), each sorted by a shared key, are merged key by key.
//! Consumers of the merge classify each key's cross-sample presence pattern,
//! fold high-cardinality observations into count-of-counts histograms,
//! partition record groups into kept/removed outputs, and tally how
//! equivalence classes resolve to genes or transcripts.

pub mod records;
pub mod histogram;
pub mod merger;
pub mod vec_histogram;
pub mod overlap;
pub mod fingerprint;
pub mod clones;
pub mod hopping;
pub mod resolver;
pub mod assignment;
pub mod canonical;
pub mod consistency;
pub mod frequency;
pub mod correct;
