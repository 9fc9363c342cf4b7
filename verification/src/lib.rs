//! Taxonomic classification of DNA barcode queries against a reference
//! database.
//!
//! A reference database is a list of sequences, each with its lineage. The
//! library builds an index of the database: a trie of the lineages, for each
//! 8-mer the references that hold it, and for each sequence the references
//! that carry exactly it. For a query it counts the 8-mers that each
//! reference shares with the query, rolls the probability mass of the
//! references up the trie and reports the lineages that carry visible mass,
//! each with a confidence value for every rank.
//!
//! Everything in the library is stated over sequences, sets and integers.
//! Probability mass is counted in whole units, so that the rules of the
//! evaluation hold exactly; how likely each reference is to be the best hit
//! is computed outside the library and handed to it in these units.
//!
//! - [`utils`]: the codes of the bases and the keys of the 8-mers
//! - [`parser`]: FASTA text
//! - [`trie`], [`tree`], [`postings`], [`seqmap`]: the reference index
//! - [`raxtax`], [`prob`]: the steps of classifying a query
//! - [`lineage`], [`binning`]: the evaluation of the mass
//! - [`io`]: checkpoints and taking up an earlier run
//! - [`order`], [`text`], [`pinning`]: sorting, text and processors

pub mod binning;
pub mod io;
pub mod lineage;
pub mod order;
pub mod parser;
pub mod pinning;
pub mod postings;
pub mod prob;
pub mod raxtax;
pub mod seqmap;
pub mod text;
pub mod tree;
pub mod trie;
pub mod utils;
