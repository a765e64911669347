//! Verified solver for the five-word / twenty-five-letter puzzle: find every
//! combination of five five-letter words from a dictionary that together use
//! 25 distinct letters of the alphabet.
//!
//! - [`words`] encodes dictionary lines as 26-bit letter sets and merges
//!   anagrams;
//! - [`grouping`] builds the search space: one letter group per letter,
//!   ordered by candidate count, pruned by the seen-letters invariant, with
//!   the two pseudovowel hitting sets;
//! - [`search`] is the backtracking engine, proved to return exactly the
//!   solutions of its mathematical mirror, each five pairwise-disjoint words
//!   covering 25 letters;
//! - [`split`] decomposes the search into independent tasks for the
//!   worker-pool and data-parallel strategies, proved equal to the
//!   sequential run under any merge order;
//! - [`equiv`] proves pruning soundness: with all pruning disabled the
//!   engine finds exactly the same solutions;
//! - [`complete`] proves completeness: every combination of five
//!   pairwise-disjoint dictionary words is reported, with or without
//!   pruning;
//! - [`bits`] and [`seqs`] hold the supporting popcount and sequence lemmas.

pub mod bits;
pub mod complete;
pub mod equiv;
pub mod grouping;
pub mod search;
pub mod seqs;
pub mod space;
pub mod split;
pub mod words;
