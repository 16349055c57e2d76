//! Usage statistics over per-source question data sets: per-record word and
//! question counts, associative merging of partial aggregates into global
//! per-source and per-tag totals, and bounded "chatty" rankings by the
//! words-per-question ratio.

pub mod keyed;
pub mod line;
pub mod processed_sites;
pub mod ranking;
pub mod site;
pub mod stats;
pub mod tag;
pub mod words;
