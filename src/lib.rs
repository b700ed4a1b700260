//! A catalogue of filesystem subtrees: records, an in-memory relational
//! store with transactional writes, an ordered glob filter, a breadth-first
//! collection builder and a comparator for re-synchronisation.

pub mod dblayer;
pub mod order;
pub mod seq_lemmas;
pub mod sorting;
pub mod catalog;
pub mod glob_filter;
pub mod fslayer;
pub mod sync;
pub mod fsdbtime;
pub mod coll_builder;
