//! A solver for a flip-sorting puzzle: a bounded stack of colored slices is
//! rearranged, using only prefix/suffix reversals, until every color occupies
//! one contiguous run.

pub mod model;
pub mod prng;
pub mod stack;
