//! Finds league team compositions that share a cosmetic skinset.
//!
//! The library enumerates every collision-free assignment of one
//! (champion, lane) pair per player, resolves which skinsets are common to
//! all champions of an assignment, and keeps the assignments that still
//! share a skinset after a caller-supplied exclusion set is removed.

pub mod lanes;
pub mod seq_facts;
pub mod roster;
pub mod enumerate;
pub mod skinsets;
pub mod pipeline;
