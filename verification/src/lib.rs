//! npb: what a change to nixpkgs does to the outcome of its builds.
//!
//! The library holds the decisions of the command, each with a contract that Verus
//! proves: what to evaluate and how to share the work ([`eval`], [`shards`]), what
//! changed between two evaluations ([`evalfile`]), which derivations to probe and
//! to build and what to conclude from the build's log ([`driver`], [`model`]), what
//! the rows of the fact store mean ([`store`]), what to evict from the cache
//! ([`clean`]), how the two sides of a review come about ([`git`], [`review`],
//! [`repro`]), and what the user is shown ([`live`], [`report`]).
//!
//! Text is stated as sequences of characters ([`text`], [`search`], [`order`]), and
//! numbers of double precision as whole numbers of their smallest steps ([`precision`]).
//! Files, processes, the network, the database and the terminal are the caller's;
//! what little is taken from other crates is declared in one private module.

use vstd::prelude::*;

pub mod amount;
pub mod cache;
pub mod calendar;
pub mod clean;
pub mod driver;
pub mod eval;
pub mod evalfile;
pub mod expr;
pub mod git;
pub mod jobs;
pub mod live;
pub mod machine;
pub mod model;
pub mod order;
mod outside;
pub mod precision;
pub mod report;
pub mod repro;
pub mod review;
pub mod search;
pub mod shards;
pub mod store;
pub mod text;

verus! {

/// Where the source lives.
pub const URL: &'static str = "https://github.com/samestep/npb/tree/main";

} // verus!
