//! Synthesis of shortest sorting programs for a small register machine.
//!
//! The machine has a few registers, two flags set by comparing, and
//! instructions to compare, to move and to move on a flag. A candidate
//! program is run on every ordering of `N` distinct values at once; the set of
//! register files that results is the joint state that the search explores.
//! A program sorts when it turns every ordering into the sorted one.
//!
//! The parts, from the leaves up:
//!
//! - [`config`], [`machine`], [`catalog`], [`inverse`]: the machine, what one
//!   instruction does to a register file, which instructions there are, and
//!   instructions run backwards.
//! - [`order`], [`canon`], [`signature`], [`renaming`], [`hashing`]: joint
//!   states as sets of rows, their canonical key, and coarser or more compact
//!   keys.
//! - [`viability`], [`heuristic`], [`tables`], [`swaps`]: what the search cuts
//!   and how it ranks, with the tables of lower bounds.
//! - [`store`], [`trace`], [`frontier`]: the visited store, the shared
//!   instruction histories, and the open set.
//! - [`program`], [`initial`]: programs run on joint states, and the joint
//!   state a search starts from.
//! - [`driver`], [`search`]: the best-first search as a state machine that
//!   asks whoever runs it to keep the visited store, and the search run to
//!   its end against a store in memory.
//! - [`generation`], [`random`]: the search by generations, and the search
//!   by chance.
//! - [`optimal`]: why the search overlooks nothing.
//! - [`show`], [`text`]: instructions as text, and signatures as text.

pub mod canon;
pub mod catalog;
pub mod config;
pub mod driver;
pub mod frontier;
pub mod generation;
pub mod hashing;
pub mod heuristic;
pub mod initial;
pub mod inverse;
pub mod machine;
pub mod optimal;
pub mod order;
pub mod program;
pub mod random;
pub mod renaming;
pub mod search;
pub mod show;
pub mod signature;
pub mod store;
pub mod swaps;
pub mod tables;
pub mod text;
pub mod trace;
pub mod viability;
