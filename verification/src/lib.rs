//! Poker hand ranking and Monte Carlo pot equity, with machine-checked contracts.
//!
//! The crate is organised leaves first:
//!
//! * [`cards`]: ranks, suits and the 52-card deck;
//! * [`rating`]: the mathematical definition of a five-card hand's strength;
//! * [`hands`]: the executable evaluator, proved against [`rating`];
//! * [`order`]: comparison of hands and the laws of their total order;
//! * [`selection`]: choosing the best five cards out of more;
//! * [`game`]: one replay of a deal, from what is known of a table to its winners;
//! * [`equity`]: exact per-player tallies over many replays and their merging;
//! * [`sorting`]: the two short sorts that the evaluator needs;
//! * [`worked`]: one showdown worked out for every card that can come;
//! * [`wrappers`]: the calls into other crates, with the contracts assumed of them.

pub mod cards;
pub mod equity;
pub mod game;
pub mod hands;
pub mod order;
pub mod rating;
pub mod selection;
pub mod sorting;
pub mod worked;
pub mod wrappers;
