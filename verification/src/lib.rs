//! Decision making for a deck-building climb: the players that pick among the steps a game
//! offers, the search that looks ahead for them, the opening blessings, and the bookkeeping of
//! an evaluation run. The combat engine itself stays outside: it hands over what it shows of a
//! game as plain values and carries out the step that was picked.

pub mod agent;
pub mod blessings;
pub mod cards;
pub mod fork;
pub mod full_run;
pub mod choices;
pub mod climb;
pub mod fuzz;
pub mod game;
pub mod greedy;
pub mod lookahead;
pub mod map;
pub mod moves;
pub mod pick;
pub mod playout;
pub mod rng;
pub mod route;
pub mod scenarios;
pub mod score;
pub mod search;
pub mod state;
pub mod stats;
pub mod step;
pub mod sums;
pub mod tactics;
pub mod text;
pub mod trace;
pub mod tree;
pub mod tune;
pub mod value;
pub mod weights;
