//! A single-player novelty card game whose cards are the names of executable
//! commands found on the search path. The player draws cards from a shared
//! pile, asks a passive opponent hand for matches, and may "play" (execute) a
//! command only while holding at least two copies of its name.
//!
//! This crate holds the verified game core: catalog construction, deck
//! building, hand and draw-pile management, the ask protocol, the play
//! validator, and the line dispatcher. Reading input, paging output and
//! spawning processes stay outside the library.

pub mod catalog;
pub mod game;
pub mod messages;
pub mod rng;
pub mod session;
pub mod tally;
pub mod text;
