//! The core of a program that lifts the frame rate limit of a game: what it looks for in the
//! memory of the game, what it writes there, and what its menu offers.
//!
//! Nothing here touches the system. See [`script`] for how a search and the outside talk.
pub mod bytes;
pub mod cstring;
pub mod effect;
pub mod error;
pub mod images;
pub mod jobs;
pub mod layer;
pub mod macho;
pub mod memory;
pub mod menu;
pub mod metal;
pub mod name;
pub mod region;
pub mod run;
pub mod scan;
pub mod scheduler;
pub mod script;
pub mod sign;
pub mod start;
pub mod text;
