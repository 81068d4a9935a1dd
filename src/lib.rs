//! Daily team assignment for a class roster: students are dealt into teams
//! within sections, avoiding partners they have already worked with.

pub mod names;
pub mod pairing;
pub mod roster;
pub mod engine;
mod random;
pub mod shuffle;
pub mod split;
pub mod admin;
pub mod continuity;
pub mod grand;
pub mod cascade;
pub mod queries;
pub mod options;
pub mod projections;
pub mod laws;

pub use names::{Day, Section, Student, Team, Zoom};
pub use options::{Choices, StudentOptions, TeamOptions};
pub use pairing::Pairing;
pub use roster::{AssignError, Data, DayLocked};
pub use split::split_evenly;
