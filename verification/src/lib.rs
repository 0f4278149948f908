//! An interval timer for structured workouts.
//!
//! A workout is written as plain text, read into a [`Workout`] by
//! [`load_workout`], and played back by a [`Player`], which decides action
//! by action what is to be said, sounded and waited for.

pub mod model;
pub mod parse;
pub mod player;
pub mod position;
pub mod script;
pub mod text;

pub use model::{BeepLevel, ExcerciseAmout, Workout, WorkoutSet, WorkoutSetElement};
pub use parse::{load_workout, parse_duration, ParseError};
pub use player::{Player, Step};
pub use script::{find_exercise, rest_with_warning, Action, Notice, PlaybackError};
pub use position::{parse_from, PositionError};
