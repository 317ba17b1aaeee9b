//! A habit tracker's core: streaks that are hit once a day, age as days pass,
//! and are kept in a line-oriented text file.

pub mod fuzzy;
pub mod order;
pub mod state;
pub mod store;
pub mod streak;
pub mod text;
pub mod time;

pub use crate::fuzzy::{close_match, lev};
pub use crate::state::{Lookup, State};
pub use crate::store::{LineError, LoadError};
pub use crate::streak::{Streak, StreakError, StreakState};
pub use crate::text::NumberError;
pub use crate::time::{TimeError, Timestamp};
