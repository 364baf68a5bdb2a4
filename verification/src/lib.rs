//! Fuzzy file search.
//!
//! A search walks directories, feeds every entry to a fuzzy matcher and reports
//! the best matches for a query while the query changes and the walk goes on.
//! This crate holds what is decided along the way; threads, channels, the walk
//! itself and the watches on directories belong to the program around it.
//!
//! * [`search`] starts a session, and searches once.
//! * [`session`] turns the matcher's snapshots into reports, by the
//!   [`schedule`] on which it looks for them, and [`history`] holds what is true
//!   of a session over its whole life.
//! * [`walk`] decides what of a walk is searched, and [`overrides`] what is
//!   left out of it.
//! * [`classify`] tells files from directories, and when an answer may be
//!   reused.
//! * [`engine`] holds the matcher itself, and [`query`] which queries it takes.
//! * [`roots`], [`paths`], [`ranking`] and [`text`] hold what these build on.
//! * [`burst`], [`terminal`], [`streaming`] and [`composer`] hold measurements
//!   and checks around the search and the terminal interface that uses it, with
//!   [`metrics`] and [`numbers`] to report and to read figures.
use vstd::prelude::*;

pub mod burst;
pub mod classify;
pub mod composer;
pub mod engine;
pub mod history;
pub mod metrics;
pub mod numbers;
pub mod overrides;
pub mod paths;
pub mod query;
pub mod ranking;
pub mod report;
pub mod results;
pub mod roots;
pub mod schedule;
pub mod search;
pub mod session;
pub mod streaming;
pub mod terminal;
pub mod text;
pub mod walk;

pub use ranking::cmp_by_score_desc_then_path_asc;
pub use report::{Reporter, SessionReporter};
pub use results::{
    file_name_from_path, FileMatch, FileSearchOptions, FileSearchResults, FileSearchSnapshot,
    MatchType,
};
pub use search::{create_session, run};
pub use session::FileSearchSession;

verus! {

} // verus!
