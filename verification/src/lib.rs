//! The rules of a queued executor: what a job record says, which lines of a
//! log a reader gets, what a pause holds, what an abort reaches.

pub mod text;
pub mod pattern;
pub mod logsel;
pub mod stamp;
pub mod units;
pub mod keys;
pub mod lifecycle;
pub mod logcap;
pub mod job;
pub mod completions;
pub mod context;
pub mod deps;
pub mod enforce;
pub mod fanout;
pub mod help;
pub mod history;
pub mod hook;
pub mod ids;
pub mod paths;
pub mod pause;
pub mod peers;
pub mod pause_text;
pub mod pause_view;
pub mod events;
pub mod pipeline;
pub mod socket;
pub mod state;
pub mod summary;
pub mod system;
