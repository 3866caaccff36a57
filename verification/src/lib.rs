//! Tools for qBittorrent: moving torrents that have been complete for long enough, moving torrents
//! off filesystems that run out of free space, and deleting torrents by removal tasks.
//!
//! The library decides; it neither talks to qBittorrent nor reads clocks or filesystems. Each tool is
//! a run that says what it asks for next and takes the answer. All else is plain values in and out:
//! the checks of a configuration, the choice of a rule, the plan of moves, the meaning of a `remove`
//! expression, and the set of torrents that a task deletes.

pub mod address;
pub mod age;
pub mod api;
pub mod autoremove;
pub mod condition;
pub mod config;
pub mod document;
pub mod expression;
pub mod filter;
pub mod low_space;
pub mod move_after_days;
pub mod move_on_low_space;
pub mod natural;
pub mod number;
pub mod order;
pub mod path;
pub mod rules;
pub mod setup;
pub mod task;
pub mod text;
pub mod torrent;

pub use autoremove::{run_autoremove, run_autoremove_daemon, DEFAULT_AUTOREMOVE_INTERVAL_SECS};
pub use move_after_days::{run_move_after_days, run_move_after_days_daemon};
pub use move_on_low_space::{run_move_on_low_space, run_move_on_low_space_daemon};
pub use setup::DEFAULT_DAEMON_INTERVAL_SECS;
