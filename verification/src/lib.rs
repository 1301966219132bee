//! The rules of a keyboard-driven application launcher: what it indexes, how it
//! ranks and shows the results, and what each key, command and event does.

pub mod apptoggle;
pub mod dedup;
pub mod desktop;
pub mod fileindex;
pub mod filepath;
pub mod font;
pub mod gitscan;
pub mod icon;
pub mod layout;
pub mod lists;
pub mod matcher;
pub mod mounts;
pub mod order;
pub mod protocol;
pub mod recents;
pub mod render;
pub mod socket;
pub mod staging;
pub mod state;
pub mod text;
pub mod watcher;
pub mod wayland;
