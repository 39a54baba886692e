//! Verified core of a clipboard-history manager: the bounded, pin-aware
//! history of entries, the flat text log it is saved to, and the line
//! protocol that clients use to query and change it.

pub mod backend;
pub mod cache;
pub mod clock;
pub mod config;
pub mod daemon;
pub mod history;
pub mod item;
pub mod log_laws;
pub mod store;
pub mod text;
pub mod watcher;

pub use item::{Item, ItemKind, ItemView};
