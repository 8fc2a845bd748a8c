//! Verified core of the FFF file finder: the tagging rules, the index
//! bookkeeping, the watcher's event handling and the directory listing order.
pub mod browse;
pub mod indexing;
pub mod store;
pub mod watch;
pub mod tagging;
pub mod text;

pub use text::string_views;
