//! Core of a small task-list application: an ordered list of todo entries,
//! three filter views over it, a message-driven reducer that performs every
//! mutation, and a textual codec used to persist the list across sessions.

pub mod codec;
pub mod display;
pub mod entry;
pub mod filter;
pub mod state;
pub mod text;

pub use entry::Entry;
pub use filter::Filter;
pub use state::Msg;
pub use state::State;
