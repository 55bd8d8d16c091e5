//! A small task-list library: an ordered store of task records with
//! add / edit / complete / delete operations, a textual rendering of the
//! list, and a verified JSON encoding with a proven decode round-trip.

pub mod store;
pub mod text;
pub mod codec;
pub mod render;
