//! Page handler of an embedded document store: page allocation with a free
//! list kept in the header page, slotted data pages addressed by tickets, a
//! page cache, and a journal that holds writes until they are checkpointed.
pub mod bytes;
pub mod page;
pub mod header;
pub mod error;
pub mod cache;
pub mod journal;
pub mod bucket;
pub mod data_page;
pub mod handler;
pub mod laws;
