//! A small record-management service core: a store of professors, each
//! owning a list of papers, with a durable textual snapshot format and
//! the mutation protocol built on top of it.
pub mod chatgpt;
pub mod codec;
pub mod guard;
pub mod laws;
pub mod records;
pub mod store;
