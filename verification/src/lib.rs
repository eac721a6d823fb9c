//! A persistent, ordered key-value store built on a copy-on-write B+Tree,
//! with its page formats, page allocator and commit protocol verified.
#![allow(unused_imports)]

pub mod btree;
pub mod header;
pub mod io;
pub mod node;
pub mod page;
pub mod storage;
pub mod storage_engine;

pub use page::Error;
