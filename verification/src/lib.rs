//! An object store whose objects are linked lists of storage blocks.
//!
//! [`store::BlockObjectStore`] maps the locations of objects to the files that
//! hold them, and decides what each request calls for. The blocks themselves
//! are kept by the host: a write hands out its operations one by one
//! ([`file_write::FileWrite`], [`storage::BlockAppend`]) and is told how each
//! went, and a read is handed out as a [`storage::ReadRequest`]. What holds of
//! all of it together is proved in [`laws`], and what holds across a run of
//! writes and deletes in [`history`]. What the contracts come to without their
//! own vocabulary is said in [`plain`].

pub mod file_map;
pub mod file_write;
pub mod history;
pub mod laws;
pub mod listing;
pub mod multipart;
pub mod options;
pub mod path;
pub mod payload;
pub mod plain;
pub mod reader;
pub mod storage;
pub mod store;
pub mod writer;
