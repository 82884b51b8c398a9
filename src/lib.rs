//! An embedded key-value store in the Bitcask model: every mutation is appended
//! as a self-describing record to the active data file, and an in-memory index
//! maps each live key to the position of its latest record.
pub mod errors;
pub mod options;
pub mod data;
pub mod fio;
pub mod index;
pub mod names;
pub mod db;
pub mod replay;
