//! A small log-structured key-value store in the style of Bitcask.
//!
//! `database::format` fixes the on-disk record layout, `database::memory_store`
//! is a purely in-memory store, and `database::disk_store` holds the in-memory
//! index of a disk-backed store together with the decisions taken while a
//! database file is scanned.
pub mod database;
