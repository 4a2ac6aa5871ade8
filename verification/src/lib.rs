//! Normalises nested JSON documents into flat relational tables.
//!
//! A stream of JSON tokens is turned into one table per nested array. Every
//! row carries a key of its own and the key of the row of the enclosing
//! table, so that the tables can be joined again.
pub mod conversion;
pub mod database;
pub mod ledger;
pub mod lists;
pub mod parser;
pub mod read;
pub mod text;
