//! A typed, schema-evolving table store over a key-value substrate.
pub mod columns;
pub mod db;
pub mod error;
pub mod laws;
pub mod schema;
pub mod sort;
pub mod store;
pub mod table;
pub mod text;
pub mod types;
