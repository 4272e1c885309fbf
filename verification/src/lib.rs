//! Streaming parser for Neo4j's annotated CSV import format.
//!
//! The crate parses node and relationship files into owned, format-neutral
//! records. Header parsing identifies node, relationship and property
//! columns; row parsing turns each data line into a [`Node`] or a
//! [`Relationship`].

pub mod error;
pub mod header;
pub mod laws;
pub mod parse;
pub mod text;
pub mod types;

pub use error::Neo4jCsvError;
pub use parse::{parse_neo4j_csv, parse_neo4j_csv_with, Neo4jCsvRecord, Neo4jCsvStreamParser};
pub use types::{Node, Property, Relationship};
