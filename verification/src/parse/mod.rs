//! Neo4j CSV row parsing.

pub mod assemble;
pub mod csv_line;
pub mod entry;
pub mod record;
pub mod stream;

pub use csv_line::parse_csv_line;
pub use record::Neo4jCsvRecord;
pub use stream::Neo4jCsvStreamParser;
pub use entry::{parse_neo4j_csv, parse_neo4j_csv_with};
