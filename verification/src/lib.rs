//! SQL and connection-string logic of a terminal PostgreSQL client.
//!
//! - `ssl`: SSL mode resolution from connection strings
//! - `query`: query analysis (table extraction, paging eligibility, row limit)
//! - `quoting`: quoted SQL text and the escaping of string literals
//! - `lexer`: tokens of a query and parts of an identifier
//! - `schema_tree`: schema tree identifier encoding and decoding
//! - `percent`: percent-encoding
//! - `meta`: SQL of the meta commands
//! - `text`: strings as sequences of characters

pub mod lexer;
pub mod meta;
pub mod percent;
pub mod query;
pub mod quoting;
pub mod schema_tree;
pub mod ssl;
pub mod text;

pub use schema_tree::encode_schema_id_component;
