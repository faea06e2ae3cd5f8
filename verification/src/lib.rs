//! Core of a corpus indexer: parses the front-matter metadata block of text
//! entries into flat string fields, describes declared field schemas, rebuilds
//! a tabular index across a corpus, and encodes/decodes that table as
//! comma-delimited text.

pub mod builder;
pub mod codec;
pub mod config;
pub mod errors;
pub mod front_matter;
pub mod metadata;
pub mod raw_value;
pub mod schema;
pub mod table;
pub mod yaml;

pub use config::{ApiError, QuakeServerConfig};
pub use errors::{ParseError, TableFormatError};
pub use metadata::EntryMetadata;
pub use raw_value::RawValue;
pub use schema::{Author, CustomType, EntryDate, FieldKind};
pub use table::{CsvProcessor, CsvTable};
