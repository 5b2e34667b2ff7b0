//! `grab`: a declarative stream processor for delimited text. Records are split into
//! fields, mapped to named output fields (`name`, `name:N`, `name:g`, `name:gj`, `_`),
//! filtered by a selection, and written as delimited text or JSON lines.
pub mod cli;
pub mod json;
pub mod json_read;
pub mod options;
pub mod process;
pub mod text;
pub mod tokenizer;
pub mod types;
