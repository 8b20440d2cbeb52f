//! Indentation-aware YAML log rendering.
//!
//! Entries are rendered one at a time into a growing, YAML-flavoured text
//! stream. Nesting is driven by symbolic indent, dedent and reset requests
//! rather than by raw whitespace.

pub mod error;
pub mod formatter;
pub mod logger;
pub mod message;
pub mod prelude;
pub mod text;
pub mod tracker;
pub mod value;
pub mod yaml;

pub use error::{FormatError, LogError};
pub use formatter::{Chomp, Indent, Style, YamlFormatter};
pub use logger::{Level, YmLog};
pub use message::{Block, MessageType};
pub use tracker::{LastBlockType, Tracker};
pub use value::YmlValue;
