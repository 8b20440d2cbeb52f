//! The names that a caller of the logger needs.

pub use crate::error::{FormatError, LogError};
pub use crate::formatter::{Chomp, Indent, Style, YamlFormatter};
pub use crate::logger::{Level, YmLog};
pub use crate::message::{Block, MessageType};
pub use crate::value::YmlValue;
