//! A line-oriented configuration format that keeps the layout of the file it
//! read: typed values, comments, multi-line strings, a version header, and
//! updater functions that bring old files to the current version.

pub mod data;
pub mod errors;
pub mod file;
pub mod formatter;
pub mod laws;
pub mod literal;
pub mod parser;
pub mod text;
pub mod utils;
pub mod values;

pub use data::{LayoutEntry, Value};
pub use errors::{FormatEntryError, ParseEntryError, RetrieveSettingError};
pub use file::{DidRunUpdaters, File};
pub use values::{merge_values, MergePolicy, ValueMap};
