//! Finds files by extension under a directory tree, and decides how to delete them.

pub mod arguments;
pub mod deletion;
pub mod matching;
pub mod preset;
pub mod text;
pub mod walk;

pub use arguments::{Args, CollectOptions, DeleteOptions, ExtensionsError};
pub use matching::{are_extensions_valid, get_fileext};
pub use walk::collect_matching_files;

