//! A small line-oriented text search: the caller names a piece of text and a
//! file, and every line of the file that contains the text is reported, in
//! the order in which the lines appear.
//!
//! Everything here is verified. Strings are modelled by their views, sequences
//! of `char`; the contracts speak of those views only.

pub mod config;
pub mod encoding;
pub mod lines;
pub mod search;
pub mod substring;

pub use config::Config;
pub use config::ConfigError;
pub use config::ConfigView;
pub use search::search;
