//! Line search over text: the lines of a text that contain a literal query,
//! with or without regard to case, and the configuration of one search.
pub mod chars;
pub mod config;
pub mod lines;
pub mod search;
pub mod text;

pub use config::{find_matches, Config, ConfigError};
pub use lines::lines;
pub use search::{search, search_case_insensitive};
pub use text::contains_text;
