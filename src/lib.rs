//! Finds files named `password.txt` or `passwords.txt` (in any letter case)
//! and gives each a collision-free name for its new home.

pub mod chars;
pub mod config;
pub mod naming;
pub mod run;
pub mod target;

pub use chars::{chars_of, same_chars};
pub use config::{config_text, parse_config};
pub use naming::{decimal_chars, extension, make_name, NameError};
pub use run::{Run, RunView};
pub use target::{count_files, is_target_entry, is_target_name, lowercase_name, DirEntryInfo};
