//! Verified core of a small collection of command-line tools.
pub mod text;
pub mod number;
pub mod validation;
pub mod json;
pub mod toml_field;
pub mod csv_clean;
pub mod gpg;
pub mod tui;
pub mod json_roundtrip;
