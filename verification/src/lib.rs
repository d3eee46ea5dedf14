//! Theme generation: colors, JSON paths, template substitution and
//! reverse engineering of variable files, with verified contracts.
pub mod text;
pub mod color;
pub mod args;
pub mod json;
pub mod parsing;
pub mod check;
pub mod generate;
pub mod reverse;
pub mod toml_out;
pub mod rebuild;
pub mod command;
pub mod help;
pub mod new_theme;
pub mod generation;
pub mod files;
