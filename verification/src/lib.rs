//! Tooling for the list of languages written in Rust.
//!
//! The language list (`languages.json`) is the source of truth: every
//! language's name and URL, plus the description, star count and activity
//! status last seen on the GitHub API. [`github`] decides how each entry is
//! brought up to date, [`languages`] puts the list in table order, and
//! [`readme`] renders `README.md` from it.

pub mod github;
pub mod languages;
pub mod pyjson;
pub mod readme;
pub mod text;
