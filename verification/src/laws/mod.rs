//! What holds of the library as a whole.
pub mod calls;
pub mod commands;
pub mod launchers;
pub mod listing;
pub mod literals;
pub mod nodes;
pub mod omission;
pub mod programs;
pub mod redirects;
pub mod reports;
pub mod risks;
pub mod scripts;
pub mod texts;
pub mod trees;
pub mod views;
pub mod whole;
pub mod words;
