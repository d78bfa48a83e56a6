//! Risk analysis of shell command lines by their syntax tree.
pub mod analysis;
pub mod commands;
pub mod findings;
pub mod grammar;
pub mod laws;
pub mod nested;
pub mod omission;
pub mod pieces;
pub mod redirects;
pub mod risk;
pub mod syntax;
pub mod text;
pub mod words;
