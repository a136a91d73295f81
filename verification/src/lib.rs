//! Wallpaper gallery logic: display modes, settings, file scanning and
//! formatting, gallery filtering and sorting, and command-line parsing.
pub mod text;
pub mod numfmt;
pub mod paths;
pub mod backend;
pub mod scanner;
pub mod config;
pub mod ordering;
pub mod gallery;
pub mod cli;
pub mod display;
