//! Conversion of Chinese text between Simplified and Traditional scripts,
//! for text, files and whole directories: the choice of conversion mode, the
//! rules a request must follow, which files of a directory are taken and in
//! what order, where each converted file goes, and the messages of errors.

pub mod cli;
pub mod convert;
pub mod error;
pub mod input;
pub mod path;
pub mod plan;
pub mod walk;
