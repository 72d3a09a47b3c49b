pub mod cli;
pub mod config;
pub mod directories;
pub mod edits;
pub mod errors;
pub mod guard;
pub mod memfolder;
pub mod sources;
pub mod tags;
pub mod text;
pub mod variables;
