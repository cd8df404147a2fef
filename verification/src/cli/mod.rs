//! The command line without its edges: arguments in, plans, tables and messages out.
pub mod args;
pub mod checks;
pub mod lists;
pub mod loading;
pub mod plan;
pub mod quality;
pub mod resolve;
pub mod show;
pub mod summary;
pub mod sweep;
pub mod tables;
pub mod walk;
