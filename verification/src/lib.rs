//! Path aliases ("shortpaths") that can be nested inside one another and
//! expanded to full paths, folded back, sorted, and exported to shells.

pub mod strings;
pub mod paths;
pub mod shortpaths;
pub mod helpers;
pub mod env;
pub mod app;
pub mod consts;
pub mod export;
pub mod config;
pub mod builder;
pub mod sp;
