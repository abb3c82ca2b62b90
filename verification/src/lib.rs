//! dtm: a dotfile manager. The library holds the rules of the tool:
//! configuration evaluation, package layout and naming, the decisions taken
//! while installing, removing and restoring packages, packing plans, the
//! interactive file tree and the command line.
pub mod text;
pub mod values;
pub mod path;
pub mod resolve;
pub mod config;
pub mod config_update;
pub mod package;
pub mod cli;
pub mod pack;
pub mod interactive;
