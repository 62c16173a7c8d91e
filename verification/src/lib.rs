//! A symlink manager for a dotfiles repository: the mapping rules, the path
//! model and the decisions of the `link`, `list` and `clean` commands, each
//! stated by a contract and proved.

pub mod commands;
pub mod defaults;
pub mod error;
pub mod mappings;
pub mod paths;
pub mod repository;
pub mod table;
pub mod util;
