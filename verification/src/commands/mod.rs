pub mod clean;
pub mod link;
pub mod list;
