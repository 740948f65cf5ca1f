pub mod list;
pub mod person;
pub mod strtrie;
