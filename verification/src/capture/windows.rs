pub mod types;
pub mod winwins;
