pub mod network;
pub mod project_rules;
pub mod rule;
pub mod tags;
pub mod user_ssid;
