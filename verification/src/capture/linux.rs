pub mod peripherals;
pub mod types;
pub mod x11;
