pub mod base;
pub mod bridge;
pub mod input;
pub mod sim;
