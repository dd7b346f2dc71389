pub mod collector;
pub mod events;
