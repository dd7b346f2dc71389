pub mod buffer;
pub mod prediction;
pub mod session;
