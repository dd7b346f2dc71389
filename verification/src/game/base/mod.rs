pub mod types;
pub mod ecs;
pub mod events;
