pub mod components;
pub mod limits;
pub mod pathfinding;
pub mod rng;
pub mod spawn;
pub mod systems;
pub mod world;
