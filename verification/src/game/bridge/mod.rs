pub mod input_bridge;
pub mod renderer;
