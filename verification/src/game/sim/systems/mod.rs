pub mod movement;
pub mod buffs;
pub mod combat;
pub mod abilities;
pub mod projectiles;
pub mod ai;
