pub mod ball;
pub mod fixed;
pub mod laws;
mod random;
pub mod simulation;
pub mod vec2;
