pub mod bits;
pub mod gamepad;
pub mod laws;
