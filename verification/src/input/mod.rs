//! Pilot input: keys and sticks to control inputs, and the view.

pub mod axis;
pub mod camera;
pub mod gamepad;
pub mod pilot;
