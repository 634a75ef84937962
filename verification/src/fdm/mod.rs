//! Flight dynamics.
pub mod aero;
pub mod aircraft;
pub mod airloads;
pub mod atmosphere;
pub mod cone;
pub mod controls;
pub mod dynamics;
pub mod environment;
pub mod field;
pub mod frames;
pub mod gas;
pub mod gravity;
pub mod grip;
pub mod ground;
pub mod landing_gear;
pub mod legs;
pub mod newton;
pub mod parts;
pub mod rates;
pub mod slopes;
pub mod spin;
pub mod state;
pub mod thrust;
pub mod turbulence;
pub mod turning;
pub mod ways;
