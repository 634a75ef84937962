//! What is drawn: airport surfaces, lights, signs, sky and aircraft, as plans
//! that a renderer turns into vertices.

pub mod aircraft;
pub mod apron;
pub mod cabin;
pub mod calendar;
pub mod cockpit;
pub mod cover;
pub mod daylight;
pub mod facing;
pub mod holding_position;
pub mod holding_side;
pub mod layout;
pub mod mesh;
pub mod model;
pub mod noise;
pub mod placing;
pub mod reading;
pub mod runway;
pub mod runway_lights;
pub mod scene;
pub mod sun;
pub mod surface;
pub mod taxiway;
pub mod taxiway_lights;
pub mod taxiway_sign;
pub mod terrain;
pub mod weather;
