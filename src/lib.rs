//! A small ray tracer whose geometry runs on fixed-point integers.
//!
//! Every coordinate, direction, ray parameter and color component is an
//! `i64` holding a real value multiplied by [`vec3::ONE`] (sixteen fractional
//! bits). Working on integers keeps every step exact and lets the whole
//! pipeline, from sphere intersection down to the text of the image, carry
//! machine-checked contracts.
pub mod vec3;
pub mod ray;
pub mod interval;
pub mod hittables;
pub mod color;
pub mod camera;
pub mod render;
