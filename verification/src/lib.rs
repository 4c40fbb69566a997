//! A toolpath engine for 3-axis subtractive milling: it turns a triangulated
//! surface into G-code by ray-casting a height map over a sample grid,
//! offsetting it by a cutter shape, and peeling layers off a stock map until
//! nothing is left to cut.
//!
//! All geometry is carried in fixed-point integers (micrometers), so every
//! stage is a deterministic function of its inputs and each contract pins the
//! result exactly.

pub mod codec;
pub mod gcode;
pub mod geom;
pub mod grid;
pub mod heightmap;
pub mod layers;
pub mod partition;
pub mod paths;
pub mod pipeline;
pub mod stl;
pub mod tool;
