//! Event-driven simulation of two-valued digital logic circuits: junctions
//! joined by delayed wires and zero-delay gates, stepped until settled.
pub mod circuit;
pub mod laws;
pub mod queue;
pub mod world;

pub use circuit::{Circuit, Gate, GateBehavior, JunctionIndex, Level, Time, Wire};
pub use queue::Signal;
pub use world::{World, WorldCreationErr};
