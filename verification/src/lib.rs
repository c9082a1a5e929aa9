//! RigPilot's core: device definitions, automation curves and the MIDI they
//! resolve to, specified and proved with Verus.

pub mod assets;
pub mod curve;
pub mod definition;
pub mod export;
pub mod live;
pub mod order;
pub mod project;
pub mod smf;
pub mod summary;
pub mod text;
