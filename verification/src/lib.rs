//! Procedural road-trajectory generator.
//!
//! A catalog of road sections (straight stretches and step-sampled turns,
//! each a list of lateral widths and displacements) is swept into a
//! triangulated ribbon mesh: flat position / normal / uv buffers with a
//! sequential index buffer, plus a centerline polyline for debug drawing.
//! All geometry is carried in integer coordinates; the perpendicular used
//! to offset the road edges is computed with an integer square root, so
//! every emitted vertex is a mathematical function of the catalog alone.

pub mod cursor;
pub mod geometry;
pub mod line;
pub mod model;
pub mod road;
