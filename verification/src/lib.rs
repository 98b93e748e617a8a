//! Rasterization of simple 2-D primitives (line segments, circles) onto an
//! integer grid, compositing of the rasterized shapes onto a labeled canvas,
//! and deterministic linearization of that canvas into rows of glyphs.

pub mod circle;
pub mod compose;
pub mod fixtures;
pub mod geometry;
pub mod line;
pub mod render;

pub use circle::Circle;
pub use geometry::Coords;
pub use geometry::Dimensions;
pub use geometry::Representation;
pub use line::Line;
pub use compose::Canvas;
pub use compose::CombinedObject;
pub use compose::EmptyInputError;
pub use compose::Layer;
pub use compose::Plottable;
pub use compose::PlottedCoords;
pub use compose::combine;
pub use compose::composite;
pub use compose::plot;
pub use fixtures::fixtures_circle;
pub use fixtures::fixtures_diagonal_line_ltr;
pub use fixtures::fixtures_horizontal_line;
pub use fixtures::fixtures_vertical_line;
pub use render::glyph;
pub use render::render;
