//! Integer rasterization primitives: 2D points with translation
//! transforms, two line rasterizers (a truncating incremental walk and a
//! midpoint/Bresenham walk), closed polygons rasterized edge by edge, a
//! midpoint circle rasterizer with 8-fold symmetry, and the memoized
//! binomial-coefficient table that backs Bézier-curve evaluation.
//!
//! Every rasterizer returns an ordered sequence of integer points; mapping
//! those points to normalized device coordinates is a separate concern of
//! the rendering layer and takes no part in the geometry here.

pub mod bezier;
pub mod points;
pub mod shapes;
