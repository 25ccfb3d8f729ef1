//! A minimal software rasterizer: triangle and line primitives in integer
//! world coordinates are converted into colored pixels in an in-memory
//! frame buffer.  Line geometry is kept in exact integer form; every
//! coordinate a solver returns is the value of the ideal line truncated
//! toward zero, and every pixel write is bounds-checked.
#![verifier::loop_isolation(false)]

pub mod geometry;
pub mod linear_function;
pub mod raster;

pub use geometry::DrawMethod;
pub use geometry::Point;
pub use geometry::Triangle;
pub use linear_function::LinearFunction;
