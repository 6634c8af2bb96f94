//! The planning and decision core of a sphere path tracer: how the image is
//! cut into bands for parallel workers and rendered into them, which surface
//! a ray meets first, how a light path ends, and how the finished pixel
//! buffer is written out as a plain-text pixmap.
pub mod bands;
pub mod path;
pub mod ppm;
pub mod render;
pub mod scene;
