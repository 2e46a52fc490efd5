//! A software rasteriser core on a TGA framebuffer: integer points, line
//! segments, triangle bounding boxes, and triangles filled pixel by pixel
//! through a depth test, in one colour or from a texture.

pub mod canvas;
pub mod draw;
pub mod scan;
pub mod surface;
pub mod vec;
