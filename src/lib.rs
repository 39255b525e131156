//! Building blocks of a small CPU ray tracer: the depth-counter walks of
//! constructive solid geometry, the JSON reader and writer of scene files, the
//! 24-bit BMP codec of rendered images, and the packer of resource files.
use vstd::prelude::*;

pub mod bmp;
pub mod csg;
pub mod json;
pub mod le;
pub mod lexer;
pub mod pack;
pub mod texture;

verus! {

} // verus!
