//! How a surface names the image that gives its albedo.
use vstd::prelude::*;

verus! {

/// An image file that gives a surface its albedo, sampled at the nearest pixel
/// or, when `smooth`, between the four nearest.
#[derive(Debug)]
pub struct DeserializablePlainTexture {
    path: String,
    smooth: bool,
}

impl View for DeserializablePlainTexture {
    type V = (Seq<char>, bool);

    closed spec fn view(&self) -> (Seq<char>, bool) {
        (self.path@, self.smooth)
    }
}

impl DeserializablePlainTexture {
    pub fn new(path: String, smooth: bool) -> (r: DeserializablePlainTexture)
        ensures
            r@ == (path@, smooth),
    {
        DeserializablePlainTexture { path, smooth }
    }

    /// The image file, relative to the scene file.
    pub fn path(&self) -> (r: &str)
        ensures
            r@ == self@.0,
    {
        self.path.as_str()
    }

    /// Whether the image is sampled between pixels.
    pub fn smooth(&self) -> (r: bool)
        ensures
            r == self@.1,
    {
        self.smooth
    }
}

/// The kinds of texture a surface can have.
#[derive(Debug)]
pub enum DeserializableTexture {
    Plain(DeserializablePlainTexture),
}

} // verus!
