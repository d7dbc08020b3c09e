use vstd::prelude::*;

use crate::error::CodecError;
use crate::image::Image;

verus! {

/// A format decoder: turns the raw bytes of a file into an image.
pub trait Reader {
    fn read(&self, data: &Vec<u8>) -> (r: Result<Image, CodecError>)
        ensures
            r matches Ok(im) ==> im.wf(),
    ;
}

/// A format encoder: turns an image into the raw bytes of a file.
pub trait Writer {
    /// The canonical file suffix for the format, without the dot.
    fn extension(&self) -> &'static str;

    fn write(&self, image: &Image) -> (r: Result<Vec<u8>, CodecError>)
        requires
            image.wf(),
    ;
}

} // verus!
