//! Images as pixels.

use vstd::prelude::*;

use crate::bytes::copy_of;

verus! {

/// An image: four bytes for each pixel, row by row.
pub struct Avatar {
    pub rgba: Vec<u8>,
    pub width: u32,
    pub height: u32,
}

impl Avatar {
    /// There are four bytes for each pixel.
    pub open spec fn wf(&self) -> bool {
        self.rgba@.len() == 4 * (self.width * self.height)
    }
}

impl Clone for Avatar {
    fn clone(&self) -> (r: Self)
        ensures
            r.rgba@ == self.rgba@,
            r.width == self.width,
            r.height == self.height,
    {
        Avatar { rgba: copy_of(&self.rgba), width: self.width, height: self.height }
    }
}

/// What an image file was read as: width, height and pixels, if it was read.
pub open spec fn read_as(r: Option<Avatar>) -> Option<(u32, u32, Seq<u8>)> {
    match r {
        Some(a) => Some((a.width, a.height, a.rgba@)),
        None => None,
    }
}

/// Whether the `image` crate may read the contents of a file as this image, or
/// as none, on some machine.
pub uninterp spec fn may_read_as(bytes: Seq<u8>, image: Option<(u32, u32, Seq<u8>)>) -> bool;

/// `image::load_from_memory` and `DynamicImage::to_rgba8`: the pixels of an
/// image file in a format that the crate knows, four bytes each. Which pixels
/// a lossy format gives depends on the vector instructions of the machine, and
/// which formats can be read on the decoders that the process has registered.
/// So the result is one that these bytes may give; nothing is said of which
/// one, nor of which files can be read.
#[verifier::external_body]
fn image_rgba(bytes: &[u8]) -> (r: Option<Avatar>)
    ensures
        may_read_as(bytes@, read_as(r)),
        r matches Some(a) ==> a.wf(),
{
    let img = image::load_from_memory(bytes).ok()?.to_rgba8();
    let (width, height) = img.dimensions();
    Some(Avatar { rgba: img.into_raw(), width, height })
}

/// What the `image` crate reads the contents of a file as.
pub fn decode_image(bytes: &[u8]) -> (r: Option<Avatar>)
    ensures
        may_read_as(bytes@, read_as(r)),
        r matches Some(a) ==> a.wf(),
{
    image_rgba(bytes)
}

} // verus!
