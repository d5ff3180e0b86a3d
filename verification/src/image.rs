//! The pixel buffer that every quantizer consumes and produces: a flat,
//! row-major sequence of RGBA pixels together with explicit dimensions.

use vstd::prelude::*;

verus! {

/// One 8-bit RGBA pixel.
#[derive(Clone, Copy, PartialEq, Eq, Structural, Debug)]
pub struct Rgba {
    pub r: u8,
    pub g: u8,
    pub b: u8,
    pub a: u8,
}

/// An immutable bitmap: `pixels` holds exactly `width * height` RGBA
/// quadruples, row-major, top-to-bottom.
#[derive(Debug)]
pub struct Image {
    pub width: usize,
    pub height: usize,
    pub pixels: Vec<Rgba>,
}

impl Image {
    /// The invariant every image satisfies: the pixel count matches the
    /// stated dimensions.
    pub open spec fn wf(&self) -> bool {
        self.pixels@.len() == self.width * self.height
    }

    /// Builds an image, checking that the buffer length matches the
    /// dimensions; returns `None` exactly when it does not.
    pub fn new(width: usize, height: usize, pixels: Vec<Rgba>) -> (r: Option<Image>)
        ensures
            match r {
                Some(img) => img.wf() && img.width == width && img.height == height
                    && img.pixels@ == pixels@,
                None => pixels@.len() != width * height,
            },
    {
        let len = pixels.len();
        match width.checked_mul(height) {
            Some(n) => {
                if n == len {
                    Some(Image { width, height, pixels })
                } else {
                    None
                }
            },
            None => None,
        }
    }

    /// A deep copy; the result is field-for-field equal to `self`.
    pub fn duplicate(&self) -> (r: Image)
        ensures
            r.width == self.width,
            r.height == self.height,
            r.pixels@ == self.pixels@,
    {
        let mut pixels: Vec<Rgba> = Vec::new();
        let mut i: usize = 0;
        while i < self.pixels.len()
            invariant
                i <= self.pixels@.len(),
                pixels@ == self.pixels@.subrange(0, i as int),
            decreases self.pixels@.len() - i,
        {
            pixels.push(self.pixels[i]);
            i = i + 1;
            proof {
                assert(pixels@ =~= self.pixels@.subrange(0, i as int));
            }
        }
        proof {
            assert(pixels@ =~= self.pixels@);
        }
        Image { width: self.width, height: self.height, pixels }
    }
}

} // verus!
