//! The image: header fields and a row-major raster of pixels.

use vstd::prelude::*;
use vstd::std_specs::cmp::PartialEqSpecImpl;
use crate::pixel::Pixel;

verus! {

/// What an image is: its header fields and its pixels, row by row from the
/// top, each row from the left.
pub struct ImageView {
    pub magic: Seq<char>,
    pub height: nat,
    pub width: nat,
    pub max_color: nat,
    pub pixels: Seq<Pixel>,
}

impl ImageView {
    /// The raster holds one pixel for each position of the grid.
    pub open spec fn well_formed(self) -> bool {
        self.pixels.len() == self.height * self.width
    }

    /// The same image with every pixel inverted.
    pub open spec fn inverted(self) -> ImageView {
        ImageView { pixels: self.pixels.map_values(|p: Pixel| p.inverted()), ..self }
    }

    /// The same image with every pixel turned to grey.
    pub open spec fn grayed(self) -> ImageView {
        ImageView { pixels: self.pixels.map_values(|p: Pixel| p.grayed()), ..self }
    }
}

/// A PPM image held in memory. Its raster always has `height * width` pixels.
#[derive(Debug)]
pub struct Image {
    magic: String,
    height: usize,
    width: usize,
    max_color: usize,
    pixels: Vec<Pixel>,
}

impl View for Image {
    type V = ImageView;

    closed spec fn view(&self) -> ImageView {
        ImageView {
            magic: self.magic@,
            height: self.height as nat,
            width: self.width as nat,
            max_color: self.max_color as nat,
            pixels: self.pixels@,
        }
    }
}

impl Image {
    #[verifier::type_invariant]
    spec fn raster_fits(self) -> bool {
        self.pixels@.len() == self.height * self.width
    }

    /// Builds an image from its header fields and its raster, which must hold
    /// exactly `height * width` pixels.
    pub fn new(magic: String, height: usize, width: usize, max_color: usize, pixels: Vec<Pixel>) -> (image: Image)
        requires
            pixels@.len() == height * width,
        ensures
            image@ == (ImageView {
                magic: magic@,
                height: height as nat,
                width: width as nat,
                max_color: max_color as nat,
                pixels: pixels@,
            }),
    {
        Image { magic, height, width, max_color, pixels }
    }

    /// The format tag, as it was given.
    pub fn magic(&self) -> (magic: &str)
        ensures
            magic@ == self@.magic,
    {
        self.magic.as_str()
    }

    /// The number of rows.
    pub fn height(&self) -> (height: usize)
        ensures
            height == self@.height,
    {
        self.height
    }

    /// The number of pixels in a row.
    pub fn width(&self) -> (width: usize)
        ensures
            width == self@.width,
    {
        self.width
    }

    /// The largest sample value that the header declares.
    pub fn max_color(&self) -> (max_color: usize)
        ensures
            max_color == self@.max_color,
    {
        self.max_color
    }

    /// A new image with the same header and every pixel inverted.
    pub fn invert(&self) -> (image: Image)
        ensures
            image@ == self@.inverted(),
    {
        proof {
            use_type_invariant(self);
        }
        let mut inv_pixels: Vec<Pixel> = Vec::new();
        let mut i: usize = 0;
        while i < self.pixels.len()
            invariant
                i <= self.pixels@.len(),
                inv_pixels@ == self.pixels@.take(i as int).map_values(|p: Pixel| p.inverted()),
            decreases self.pixels@.len() - i,
        {
            let inv_pixel: Pixel = self.pixels[i].invert();
            inv_pixels.push(inv_pixel);
            i += 1;
            assert(inv_pixels@ =~= self.pixels@.take(i as int).map_values(|p: Pixel| p.inverted()));
        }
        assert(self.pixels@.take(i as int) =~= self.pixels@);
        Image {
            magic: self.magic.clone(),
            height: self.height,
            width: self.width,
            max_color: self.max_color,
            pixels: inv_pixels,
        }
    }

    /// A new image with the same header and every pixel turned to grey.
    pub fn gray_scale(&self) -> (image: Image)
        ensures
            image@ == self@.grayed(),
    {
        proof {
            use_type_invariant(self);
        }
        let mut gray_pixels: Vec<Pixel> = Vec::new();
        let mut i: usize = 0;
        while i < self.pixels.len()
            invariant
                i <= self.pixels@.len(),
                gray_pixels@ == self.pixels@.take(i as int).map_values(|p: Pixel| p.grayed()),
            decreases self.pixels@.len() - i,
        {
            let gray_pixel: Pixel = self.pixels[i].gray_scale();
            gray_pixels.push(gray_pixel);
            i += 1;
            assert(gray_pixels@ =~= self.pixels@.take(i as int).map_values(|p: Pixel| p.grayed()));
        }
        assert(self.pixels@.take(i as int) =~= self.pixels@);
        Image {
            magic: self.magic.clone(),
            height: self.height,
            width: self.width,
            max_color: self.max_color,
            pixels: gray_pixels,
        }
    }

    /// Gives up the image for its raster.
    pub fn pixels(self) -> (pixels: Vec<Pixel>)
        ensures
            pixels@ == self@.pixels,
            self@.well_formed(),
    {
        proof {
            use_type_invariant(&self);
        }
        self.pixels
    }

    /// The raster, row by row: `height * width` pixels.
    pub fn raster(&self) -> (pixels: &[Pixel])
        ensures
            pixels@ == self@.pixels,
            self@.well_formed(),
    {
        proof {
            use_type_invariant(self);
        }
        self.pixels.as_slice()
    }
}

impl Clone for Image {
    /// A copy with the same header fields and the same pixels.
    fn clone(&self) -> (image: Image)
        ensures
            image@ == self@,
    {
        proof {
            use_type_invariant(self);
        }
        let pixels = self.pixels.clone();
        assert(pixels@ =~= self.pixels@);
        Image {
            magic: self.magic.clone(),
            height: self.height,
            width: self.width,
            max_color: self.max_color,
            pixels,
        }
    }
}

/// Two images are equal where their rasters are: the same pixels in the same
/// order. The header fields take no part.
impl PartialEq for Image {
    fn eq(&self, other: &Self) -> (same: bool) {
        if self.pixels.len() != other.pixels.len() {
            return false;
        }
        let mut i: usize = 0;
        while i < self.pixels.len()
            invariant
                i <= self.pixels@.len(),
                self.pixels@.len() == other.pixels@.len(),
                forall|j: int| 0 <= j < i ==> self.pixels@[j] == other.pixels@[j],
            decreases self.pixels@.len() - i,
        {
            if !self.pixels[i].eq(&other.pixels[i]) {
                return false;
            }
            i += 1;
        }
        assert(self.pixels@ =~= other.pixels@);
        true
    }
}

impl PartialEqSpecImpl for Image {
    open spec fn obeys_eq_spec() -> bool {
        true
    }

    open spec fn eq_spec(&self, other: &Image) -> bool {
        self@.pixels == other@.pixels
    }
}

/// Inverting an image twice gives the image back.
pub proof fn lemma_invert_twice(image: ImageView)
    ensures
        image.inverted().inverted() == image,
{
    assert(image.inverted().inverted().pixels =~= image.pixels);
}

/// An image that has a pixel differs from its negative, and at every pixel.
pub proof fn lemma_invert_differs(image: ImageView)
    requires
        image.pixels.len() > 0,
    ensures
        image.inverted().pixels != image.pixels,
        forall|i: int| 0 <= i < image.pixels.len() ==> image.inverted().pixels[i] != image.pixels[i],
{
    assert forall|i: int| 0 <= i < image.pixels.len() implies image.inverted().pixels[i]
        != image.pixels[i] by {
        crate::pixel::lemma_pixel_invert_differs(image.pixels[i]);
    }
    assert(image.inverted().pixels[0] != image.pixels[0]);
}

/// Whether turning the image to grey gives only levels that three divides.
pub open spec fn gray_levels_divisible(image: ImageView) -> bool {
    forall|i: int| 0 <= i < image.pixels.len() ==> (#[trigger] image.pixels[i]).grayed().r % 3 == 0
}

/// Turning an image to grey a second time changes nothing, where three
/// divides every grey level of the first conversion. (A level that leaves a
/// remainder is rounded down by the second conversion.)
pub proof fn lemma_gray_scale_twice(image: ImageView)
    requires
        gray_levels_divisible(image),
    ensures
        image.grayed().grayed() == image.grayed(),
{
    assert forall|i: int| 0 <= i < image.pixels.len() implies image.grayed().grayed().pixels[i]
        == image.grayed().pixels[i] by {
        crate::pixel::lemma_pixel_gray_of_gray(image.pixels[i]);
    }
    assert(image.grayed().grayed().pixels =~= image.grayed().pixels);
}

/// Turning an image to grey a second time changes exactly the pixels whose
/// grey level three does not divide.
pub proof fn lemma_gray_scale_twice_exact(image: ImageView)
    ensures
        image.grayed().grayed() == image.grayed() <==> gray_levels_divisible(image),
{
    if gray_levels_divisible(image) {
        lemma_gray_scale_twice(image);
    }
    if image.grayed().grayed() == image.grayed() {
        assert forall|i: int| 0 <= i < image.pixels.len() implies (#[trigger] image.pixels[i]).grayed().r
            % 3 == 0 by {
            assert(image.grayed().grayed().pixels[i] == image.grayed().pixels[i]);
            crate::pixel::lemma_pixel_gray_of_gray(image.pixels[i]);
        }
    }
}

} // verus!
