use vstd::prelude::*;
use vstd::arithmetic::div_mod::*;
use vstd::arithmetic::mul::*;
use crate::size::Size;

verus! {

/// A greyscale image: one byte per pixel, in row-major order.
pub struct Image {
    size: Size,
    pixels: Vec<u8>,
}

impl View for Image {
    type V = Seq<u8>;

    /// The pixels of the image.
    closed spec fn view(&self) -> Seq<u8> {
        self.pixels@
    }
}

impl Image {
    /// The size the image was made with.
    pub closed spec fn spec_size(&self) -> Size {
        self.size
    }

    pub fn from_pixels(size: Size, pixels: Vec<u8>) -> (image: Image)
        ensures
            image.spec_size() == size,
            image@ == pixels@,
    {
        Image { size, pixels }
    }

    pub fn size(&self) -> (size: Size)
        ensures
            size == self.spec_size(),
    {
        self.size
    }

    pub fn pixels(&self) -> (pixels: &[u8])
        ensures
            pixels@ == self@,
    {
        self.pixels.as_slice()
    }
}

/// The number of iterations after which the standalone renderer takes a
/// point to be in the Mandelbrot set (half of `u8::MAX`).
pub const ESCAPE_ITERATIONS: usize = 127;

/// The grey level of a pixel whose point escaped after `escape_time`
/// iterations (`None`: it did not escape): the escape time scaled from
/// `0..ESCAPE_ITERATIONS` to `0..=255`, then truncated to a byte; black for
/// points that do not escape.
pub open spec fn spec_scaled_intensity(escape_time: Option<usize>) -> u8 {
    match escape_time {
        Some(i) => (((i * 255) / (ESCAPE_ITERATIONS as int)) % 256) as u8,
        None => 0,
    }
}

pub fn scaled_intensity(escape_time: Option<usize>) -> (intensity: u8)
    requires
        escape_time matches Some(i) ==> i * 255 <= usize::MAX,
    ensures
        intensity == spec_scaled_intensity(escape_time),
{
    match escape_time {
        Some(i) => (((i * 255) / ESCAPE_ITERATIONS) % 256) as u8,
        None => 0,
    }
}

/// Escape times below `ESCAPE_ITERATIONS` are scaled without truncation, and
/// a later escape never gives a darker pixel.
pub proof fn lemma_scaled_intensity_monotone(i: usize, j: usize)
    requires
        i <= j < ESCAPE_ITERATIONS,
    ensures
        spec_scaled_intensity(Some(i)) == (i * 255) / (ESCAPE_ITERATIONS as int),
        spec_scaled_intensity(Some(i)) <= spec_scaled_intensity(Some(j)),
        spec_scaled_intensity(Some(j)) < 255,
{
    let n = ESCAPE_ITERATIONS as int;
    lemma_mul_inequality(i as int, j as int, 255);
    lemma_div_is_ordered(i * 255, j * 255, n);
    lemma_div_pos_is_pos(i * 255, n);
    assert((j * 255) / n < 255) by {
        lemma_div_by_multiple_is_strongly_ordered(j * 255, n * 255, 255, n);
        lemma_mul_inequality(j as int, n - 1, 255);
    }
    lemma_small_mod(((i * 255) / n) as nat, 256);
    lemma_small_mod(((j * 255) / n) as nat, 256);
}

} // verus!
