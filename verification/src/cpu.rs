use vstd::prelude::*;
use vstd::arithmetic::div_mod::*;
use vstd::arithmetic::mul::*;
use crate::image::Image;
use crate::size::Size;

verus! {

/// The iteration budget of the CPU and GPU renderers: a point whose orbit has
/// not left the escape radius after this many iterations counts as inside.
pub const MAX_ITERATIONS: u32 = 255;

/// The number of pixels the SIMD renderer computes at once.
pub const SIMD_LANES: usize = 8;

/// The grey level of a pixel whose point escaped after `escape_time`
/// iterations: the iteration count truncated to a byte, or black for a point
/// that did not escape.
pub open spec fn spec_pixel_intensity(escape_time: Option<u32>) -> u8 {
    match escape_time {
        Some(iterations) => (iterations % 256) as u8,
        None => 0,
    }
}

pub fn pixel_intensity(escape_time: Option<u32>) -> (intensity: u8)
    ensures
        intensity == spec_pixel_intensity(escape_time),
{
    match escape_time {
        Some(iterations) => (iterations % 256) as u8,
        None => 0,
    }
}

/// The escape time that a SIMD lane's iteration count stands for: the count
/// itself when the lane escaped before `MAX_ITERATIONS`, `None` otherwise.
pub open spec fn spec_lane_escape_time(iterations: u32) -> Option<u32> {
    if iterations < MAX_ITERATIONS {
        Some(iterations)
    } else {
        None
    }
}

/// The grey level of a pixel that a SIMD lane computed in `iterations`
/// iterations.
pub fn lane_intensity(iterations: u32) -> (intensity: u8)
    ensures
        intensity == spec_pixel_intensity(spec_lane_escape_time(iterations)),
{
    let escape_time = if iterations < MAX_ITERATIONS {
        Some(iterations)
    } else {
        None
    };
    pixel_intensity(escape_time)
}

/// The iteration count that a SIMD lane holds for a point with the given
/// escape time: the escape time, or `MAX_ITERATIONS` when it never escaped.
pub open spec fn lane_count_of(escape_time: Option<u32>) -> u32 {
    match escape_time {
        Some(iterations) => iterations,
        None => MAX_ITERATIONS,
    }
}

/// The SIMD renderer and the sequential one give a pixel the same grey level:
/// for every escape time the scalar iteration can report (one below
/// `MAX_ITERATIONS`, or none), the lane's count maps to the same intensity.
/// Escape times below 256 are kept exactly.
pub proof fn lemma_lane_matches_scalar(escape_time: Option<u32>)
    requires
        escape_time matches Some(i) ==> i < MAX_ITERATIONS,
    ensures
        spec_pixel_intensity(spec_lane_escape_time(lane_count_of(escape_time)))
            == spec_pixel_intensity(escape_time),
        escape_time matches Some(i) ==> spec_pixel_intensity(escape_time) == i,
        escape_time is None ==> spec_pixel_intensity(escape_time) == 0,
{
}

/// Pixel (`x`, `y`) of the row-major `pixels` holds the grey level of an escape
/// time that `escape_time_at` can return for it.
pub open spec fn pixel_rendered<F: Fn(usize, usize) -> Option<u32>>(
    escape_time_at: F,
    pixels: Seq<u8>,
    width: int,
    x: usize,
    y: usize,
) -> bool {
    exists|escape_time: Option<u32>|
        #[trigger] call_ensures(escape_time_at, (x, y), escape_time) && pixels[y * width + x]
            == spec_pixel_intensity(escape_time)
}

/// Fills row `y` of the row-major `pixels` of an image `width` pixels wide.
fn render_row<F: Fn(usize, usize) -> Option<u32>>(
    pixels: &mut Vec<u8>,
    width: usize,
    y: usize,
    escape_time_at: &F,
)
    requires
        y * width + width <= old(pixels)@.len(),
        forall|x: usize| x < width ==> call_requires(*escape_time_at, (x, y)),
    ensures
        final(pixels)@.len() == old(pixels)@.len(),
        forall|x: usize| x < width ==> pixel_rendered(*escape_time_at, final(pixels)@, width as int, x, y),
        forall|i: int|
            0 <= i < old(pixels)@.len() && !(y * width <= i < y * width + width)
                ==> #[trigger] final(pixels)@[i] == old(pixels)@[i],
{
    proof {
        lemma_mul_nonnegative(y as int, width as int);
    }
    assert(pixels@.len() == pixels.len());
    let row_start = y * width;
    let ghost original = pixels@;
    let ghost mut results: Seq<Option<u32>> = Seq::empty();
    for x in 0..width
        invariant
            row_start == y * width,
            y * width + width <= pixels@.len(),
            pixels@.len() == original.len(),
            original.len() <= usize::MAX,
            results.len() == x,
            forall|x: usize| x < width ==> call_requires(*escape_time_at, (x, y)),
            forall|x2: usize|
                x2 < x ==> call_ensures(*escape_time_at, (x2, y), #[trigger] results[x2 as int])
                    && pixels@[y * width + x2] == spec_pixel_intensity(results[x2 as int]),
            forall|i: int|
                0 <= i < original.len() && !(y * width <= i < y * width + x) ==> #[trigger] pixels@[i]
                    == original[i],
    {
        let escape_time = escape_time_at(x, y);
        let intensity = pixel_intensity(escape_time);
        pixels.set(row_start + x, intensity);
        proof {
            results = results.push(escape_time);
        }
    }
    assert forall|x: usize| x < width implies pixel_rendered(
        *escape_time_at,
        pixels@,
        width as int,
        x,
        y,
    ) by {
        assert(call_ensures(*escape_time_at, (x, y), results[x as int]));
    }
}

/// Renders the image one row after another on the calling thread.
pub struct SequentialRenderer;

impl SequentialRenderer {
    /// Renders an image of `size`. `escape_time_at(x, y)` reports after how
    /// many iterations the point of pixel (`x`, `y`) escaped, if it did; each
    /// pixel gets the matching grey level. An image with no rows or no
    /// columns has no pixels to compute.
    pub fn render_pixels<F: Fn(usize, usize) -> Option<u32>>(
        &self,
        size: Size,
        escape_time_at: F,
    ) -> (image: Image)
        requires
            size.area_fits(),
            forall|x: usize, y: usize|
                x < size.width && y < size.height ==> call_requires(escape_time_at, (x, y)),
        ensures
            image.spec_size() == size,
            image@.len() == size.spec_area(),
            forall|x: usize, y: usize|
                x < size.width && y < size.height ==> pixel_rendered(
                    escape_time_at,
                    image@,
                    size.width as int,
                    x,
                    y,
                ),
    {
        let mut pixels = vec![0u8; size.area()];
        if size.width == 0 || size.height == 0 {
            return Image::from_pixels(size, pixels);
        }
        for y in 0..size.height
            invariant
                size.area_fits(),
                size.width > 0,
                pixels@.len() == size.spec_area(),
                forall|x: usize, y: usize|
                    x < size.width && y < size.height ==> call_requires(escape_time_at, (x, y)),
                forall|x: usize, y2: usize|
                    x < size.width && y2 < y ==> pixel_rendered(
                        escape_time_at,
                        pixels@,
                        size.width as int,
                        x,
                        y2,
                    ),
        {
            proof {
                lemma_mul_inequality(y + 1, size.height as int, size.width as int);
                lemma_mul_is_distributive_add_other_way(size.width as int, y as int, 1);
                lemma_mul_is_commutative(size.width as int, size.height as int);
            }
            let ghost before = pixels@;
            render_row(&mut pixels, size.width, y, &escape_time_at);
            assert forall|x: usize, y2: usize| x < size.width && y2 < y + 1 implies pixel_rendered(
                escape_time_at,
                pixels@,
                size.width as int,
                x,
                y2,
            ) by {
                if y2 < y {
                    assert(pixel_rendered(escape_time_at, before, size.width as int, x, y2));
                    let i = y2 * size.width + x;
                    lemma_mul_inequality(y2 + 1, y as int, size.width as int);
                    lemma_mul_is_distributive_add_other_way(size.width as int, y2 as int, 1);
                    assert(pixels@[i] == before[i]);
                }
            }
        }
        Image::from_pixels(size, pixels)
    }
}

/// Renders rows in parallel, `SIMD_LANES` pixels of a row at a time; each row
/// is filled by `render_simd_row`.
pub struct SimdRenderer;

/// The number of leading pixels of a row of `row_len` pixels that the SIMD
/// renderer computes in whole batches of `SIMD_LANES`; the rest, fewer than
/// `SIMD_LANES`, it computes one by one.
pub fn simd_width(row_len: usize) -> (width: usize)
    ensures
        width == row_len / 8 * 8,
        width % 8 == 0,
        width <= row_len,
        row_len - width < SIMD_LANES,
{
    proof {
        lemma_fundamental_div_mod(row_len as int, SIMD_LANES as int);
        lemma_mod_bound(row_len as int, SIMD_LANES as int);
        lemma_mod_multiples_basic((row_len / SIMD_LANES) as int, SIMD_LANES as int);
    }
    row_len / SIMD_LANES * SIMD_LANES
}

/// Pixel `x` of `row`, inside the batched part, holds the lane `x % 8` of a
/// batch of intensities that `batch_intensities` can return for the batch
/// starting at column `x / 8 * 8`.
pub open spec fn lane_rendered<B: Fn(usize) -> [u8; 8]>(
    batch_intensities: B,
    row: Seq<u8>,
    x: int,
) -> bool {
    exists|lanes: [u8; 8]|
        #[trigger] call_ensures(batch_intensities, ((x / 8 * 8) as usize,), lanes) && row[x]
            == lanes@[x % 8]
}

/// Pixel `x` of `row` holds the grey level of an escape time that
/// `escape_time_at` can return for column `x`.
pub open spec fn column_rendered<P: Fn(usize) -> Option<u32>>(
    escape_time_at: P,
    row: Seq<u8>,
    x: usize,
) -> bool {
    exists|escape_time: Option<u32>|
        #[trigger] call_ensures(escape_time_at, (x,), escape_time) && row[x as int]
            == spec_pixel_intensity(escape_time)
}

/// Pixel `lane` of batch `b` of a row.
spec fn batch_pixel(row: Seq<u8>, b: int, lane: int) -> u8 {
    row[b * 8 + lane]
}

/// Fills one row of the SIMD renderer: the leading `simd_width(row.len())`
/// pixels batch by batch, where `batch_intensities(first_x)` gives the grey
/// levels of the `SIMD_LANES` pixels from column `first_x` on, and the
/// remaining pixels one by one from `escape_time_at(x)`.
pub fn render_simd_row<B: Fn(usize) -> [u8; 8], P: Fn(usize) -> Option<u32>>(
    row: &mut [u8],
    batch_intensities: B,
    escape_time_at: P,
)
    requires
        forall|first_x: usize|
            first_x % 8 == 0 && first_x + 8 <= old(row)@.len() ==> call_requires(
                batch_intensities,
                (first_x,),
            ),
        forall|x: usize| x < old(row)@.len() ==> call_requires(escape_time_at, (x,)),
    ensures
        final(row)@.len() == old(row)@.len(),
        forall|x: int|
            0 <= x < old(row)@.len() / 8 * 8 ==> lane_rendered(batch_intensities, final(row)@, x),
        forall|x: usize|
            old(row)@.len() / 8 * 8 <= x < old(row)@.len() ==> column_rendered(
                escape_time_at,
                final(row)@,
                x,
            ),
{
    let len = row.len();
    let batched = simd_width(len);
    let batches = batched / SIMD_LANES;
    let ghost mut batch_results: Seq<[u8; 8]> = Seq::empty();
    for batch in 0..batches
        invariant
            len == row@.len(),
            batched == len / 8 * 8,
            batches == batched / 8,
            batched <= len,
            batch_results.len() == batch,
            forall|first_x: usize|
                first_x % 8 == 0 && first_x + 8 <= len ==> call_requires(
                    batch_intensities,
                    (first_x,),
                ),
            forall|b: int|
                0 <= b < batch ==> call_ensures(
                    batch_intensities,
                    ((b * 8) as usize,),
                    #[trigger] batch_results[b],
                ),
            forall|b: int, lane: int|
                0 <= b < batch && 0 <= lane < 8 ==> #[trigger] batch_pixel(row@, b, lane)
                    == batch_results[b]@[lane],
    {
        let first_x = batch * SIMD_LANES;
        proof {
            lemma_mul_inequality(batch + 1, batches as int, 8);
            lemma_fundamental_div_mod(batched as int, 8);
            lemma_mod_multiples_basic(batch as int, 8);
        }
        let intensities = batch_intensities(first_x);
        let ghost before = row@;
        for lane in 0..SIMD_LANES
            invariant
                len == row@.len(),
                first_x == batch * 8,
                first_x + 8 <= len,
                forall|i: int|
                    0 <= i < len && !(first_x <= i < first_x + lane) ==> #[trigger] row@[i]
                        == before[i],
                forall|l: int| 0 <= l < lane ==> #[trigger] row@[first_x + l] == intensities@[l],
        {
            row[first_x + lane] = intensities[lane];
        }
        proof {
            batch_results = batch_results.push(intensities);
            assert forall|b: int, lane: int| 0 <= b < batch + 1 && 0 <= lane < 8 implies #[trigger] batch_pixel(row@, b, lane)
                == batch_results[b]@[lane] by {
                if b < batch {
                    assert(batch_pixel(before, b, lane) == batch_results[b]@[lane]);
                    lemma_mul_inequality(b + 1, batch as int, 8);
                    lemma_mul_is_distributive_add_other_way(8, b, 1);
                    assert(0 <= b * 8);
                    assert(row@[b * 8 + lane] == before[b * 8 + lane]);
                } else {
                    assert(batch_results[b] == intensities);
                    assert(row@[first_x + lane] == intensities@[lane]);
                }
            }
        }
    }
    let ghost mut tail_results: Seq<Option<u32>> = Seq::empty();
    let ghost after_batches = row@;
    for x in batched..len
        invariant
            len == row@.len(),
            batched <= len,
            tail_results.len() == x - batched,
            forall|x: usize| x < len ==> call_requires(escape_time_at, (x,)),
            forall|i: int| 0 <= i < batched ==> #[trigger] row@[i] == after_batches[i],
            forall|x2: int|
                batched <= x2 < x ==> call_ensures(
                    escape_time_at,
                    (x2 as usize,),
                    #[trigger] tail_results[x2 - batched],
                ) && row@[x2] == spec_pixel_intensity(tail_results[x2 - batched]),
    {
        let escape_time = escape_time_at(x);
        row[x] = pixel_intensity(escape_time);
        proof {
            tail_results = tail_results.push(escape_time);
        }
    }
    assert forall|x: int| 0 <= x < len / 8 * 8 implies lane_rendered(batch_intensities, row@, x) by {
        let b = x / 8;
        lemma_fundamental_div_mod(x, 8);
        lemma_mod_bound(x, 8);
        lemma_div_is_ordered(x, batched as int, 8);
        lemma_div_by_multiple_is_strongly_ordered(x, batched as int, batches as int, 8);
        assert(call_ensures(batch_intensities, ((b * 8) as usize,), batch_results[b]));
        assert(batch_pixel(after_batches, b, x % 8) == batch_results[b]@[x % 8]);
        assert(b * 8 + x % 8 == x) by {
            lemma_mul_is_commutative(8, b);
        }
        assert(row@[x] == after_batches[x]);
    }
    assert forall|x: usize| len / 8 * 8 <= x < len implies column_rendered(
        escape_time_at,
        row@,
        x,
    ) by {
        assert(call_ensures(escape_time_at, (x,), tail_results[x - batched]));
    }
}

} // verus!
