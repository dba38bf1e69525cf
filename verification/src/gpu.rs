use vstd::prelude::*;
use vstd::arithmetic::div_mod::*;
use vstd::arithmetic::mul::*;
use vstd::endian::{endianness, Endian};
use crate::size::Size;

verus! {

/// The number of output bytes that one tile of the GPU renderer aims at.
pub const TARGET_TILE_BYTES: u64 = 64 * 1024 * 1024;

/// The GPU shader writes one `u32` per pixel.
pub const BYTES_PER_PIXEL: u64 = 4;

pub open spec fn min_int(a: int, b: int) -> int {
    if a <= b { a } else { b }
}

pub open spec fn max_int(a: int, b: int) -> int {
    if a >= b { a } else { b }
}

/// The width and height of `size` as the `u32` values the shader takes, or
/// `None` when one of them does not fit (the image is too large for the GPU).
pub fn image_dimensions(size: Size) -> (dimensions: Option<(u32, u32)>)
    ensures
        dimensions is Some <==> size.width <= u32::MAX && size.height <= u32::MAX,
        dimensions matches Some((w, h)) ==> w == size.width && h == size.height,
{
    if size.width <= u32::MAX as usize && size.height <= u32::MAX as usize {
        Some((size.width as u32, size.height as u32))
    } else {
        None
    }
}

/// The largest buffer the renderer may create: the smaller of the adapter's
/// buffer limit and its storage-binding limit.
pub fn buffer_size_limit(max_buffer_size: u64, max_storage_buffer_binding_size: u32) -> (limit: u64)
    ensures
        limit == min_int(max_buffer_size as int, max_storage_buffer_binding_size as int),
{
    let binding = max_storage_buffer_binding_size as u64;
    if max_buffer_size <= binding {
        max_buffer_size
    } else {
        binding
    }
}

/// The bytes the shader writes for one row of an image `width` pixels wide.
pub open spec fn row_bytes(width: int) -> int {
    width * BYTES_PER_PIXEL
}

/// The number of rows per tile: as many rows as fit in the smaller of
/// `TARGET_TILE_BYTES` and `max_buffer_size`, but at least one and at most
/// `height`.
pub open spec fn spec_tile_height(width: int, height: int, max_buffer_size: int) -> int {
    let rows = min_int(TARGET_TILE_BYTES as int, max_buffer_size) / row_bytes(width);
    if rows < 1 {
        1
    } else if rows > height {
        height
    } else {
        rows
    }
}

/// `rows` rows of an image `width` pixels wide fit in one tile: their output
/// bytes are at most `TARGET_TILE_BYTES` and at most `max_buffer_size`, or
/// there is only one row (a tile never has fewer).
pub open spec fn rows_fit_budget(rows: int, width: int, max_buffer_size: int) -> bool {
    rows == 1 || (rows * (width * 4) <= TARGET_TILE_BYTES && rows * (width * 4) <= max_buffer_size)
}

/// The tile height is the largest number of rows, between one and the image
/// height, whose output fits both the target tile size and the device's
/// buffer limit: it fits, and either it is the whole image or one more row
/// would not fit. No other height has both properties.
pub proof fn lemma_tile_height_largest_fitting(width: int, height: int, max_buffer_size: int)
    requires
        width > 0,
        height > 0,
        max_buffer_size >= 0,
    ensures
        1 <= spec_tile_height(width, height, max_buffer_size) <= height,
        rows_fit_budget(spec_tile_height(width, height, max_buffer_size), width, max_buffer_size),
        spec_tile_height(width, height, max_buffer_size) == height || !rows_fit_budget(
            spec_tile_height(width, height, max_buffer_size) + 1,
            width,
            max_buffer_size,
        ),
        forall|other: int|
            1 <= other <= height && #[trigger] rows_fit_budget(other, width, max_buffer_size) && (other
                == height || !rows_fit_budget(other + 1, width, max_buffer_size)) ==> other
                == spec_tile_height(width, height, max_buffer_size),
{
    let rows = spec_tile_height(width, height, max_buffer_size);
    let per_row = width * 4;
    let budget = min_int(TARGET_TILE_BYTES as int, max_buffer_size);
    let fit = budget / per_row;
    lemma_fundamental_div_mod(budget, per_row);
    lemma_mod_bound(budget, per_row);
    lemma_div_pos_is_pos(budget, per_row);
    assert(per_row * fit == fit * per_row) by {
        lemma_mul_is_commutative(per_row, fit);
    }
    assert(fit * per_row <= budget < (fit + 1) * per_row) by {
        lemma_mul_is_distributive_add_other_way(per_row, fit, 1);
    }
    // `r` rows fit exactly when `r` is one or at most `fit`
    assert forall|r: int| r >= 1 implies #[trigger] rows_fit_budget(r, width, max_buffer_size) <==> (r == 1
        || r <= fit) by {
        if r <= fit {
            lemma_mul_inequality(r, fit, per_row);
        } else {
            lemma_mul_inequality(fit + 1, r, per_row);
        }
    }
    assert(rows_fit_budget(rows + 1, width, max_buffer_size) <==> rows + 1 <= fit);
}

pub fn tile_height(width: u32, height: u32, max_buffer_size: u64) -> (rows: u32)
    requires
        width > 0,
        height > 0,
    ensures
        rows == spec_tile_height(width as int, height as int, max_buffer_size as int),
        1 <= rows <= height,
        rows_fit_budget(rows as int, width as int, max_buffer_size as int),
        rows == height || !rows_fit_budget(rows + 1, width as int, max_buffer_size as int),
{
    proof {
        lemma_tile_height_largest_fitting(width as int, height as int, max_buffer_size as int);
    }
    let bytes_per_row = width as u64 * BYTES_PER_PIXEL;
    let tile_bytes = if TARGET_TILE_BYTES <= max_buffer_size {
        TARGET_TILE_BYTES
    } else {
        max_buffer_size
    };
    let rows = tile_bytes / bytes_per_row;
    if rows < 1 {
        1
    } else if rows > height as u64 {
        height
    } else {
        rows as u32
    }
}

/// A band of whole rows of the image that the GPU renders in one pass.
#[derive(Debug, Clone, Copy, PartialEq, Eq, Structural)]
pub struct Tile {
    /// The first row of the band.
    pub y: u32,
    /// The number of rows in the band.
    pub height: u32,
    /// The index of the band's first pixel in the row-major pixel buffer.
    pub start: usize,
    /// One past the index of the band's last pixel.
    pub end: usize,
}

/// The number of tiles of `rows` rows that cover `height` rows.
pub open spec fn tile_count(height: int, rows: int) -> int {
    (height + rows - 1) / rows
}

/// The number of rows of tile `k`: `rows`, or what is left for the last one.
pub open spec fn tile_rows(height: int, rows: int, k: int) -> int {
    min_int(rows, height - k * rows)
}

/// Tile `k` of an image `width` by `height` cut into bands of `rows` rows.
pub open spec fn is_tile(tile: Tile, width: int, height: int, rows: int, k: int) -> bool {
    &&& tile.y == k * rows
    &&& tile.height == tile_rows(height, rows, k)
    &&& tile.start == tile.y * width
    &&& tile.end == (tile.y + tile.height) * width
}

proof fn lemma_tile_count_step(height: int, rows: int, n: int)
    requires
        rows >= 1,
        n >= 0,
        n * rows < height <= (n + 1) * rows,
    ensures
        tile_count(height, rows) == n + 1,
{
    let r = height + rows - 1 - (n + 1) * rows;
    assert(0 <= r < rows) by (nonlinear_arith)
        requires
            rows >= 1,
            n * rows < height <= (n + 1) * rows,
            r == height + rows - 1 - (n + 1) * rows,
    {}
    lemma_fundamental_div_mod_converse(height + rows - 1, rows, n + 1, r);
}

proof fn lemma_rows_within_area(width: int, height: int, y: int)
    requires
        0 <= width,
        0 <= y <= height,
    ensures
        0 <= y * width <= height * width,
{
    lemma_mul_inequality(y, height, width);
    lemma_mul_nonnegative(y, width);
}

/// Cuts the image into bands of `rows` rows, top to bottom, as the GPU
/// renderer walks it with a step of `rows`.
pub fn plan_tiles(width: u32, height: u32, rows: u32) -> (tiles: Vec<Tile>)
    requires
        rows >= 1,
        width as int * height as int <= usize::MAX,
    ensures
        tiles@.len() == tile_count(height as int, rows as int),
        forall|k: int|
            0 <= k < tiles@.len() ==> is_tile(
                #[trigger] tiles@[k],
                width as int,
                height as int,
                rows as int,
                k,
            ),
{
    let mut tiles: Vec<Tile> = Vec::new();
    let mut tile_y: u32 = 0;
    proof {
        assert(tiles@.len() == 0);
        assert(0 * rows == 0);
        if height > 0 {
            lemma_div_is_ordered(rows as int, height + rows - 1, rows as int);
            lemma_div_by_self(rows as int);
        } else {
            lemma_fundamental_div_mod_converse(rows - 1, rows as int, 0, rows - 1);
        }
        lemma_mul_is_commutative(width as int, height as int);
    }
    while tile_y < height
        invariant
            rows >= 1,
            width as int * height as int <= usize::MAX,
            height as int * width as int <= usize::MAX,
            tile_y <= height,
            tile_y < height ==> tile_y == tiles@.len() * rows,
            tile_y < height ==> tiles@.len() < tile_count(height as int, rows as int),
            tile_y == height ==> tiles@.len() == tile_count(height as int, rows as int),
            forall|k: int|
                0 <= k < tiles@.len() ==> is_tile(
                    #[trigger] tiles@[k],
                    width as int,
                    height as int,
                    rows as int,
                    k,
                ),
        decreases height - tile_y,
    {
        let ghost n = tiles@.len() as int;
        let current = if rows < height - tile_y {
            rows
        } else {
            height - tile_y
        };
        proof {
            lemma_rows_within_area(width as int, height as int, tile_y as int);
            lemma_rows_within_area(width as int, height as int, tile_y + current);
            assert((tile_y + current) * width == tile_y * width + current * width) by {
                lemma_mul_is_distributive_add_other_way(width as int, tile_y as int, current as int);
            }
        }
        let start = tile_y as usize * width as usize;
        let end = start + current as usize * width as usize;
        let tile = Tile { y: tile_y, height: current, start, end };
        tiles.push(tile);
        proof {
            assert(is_tile(tile, width as int, height as int, rows as int, n));
            assert(tiles@[n] == tile);
            if current == rows && tile_y + rows < height {
                assert((n + 1) * rows == n * rows + rows) by {
                    lemma_mul_is_distributive_add_other_way(rows as int, n, 1);
                }
                assert((n + 2) * rows == n * rows + rows + rows) by {
                    lemma_mul_is_distributive_add_other_way(rows as int, n, 2);
                }
                let c = tile_count(height as int, rows as int);
                assert(c > n + 1) by {
                    if c <= n + 1 {
                        // the tiles counted so far would already reach `height`
                        lemma_fundamental_div_mod(height + rows - 1, rows as int);
                        lemma_mod_bound(height + rows - 1, rows as int);
                        lemma_mul_inequality(c, n + 1, rows as int);
                        lemma_mul_is_commutative(rows as int, c);
                    }
                }
            } else {
                assert((n + 1) * rows == n * rows + rows) by {
                    lemma_mul_is_distributive_add_other_way(rows as int, n, 1);
                }
                lemma_tile_count_step(height as int, rows as int, n);
            }
        }
        tile_y = tile_y + current;
    }
    tiles
}

/// `tile_count` tiles of `rows` rows are enough for `height` rows, and one
/// fewer would not be.
proof fn lemma_tile_count_bounds(height: int, rows: int)
    requires
        rows >= 1,
        height >= 0,
    ensures
        tile_count(height, rows) >= 0,
        height == 0 ==> tile_count(height, rows) == 0,
        height > 0 ==> (tile_count(height, rows) - 1) * rows < height,
        height <= tile_count(height, rows) * rows,
{
    let c = tile_count(height, rows);
    let n = height + rows - 1;
    lemma_fundamental_div_mod(n, rows);
    lemma_mod_bound(n, rows);
    lemma_div_pos_is_pos(n, rows);
    assert(rows * c == c * rows) by {
        lemma_mul_is_commutative(rows, c);
    }
    assert((c - 1) * rows == c * rows - rows) by {
        lemma_mul_is_distributive_sub_other_way(rows, c, 1);
    }
    if height == 0 {
        assert(0 * rows == 0);
        lemma_fundamental_div_mod_converse(n, rows, 0, rows - 1);
    }
}

/// The tiles that `plan_tiles` returns cut the pixel buffer of a `width` by
/// `height` image into consecutive, non-empty bands of at most `rows` rows:
/// the first starts at pixel 0, each starts where the one before it ends,
/// and the last ends at pixel `width * height`. So every pixel belongs to
/// exactly one tile.
pub proof fn lemma_tiles_partition_image(tiles: Seq<Tile>, width: int, height: int, rows: int)
    requires
        rows >= 1,
        width >= 0,
        height >= 0,
        tiles.len() == tile_count(height, rows),
        forall|k: int| 0 <= k < tiles.len() ==> is_tile(#[trigger] tiles[k], width, height, rows, k),
    ensures
        height == 0 <==> tiles.len() == 0,
        tiles.len() > 0 ==> tiles[0].y == 0 && tiles[0].start == 0,
        tiles.len() > 0 ==> tiles.last().y + tiles.last().height == height,
        tiles.len() > 0 ==> tiles.last().end == height * width,
        forall|k: int| 0 <= k < tiles.len() ==> 1 <= #[trigger] tiles[k].height <= rows,
        forall|k: int|
            0 <= k < tiles.len() - 1 ==> #[trigger] tiles[k].y + tiles[k].height == tiles[k + 1].y
                && tiles[k].end == tiles[k + 1].start,
{
    let c = tile_count(height, rows);
    lemma_tile_count_bounds(height, rows);
    assert forall|k: int| 0 <= k < tiles.len() implies 1 <= #[trigger] tiles[k].height <= rows by {
        lemma_mul_inequality(k, c - 1, rows);
        assert(tiles[k].y == k * rows);
    }
    assert forall|k: int| 0 <= k < tiles.len() - 1 implies #[trigger] tiles[k].y + tiles[k].height
        == tiles[k + 1].y && tiles[k].end == tiles[k + 1].start by {
        lemma_mul_inequality(k + 1, c - 1, rows);
        lemma_mul_is_distributive_add_other_way(rows, k, 1);
        assert(is_tile(tiles[k + 1], width, height, rows, k + 1));
    }
    if c > 0 {
        assert(is_tile(tiles[0], width, height, rows, 0));
        assert(is_tile(tiles[c - 1], width, height, rows, c - 1));
        assert(tiles.last() == tiles[c - 1]);
        assert(c * rows == (c - 1) * rows + rows) by {
            lemma_mul_is_distributive_add_other_way(rows, c - 1, 1);
        }
    }
}

/// Row `row` of the image lies in tile `row / rows`.
pub proof fn lemma_row_in_tile(tiles: Seq<Tile>, width: int, height: int, rows: int, row: int)
    requires
        rows >= 1,
        0 <= row < height,
        tiles.len() == tile_count(height, rows),
        forall|k: int| 0 <= k < tiles.len() ==> is_tile(#[trigger] tiles[k], width, height, rows, k),
    ensures
        0 <= row / rows < tiles.len(),
        tiles[row / rows].y <= row < tiles[row / rows].y + tiles[row / rows].height,
{
    let k = row / rows;
    let c = tile_count(height, rows);
    lemma_tile_count_bounds(height, rows);
    lemma_fundamental_div_mod(row, rows);
    lemma_mod_bound(row, rows);
    lemma_div_pos_is_pos(row, rows);
    assert(rows * k == k * rows) by {
        lemma_mul_is_commutative(rows, k);
    }
    if k >= c {
        lemma_mul_inequality(c, k, rows);
    }
    assert(is_tile(tiles[k], width, height, rows, k));
}

/// The output buffer of every tile holds at most the larger of the tile
/// budget (`TARGET_TILE_BYTES`, or `max_buffer_size` when that is smaller) and
/// one row: tiles fit the budget unless a single row of the image exceeds it.
pub proof fn lemma_tile_fits_budget(width: int, height: int, max_buffer_size: int, k: int)
    requires
        width > 0,
        height > 0,
        max_buffer_size >= 0,
        0 <= k < tile_count(height, spec_tile_height(width, height, max_buffer_size)),
    ensures
        tile_rows(height, spec_tile_height(width, height, max_buffer_size), k) * row_bytes(width)
            <= max_int(min_int(TARGET_TILE_BYTES as int, max_buffer_size), row_bytes(width)),
{
    let rows = spec_tile_height(width, height, max_buffer_size);
    let budget = min_int(TARGET_TILE_BYTES as int, max_buffer_size);
    let per_row = row_bytes(width);
    let fit = budget / per_row;
    let t = tile_rows(height, rows, k);
    lemma_tile_count_bounds(height, rows);
    lemma_mul_inequality(k, tile_count(height, rows) - 1, rows);
    assert(1 <= t <= rows);
    lemma_mul_inequality(t, rows, per_row);
    if fit >= 1 {
        lemma_fundamental_div_mod(budget, per_row);
        lemma_mod_bound(budget, per_row);
        lemma_mul_inequality(rows, fit, per_row);
        lemma_mul_is_commutative(per_row, fit);
    }
}

/// The tiles of a GPU render of `size`, or `None` when a side of the image
/// does not fit in a `u32` (the image is too large for the renderer).
pub struct GpuRenderPlan {
    pub width: u32,
    pub height: u32,
    pub tile_height: u32,
    pub tiles: Vec<Tile>,
}

/// Decides how the GPU renderer walks an image of `size` with buffers of at
/// most `max_buffer_size` bytes: `None` when the image is too large, no tiles
/// for an empty image, and otherwise bands of `tile_height` rows.
pub fn plan_gpu_render(size: Size, max_buffer_size: u64) -> (plan: Option<GpuRenderPlan>)
    requires
        size.width <= u32::MAX && size.height <= u32::MAX ==> size.area_fits(),
    ensures
        plan is None <==> size.width > u32::MAX || size.height > u32::MAX,
        plan matches Some(p) ==> {
            &&& p.width == size.width
            &&& p.height == size.height
            &&& (size.width == 0 || size.height == 0) ==> p.tile_height == 0 && p.tiles@.len() == 0
            &&& (size.width > 0 && size.height > 0) ==> {
                &&& p.tile_height == spec_tile_height(
                    size.width as int,
                    size.height as int,
                    max_buffer_size as int,
                )
                &&& 1 <= p.tile_height <= size.height
                &&& rows_fit_budget(p.tile_height as int, size.width as int, max_buffer_size as int)
                &&& (p.tile_height == size.height || !rows_fit_budget(
                    p.tile_height + 1,
                    size.width as int,
                    max_buffer_size as int,
                ))
                &&& p.tiles@.len() == tile_count(size.height as int, p.tile_height as int)
                &&& forall|k: int|
                    0 <= k < p.tiles@.len() ==> is_tile(
                        #[trigger] p.tiles@[k],
                        size.width as int,
                        size.height as int,
                        p.tile_height as int,
                        k,
                    )
            }
        },
{
    let (width, height) = match image_dimensions(size) {
        Some(dimensions) => dimensions,
        None => return None,
    };
    if width == 0 || height == 0 {
        return Some(GpuRenderPlan { width, height, tile_height: 0, tiles: Vec::new() });
    }
    let rows = tile_height(width, height, max_buffer_size);
    let tiles = plan_tiles(width, height, rows);
    Some(GpuRenderPlan { width, height, tile_height: rows, tiles })
}

/// `items / group`, rounded up.
pub open spec fn div_ceil(items: int, group: int) -> int {
    (items + group - 1) / group
}

/// The number of workgroups of `group` invocations needed for `items` items:
/// enough to reach every item, and no group that reaches none.
pub fn workgroup_count(items: u32, group: u32) -> (count: u32)
    requires
        group > 0,
    ensures
        count == div_ceil(items as int, group as int),
        count * group >= items,
        count > 0 ==> (count - 1) * group < items,
{
    let whole = items / group;
    let rest = items % group;
    proof {
        lemma_fundamental_div_mod(items as int, group as int);
        lemma_mul_inequality(1, group as int, whole as int);
    }
    let count = if rest == 0 { whole } else { whole + 1 };
    proof {
        lemma_fundamental_div_mod(items as int, group as int);
        lemma_mod_bound(items as int, group as int);
        lemma_mul_is_commutative(group as int, whole as int);
        lemma_mul_is_distributive_add_other_way(group as int, whole as int, 1);
        lemma_mul_is_distributive_sub_other_way(group as int, count as int, 1);
        if rest == 0 {
            lemma_fundamental_div_mod_converse(items + group - 1, group as int, whole as int, group - 1);
        } else {
            lemma_fundamental_div_mod_converse(
                items + group - 1,
                group as int,
                whole + 1,
                rest - 1,
            );
        }
    }
    count
}

/// The workgroups the GPU dispatches for a tile: columns of the image across,
/// rows of the tile down, one deep.
pub fn dispatch_size(image_width: u32, tile_rows: u32, group_width: u32, group_height: u32) -> (size: (
    u32,
    u32,
    u32,
))
    requires
        group_width > 0,
        group_height > 0,
    ensures
        size.0 == div_ceil(image_width as int, group_width as int),
        size.1 == div_ceil(tile_rows as int, group_height as int),
        size.2 == 1,
{
    (workgroup_count(image_width, group_width), workgroup_count(tile_rows, group_height), 1)
}

/// The size in bytes of the GPU output buffer for `pixel_count` pixels.
pub fn tile_output_size(pixel_count: usize) -> (bytes: u64)
    requires
        pixel_count * BYTES_PER_PIXEL <= usize::MAX,
    ensures
        bytes == pixel_count * BYTES_PER_PIXEL,
{
    (pixel_count * 4) as u64
}

/// Byte `j` of `bytes`, or 0 past its end.
pub open spec fn byte_at(bytes: Seq<u8>, j: int) -> int {
    if 0 <= j < bytes.len() {
        bytes[j] as int
    } else {
        0
    }
}

/// Word `i` of `bytes` read in little-endian order.
pub open spec fn little_endian_word(bytes: Seq<u8>, i: int) -> int {
    byte_at(bytes, 4 * i) + 256 * (byte_at(bytes, 4 * i + 1) + 256 * (byte_at(bytes, 4 * i + 2)
        + 256 * byte_at(bytes, 4 * i + 3)))
}

/// Word `i` of `bytes` read in big-endian order.
pub open spec fn big_endian_word(bytes: Seq<u8>, i: int) -> int {
    byte_at(bytes, 4 * i + 3) + 256 * (byte_at(bytes, 4 * i + 2) + 256 * (byte_at(bytes, 4 * i + 1)
        + 256 * byte_at(bytes, 4 * i)))
}

/// `words` are the words of `bytes`, read in the given byte order.
pub open spec fn words_of(bytes: Seq<u8>, words: Seq<u32>, little_endian: bool) -> bool {
    forall|i: int|
        0 <= i < words.len() ==> #[trigger] words[i] == if little_endian {
            little_endian_word(bytes, i)
        } else {
            big_endian_word(bytes, i)
        }
}

/// Whether the machine stores the low byte of a word first.
pub open spec fn native_is_little_endian() -> bool {
    endianness() is Little
}

/// Word `i` of `bytes` read in the machine's own byte order.
pub open spec fn native_word(bytes: Seq<u8>, i: int) -> int {
    if native_is_little_endian() {
        little_endian_word(bytes, i)
    } else {
        big_endian_word(bytes, i)
    }
}

/// Where the low byte of a word lies among its four bytes in the machine's
/// own byte order: first on little-endian machines, last on big-endian ones.
pub open spec fn native_low_byte_offset() -> int {
    if native_is_little_endian() {
        0
    } else {
        3
    }
}

/// `bytemuck::pod_collect_to_vec` from bytes to `u32` words: copies the bytes
/// into a vector of `ceil(len / 4)` words, zero-filling the last word. The
/// words hold the bytes in the byte order of the machine the code runs on
/// (vstd's `endianness()`), the same for every call; which order that is this
/// contract does not say.
#[verifier::external_body]
fn collect_words(bytes: &[u8]) -> (words: Vec<u32>)
    ensures
        words@.len() == (bytes@.len() + 3) / 4,
        words_of(bytes@, words@, native_is_little_endian()),
{
    bytemuck::pod_collect_to_vec(bytes)
}

/// The first `len` pixels that have a word in `mapped` hold byte `offset` of
/// that word.
pub open spec fn low_bytes_copied(pixels: Seq<u8>, len: int, mapped: Seq<u8>, offset: int) -> bool {
    forall|i: int|
        0 <= i < len && i < (mapped.len() + 3) / 4 ==> #[trigger] pixels[i] == byte_at(
            mapped,
            4 * i + offset,
        )
}

proof fn lemma_low_byte(low: int, high: int)
    requires
        0 <= low < 256,
    ensures
        (low + 256 * high) % 256 == low,
{
    lemma_fundamental_div_mod_converse(low + 256 * high, 256, high, low);
}

/// Copies the words that the GPU wrote for a tile, read back as the bytes
/// `mapped`, into the tile's pixels: each pixel takes the low byte of its
/// word. In the machine's byte order that is byte `4 * i` (little-endian) or
/// byte `4 * i + 3` (big-endian) of `mapped`.
pub fn copy_tile_pixels(pixels: &mut [u8], mapped: &[u8])
    ensures
        final(pixels)@.len() == old(pixels)@.len(),
        forall|i: int|
            (mapped@.len() + 3) / 4 <= i < old(pixels)@.len() ==> #[trigger] final(pixels)@[i]
                == old(pixels)@[i],
        low_bytes_copied(final(pixels)@, old(pixels)@.len() as int, mapped@, 0)
            || low_bytes_copied(final(pixels)@, old(pixels)@.len() as int, mapped@, 3),
        low_bytes_copied(
            final(pixels)@,
            old(pixels)@.len() as int,
            mapped@,
            native_low_byte_offset(),
        ),
        forall|i: int|
            0 <= i < old(pixels)@.len() && i < (mapped@.len() + 3) / 4 ==> #[trigger] final(pixels)@[i]
                == native_word(mapped@, i) % 256,
{
    let values = collect_words(mapped);
    let count = if pixels.len() < values.len() {
        pixels.len()
    } else {
        values.len()
    };
    let ghost original = pixels@;
    for i in 0..count
        invariant
            count <= pixels@.len(),
            count <= values@.len(),
            pixels@.len() == original.len(),
            forall|j: int| 0 <= j < i ==> #[trigger] pixels@[j] == values@[j] % 256,
            forall|j: int| i <= j < pixels@.len() ==> #[trigger] pixels@[j] == original[j],
    {
        pixels[i] = (values[i] % 256) as u8;
    }
    proof {
        let m = mapped@;
        if native_is_little_endian() {
            assert forall|i: int|
                0 <= i < original.len() && i < (m.len() + 3) / 4 implies #[trigger] pixels@[i]
                == byte_at(m, 4 * i + 0) by {
                assert(values@[i] == little_endian_word(m, i));
                lemma_low_byte(
                    byte_at(m, 4 * i),
                    byte_at(m, 4 * i + 1) + 256 * (byte_at(m, 4 * i + 2) + 256 * byte_at(
                        m,
                        4 * i + 3,
                    )),
                );
            }
        } else {
            assert forall|i: int|
                0 <= i < original.len() && i < (m.len() + 3) / 4 implies #[trigger] pixels@[i]
                == byte_at(m, 4 * i + 3) by {
                assert(values@[i] == big_endian_word(m, i));
                lemma_low_byte(
                    byte_at(m, 4 * i + 3),
                    byte_at(m, 4 * i + 2) + 256 * (byte_at(m, 4 * i + 1) + 256 * byte_at(m, 4 * i)),
                );
            }
        }
    }
}

/// Byte `k` (0 is the lowest) of the 32-bit word `word`.
pub open spec fn word_byte(word: u32, k: int) -> u8 {
    let scale: int = if k == 0 {
        1
    } else if k == 1 {
        256
    } else if k == 2 {
        65536
    } else {
        16777216
    };
    ((word as int / scale) % 256) as u8
}

/// The bytes of `words` as the machine stores them: four per word, lowest
/// byte first on a little-endian machine, last on a big-endian one.
pub open spec fn native_bytes(words: Seq<u32>) -> Seq<u8> {
    Seq::new(
        4 * words.len(),
        |j: int|
            word_byte(
                words[j / 4],
                if native_is_little_endian() {
                    j % 4
                } else {
                    3 - j % 4
                },
            ),
    )
}

proof fn lemma_word_from_bytes(w: u32)
    ensures
        w % 256 + 256 * ((w / 256) % 256 + 256 * ((w / 65536) % 256 + 256 * ((w / 16777216)
            % 256))) == w,
{
    assert(w % 256 + 256 * ((w / 256) % 256 + 256 * ((w / 65536) % 256 + 256 * ((w / 16777216)
        % 256))) == w) by (bit_vector);
}

/// Reading back the words the GPU wrote: when `mapped` holds the words
/// `words` as the machine stores them, every word read back in the machine's
/// byte order is the word that was written, and so a pixel that
/// `copy_tile_pixels` fills from `mapped` is that word's low byte.
pub proof fn lemma_read_back_native_words(words: Seq<u32>, pixels: Seq<u8>, len: int)
    requires
        forall|i: int|
            0 <= i < len && i < (native_bytes(words).len() + 3) / 4 ==> #[trigger] pixels[i]
                == native_word(native_bytes(words), i) % 256,
    ensures
        (native_bytes(words).len() + 3) / 4 == words.len(),
        forall|i: int| 0 <= i < words.len() ==> native_word(native_bytes(words), i) == words[i],
        forall|i: int| 0 <= i < len && i < words.len() ==> #[trigger] pixels[i] == words[i] % 256,
{
    let bytes = native_bytes(words);
    let n = words.len() as int;
    lemma_fundamental_div_mod_converse(4 * n + 3, 4, n, 3);
    assert forall|i: int| 0 <= i < n implies native_word(bytes, i) == words[i] by {
        let w = words[i];
        assert forall|k: int| 0 <= k < 4 implies #[trigger] bytes[4 * i + k] == word_byte(
            w,
            if native_is_little_endian() {
                k
            } else {
                3 - k
            },
        ) by {
            lemma_fundamental_div_mod_converse(4 * i + k, 4, i, k);
        }
        assert(bytes[4 * i + 0] == bytes[4 * i]);
        lemma_word_from_bytes(w);
    }
}

} // verus!
