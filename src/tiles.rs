use vstd::prelude::*;
use vstd::arithmetic::div_mod::{lemma_fundamental_div_mod, lemma_fundamental_div_mod_converse};

verus! {

/// A rectangle of pixels, the unit of parallel work.
#[derive(Debug, Copy, Clone, PartialEq, Eq, Structural)]
pub struct Block {
    pub x: u32,
    pub y: u32,
    pub width: u32,
    pub height: u32,
}

impl Block {
    /// Whether the pixel `(px, py)` lies inside this block.
    pub open spec fn contains(self, px: int, py: int) -> bool {
        &&& self.x <= px < self.x + self.width
        &&& self.y <= py < self.y + self.height
    }

    /// The columns covered by this block.
    pub fn x_range(self) -> (r: core::ops::Range<u32>)
        requires
            self.x + self.width <= u32::MAX,
        ensures
            r.start == self.x,
            r.end == self.x + self.width,
    {
        self.x..(self.x + self.width)
    }

    /// The rows covered by this block.
    pub fn y_range(self) -> (r: core::ops::Range<u32>)
        requires
            self.y + self.height <= u32::MAX,
        ensures
            r.start == self.y,
            r.end == self.y + self.height,
    {
        self.y..(self.y + self.height)
    }

    /// The pixels of this block in row-major order, the order in which a
    /// worker delivers them and `place_block` reads them.
    pub fn pixel_coords(self) -> (r: Vec<(u32, u32)>)
        requires
            self.x + self.width <= u32::MAX,
            self.y + self.height <= u32::MAX,
        ensures
            r@.len() == self.width * self.height,
            forall|dx: int, dy: int|
                0 <= dx < self.width && 0 <= dy < self.height ==> #[trigger] r@[dy * self.width + dx]
                    == ((self.x + dx) as u32, (self.y + dy) as u32),
    {
        let mut result: Vec<(u32, u32)> = Vec::new();
        let mut dy: u32 = 0;
        while dy < self.height
            invariant
                dy <= self.height,
                self.x + self.width <= u32::MAX,
                self.y + self.height <= u32::MAX,
                result@.len() == dy * self.width,
                forall|ex: int, ey: int|
                    0 <= ex < self.width && 0 <= ey < dy ==> #[trigger] result@[ey * self.width + ex]
                        == ((self.x + ex) as u32, (self.y + ey) as u32),
            decreases self.height - dy,
        {
            let mut dx: u32 = 0;
            while dx < self.width
                invariant
                    dy < self.height,
                    dx <= self.width,
                    self.x + self.width <= u32::MAX,
                    self.y + self.height <= u32::MAX,
                    result@.len() == dy * self.width + dx,
                    forall|ex: int, ey: int|
                        (0 <= ex < self.width && 0 <= ey < dy) || (0 <= ex < dx && ey == dy)
                            ==> #[trigger] result@[ey * self.width + ex] == ((self.x + ex) as u32, (
                        self.y + ey) as u32),
                decreases self.width - dx,
            {
                let ghost before = result@;
                result.push((self.x + dx, self.y + dy));
                proof {
                    assert forall|ex: int, ey: int|
                        (0 <= ex < self.width && 0 <= ey < dy) || (0 <= ex < dx + 1 && ey == dy)
                            implies #[trigger] result@[ey * self.width + ex] == ((self.x + ex) as u32, (
                        self.y + ey) as u32) by {
                        if ey < dy {
                            assert(ey * self.width + ex < dy * self.width) by (nonlinear_arith)
                                requires 0 <= ex < self.width, 0 <= ey < dy;
                            assert(result@[ey * self.width + ex] == before[ey * self.width + ex]);
                        } else if ex < dx {
                            assert(result@[ey * self.width + ex] == before[ey * self.width + ex]);
                        }
                    }
                }
                dx = dx + 1;
            }
            proof {
                assert(dy * self.width + self.width == (dy + 1) * self.width) by (nonlinear_arith);
            }
            dy = dy + 1;
        }
        proof {
            assert(dy * self.width == self.width * self.height) by (nonlinear_arith)
                requires dy == self.height;
        }
        result
    }
}

/// Side length of a full tile.
pub const BLOCK_SIZE: u32 = 16;

/// Number of tiles of `BLOCK_SIZE` (16) pixels needed to cover `len` pixels
/// along one axis.
pub open spec fn tiles_along(len: int) -> int {
    (len + 15) / 16
}

/// The tile in column `bx` and row `by` of the tiling of a `width` by
/// `height` image: full size, except at the right and bottom edges.
pub open spec fn tile(width: int, height: int, bx: int, by: int) -> Block {
    Block {
        x: (16 * bx) as u32,
        y: (16 * by) as u32,
        width: (if width - 16 * bx < 16 { width - 16 * bx } else { 16 }) as u32,
        height: (if height - 16 * by < 16 { height - 16 * by } else { 16 }) as u32,
    }
}

/// All tiles of a `width` by `height` image, column of tiles after column of
/// tiles, top to bottom within a column.
pub open spec fn tiling(width: int, height: int) -> Seq<Block> {
    let ny = tiles_along(height);
    Seq::new(
        (tiles_along(width) * ny) as nat,
        |k: int| tile(width, height, k / ny, k % ny),
    )
}

/// Splits a `width` by `height` image into tiles of at most `BLOCK_SIZE`
/// pixels on each side.
pub fn split_into_blocks(width: u32, height: u32) -> (r: Vec<Block>)
    ensures
        r@ == tiling(width as int, height as int),
{
    let ghost ny = tiles_along(height as int);
    let ghost nx = tiles_along(width as int);
    let mut result: Vec<Block> = Vec::new();
    let mut x: u64 = 0;
    let ghost mut bx: int = 0;
    while x < width as u64
        invariant
            x == 16 * bx,
            0 <= bx <= nx,
            x < width ==> bx < nx,
            x >= width ==> bx == nx,
            ny == tiles_along(height as int),
            nx == tiles_along(width as int),
            result@.len() == bx * ny,
            forall|k: int| 0 <= k < result@.len() ==> result@[k] == tile(width as int, height as int, k / ny, k % ny),
        decreases nx - bx,
    {
        let mut y: u64 = 0;
        let ghost mut by: int = 0;
        while y < height as u64
            invariant
                x == 16 * bx,
                x < width,
                0 <= bx < nx,
                y == 16 * by,
                0 <= by <= ny,
                y < height ==> by < ny,
                y >= height ==> by == ny,
                ny == tiles_along(height as int),
                nx == tiles_along(width as int),
                result@.len() == bx * ny + by,
                forall|k: int| 0 <= k < result@.len() ==> result@[k] == tile(width as int, height as int, k / ny, k % ny),
            decreases ny - by,
        {
            let size: u64 = BLOCK_SIZE as u64;
            let w: u64 = if width as u64 - x < size { width as u64 - x } else { size };
            let h: u64 = if height as u64 - y < size { height as u64 - y } else { size };
            let b = Block { x: x as u32, y: y as u32, width: w as u32, height: h as u32 };
            proof {
                lemma_fundamental_div_mod_converse(bx * ny + by, ny, bx, by);
            }
            result.push(b);
            y = y + BLOCK_SIZE as u64;
            proof {
                by = by + 1;
            }
        }
        x = x + BLOCK_SIZE as u64;
        proof {
            assert(bx * ny + ny == (bx + 1) * ny) by (nonlinear_arith);
            bx = bx + 1;
        }
    }
    proof {
        assert(result@ =~= tiling(width as int, height as int));
    }
    result
}


/// Every tile is non-empty and lies inside the image.
pub proof fn lemma_tiles_inside_image(width: u32, height: u32, k: int)
    requires
        0 <= k < tiling(width as int, height as int).len(),
    ensures
        ({
            let b = tiling(width as int, height as int)[k];
            &&& 1 <= b.width <= BLOCK_SIZE
            &&& 1 <= b.height <= BLOCK_SIZE
            &&& b.x + b.width <= width
            &&& b.y + b.height <= height
        }),
{
    let ny = tiles_along(height as int);
    let nx = tiles_along(width as int);
    assert(ny > 0) by (nonlinear_arith)
        requires 0 <= k < nx * ny, nx >= 0;
    let bx = k / ny;
    let by = k % ny;
    assert(bx < nx) by (nonlinear_arith)
        requires 0 <= k < nx * ny, ny > 0, bx == k / ny;
    assert(0 <= by < ny);
}

/// Every pixel of the image lies in exactly one tile.
pub proof fn lemma_tiling_covers_each_pixel_once(width: u32, height: u32, px: int, py: int)
    requires
        0 <= px < width,
        0 <= py < height,
    ensures
        ({
            let t = tiling(width as int, height as int);
            &&& exists|k: int| 0 <= k < t.len() && (#[trigger] t[k]).contains(px, py)
            &&& forall|k1: int, k2: int|
                0 <= k1 < t.len() && 0 <= k2 < t.len() && (#[trigger] t[k1]).contains(px, py)
                    && (#[trigger] t[k2]).contains(px, py) ==> k1 == k2
        }),
{
    let t = tiling(width as int, height as int);
    let ny = tiles_along(height as int);
    let nx = tiles_along(width as int);
    let bx = px / 16;
    let by = py / 16;
    let k = bx * ny + by;
    assert(0 <= by < ny);
    assert(0 <= bx < nx);
    assert(0 <= k < nx * ny) by (nonlinear_arith)
        requires 0 <= bx < nx, 0 <= by < ny, k == bx * ny + by;
    lemma_fundamental_div_mod_converse(k, ny, bx, by);
    assert(t[k].contains(px, py));
    assert forall|k1: int, k2: int|
        0 <= k1 < t.len() && 0 <= k2 < t.len() && (#[trigger] t[k1]).contains(px, py)
            && (#[trigger] t[k2]).contains(px, py) implies k1 == k2 by {
        lemma_tile_index_of_pixel(width, height, k1, px, py);
        lemma_tile_index_of_pixel(width, height, k2, px, py);
    }
}

/// A tile that holds a pixel is the one in the pixel's tile column and row.
proof fn lemma_tile_index_of_pixel(width: u32, height: u32, k: int, px: int, py: int)
    requires
        0 <= k < tiling(width as int, height as int).len(),
        tiling(width as int, height as int)[k].contains(px, py),
    ensures
        k == (px / 16) * tiles_along(height as int) + py / 16,
{
    let ny = tiles_along(height as int);
    let nx = tiles_along(width as int);
    lemma_tiles_inside_image(width, height, k);
    assert(ny > 0) by (nonlinear_arith)
        requires 0 <= k < nx * ny, nx >= 0;
    let bx = k / ny;
    let by = k % ny;
    assert(bx < nx) by (nonlinear_arith)
        requires 0 <= k < nx * ny, ny > 0, bx == k / ny;
    assert(bx == px / 16);
    assert(by == py / 16);
    lemma_fundamental_div_mod(k, ny);
    assert(k == bx * ny + by) by (nonlinear_arith)
        requires k == ny * (k / ny) + k % ny, bx == k / ny, by == k % ny;
}


/// Row-major position of pixel `(px, py)` in an image `image_width` wide.
pub open spec fn pixel_index(image_width: int, px: int, py: int) -> int {
    py * image_width + px
}

/// Row-major position, inside `block`, of the image element at `i`.
pub open spec fn offset_in_block(block: Block, image_width: int, i: int) -> int {
    (i / image_width - block.y) * block.width + (i % image_width - block.x)
}

/// Whether the image element at `i` of an image `image_width` wide lies in `block`.
pub open spec fn index_in_block(block: Block, image_width: int, i: int) -> bool {
    image_width > 0 && block.contains(i % image_width, i / image_width)
}

/// Two pixels of a block with the same row-major offset are the same pixel.
proof fn lemma_offset_determines_index(block: Block, image_width: int, i: int, dx: int, dy: int)
    requires
        image_width > 0,
        0 <= i,
        index_in_block(block, image_width, i),
        0 <= dx < block.width,
        0 <= dy,
        offset_in_block(block, image_width, i) == dy * block.width + dx,
    ensures
        i == pixel_index(image_width, block.x + dx, block.y + dy),
{
    let qx = i % image_width - block.x;
    let qy = i / image_width - block.y;
    lemma_fundamental_div_mod_converse(qy * block.width + qx, block.width as int, qy, qx);
    lemma_fundamental_div_mod_converse(dy * block.width + dx, block.width as int, dy, dx);
    assert(qy == dy && qx == dx);
    lemma_fundamental_div_mod(i, image_width);
    assert(i == (i / image_width) * image_width + i % image_width) by (nonlinear_arith)
        requires i == image_width * (i / image_width) + i % image_width;
}

/// Copies the row-major `pixels` of `block` into their places in `target`, a
/// row-major image `image_width` wide; the rest of `target` is left as it was.
pub fn place_block<T: Copy>(target: &mut Vec<T>, image_width: u32, block: Block, pixels: &Vec<T>)
    requires
        block.x + block.width <= image_width,
        (block.y + block.height) * image_width <= old(target)@.len(),
        pixels@.len() == block.width * block.height,
    ensures
        final(target)@.len() == old(target)@.len(),
        forall|dx: int, dy: int|
            0 <= dx < block.width && 0 <= dy < block.height ==> final(target)@[#[trigger] pixel_index(
                image_width as int,
                block.x + dx,
                block.y + dy,
            )] == pixels@[dy * block.width + dx],
        forall|i: int|
            0 <= i < old(target)@.len() && !index_in_block(block, image_width as int, i)
                ==> final(target)@[i] == old(target)@[i],
{
    let ghost w = image_width as int;
    let ghost bw = block.width as int;
    let ghost original = target@;
    let mut dy: u32 = 0;
    while dy < block.height
        invariant
            0 <= dy <= block.height,
            target@.len() == original.len(),
            block.x + block.width <= image_width,
            (block.y + block.height) * image_width <= original.len(),
            pixels@.len() == block.width * block.height,
            w == image_width,
            bw == block.width,
            forall|i: int|
                0 <= i < original.len() ==> #[trigger] target@[i] == if index_in_block(block, w, i)
                    && offset_in_block(block, w, i) < dy * bw {
                    pixels@[offset_in_block(block, w, i)]
                } else {
                    original[i]
                },
        decreases block.height - dy,
    {
        let mut dx: u32 = 0;
        while dx < block.width
            invariant
                0 <= dy < block.height,
                0 <= dx <= block.width,
                target@.len() == original.len(),
                block.x + block.width <= image_width,
                (block.y + block.height) * image_width <= original.len(),
                pixels@.len() == block.width * block.height,
                w == image_width,
                bw == block.width,
                forall|i: int|
                    0 <= i < original.len() ==> #[trigger] target@[i] == if index_in_block(block, w, i)
                        && offset_in_block(block, w, i) < dy * bw + dx {
                        pixels@[offset_in_block(block, w, i)]
                    } else {
                        original[i]
                    },
            decreases block.width - dx,
        {
            let n: usize = target.len();
            let pn: usize = pixels.len();
            let ghost gi = pixel_index(w, block.x + dx, block.y + dy);
            let ghost pos = dy * bw + dx;
            proof {
                assert((block.y + dy + 1) * w <= (block.y + block.height) * w) by (nonlinear_arith)
                    requires dy < block.height, w >= 0;
                assert(gi < (block.y + dy + 1) * w) by (nonlinear_arith)
                    requires gi == (block.y + dy) * w + block.x + dx, block.x + dx < w;
                assert(pos < bw * block.height) by (nonlinear_arith)
                    requires pos == dy * bw + dx, dx < bw, dy < block.height;
                lemma_fundamental_div_mod_converse(gi, w, block.y + dy, block.x + dx);
                assert(offset_in_block(block, w, gi) == pos);
                assert((block.y + dy) * w <= gi);
                assert(block.y + dy <= (block.y + dy) * w) by (nonlinear_arith)
                    requires w >= 1, block.y + dy >= 0;
            }
            let row: usize = (block.y as usize + dy as usize) * image_width as usize;
            let index: usize = row + (block.x + dx) as usize;
            let offset: usize = dy as usize * block.width as usize + dx as usize;
            target.set(index, pixels[offset]);
            proof {
                assert forall|i: int| 0 <= i < original.len() implies #[trigger] target@[i] == if index_in_block(block, w, i)
                    && offset_in_block(block, w, i) < pos + 1 {
                    pixels@[offset_in_block(block, w, i)]
                } else {
                    original[i]
                } by {
                    if i != gi && index_in_block(block, w, i) && offset_in_block(block, w, i) == pos {
                        lemma_offset_determines_index(block, w, i, dx as int, dy as int);
                    }
                }
            }
            dx = dx + 1;
        }
        proof {
            assert(dy * bw + bw == (dy + 1) * bw) by (nonlinear_arith);
        }
        dy = dy + 1;
    }
    proof {
        assert forall|dx: int, dy: int|
            0 <= dx < block.width && 0 <= dy < block.height implies target@[#[trigger] pixel_index(w, block.x + dx, block.y + dy)]
                == pixels@[dy * block.width + dx] by {
            let gi = pixel_index(w, block.x + dx, block.y + dy);
            assert((block.y + dy + 1) * w <= (block.y + block.height) * w) by (nonlinear_arith)
                requires dy < block.height, w >= 0;
            assert(gi < (block.y + dy + 1) * w) by (nonlinear_arith)
                requires gi == (block.y + dy) * w + block.x + dx, block.x + dx < w;
            assert(dy * bw + dx < block.height * bw) by (nonlinear_arith)
                requires 0 <= dx < bw, 0 <= dy < block.height;
            lemma_fundamental_div_mod_converse(gi, w, block.y + dy, block.x + dx);
        }
    }
}


#[verifier::external_type_specification]
#[verifier::external_body]
pub struct ExThreadRng(rand::rngs::ThreadRng);

/// Relies on rand's `SliceRandom::shuffle`, which reorders the slice only by
/// swapping elements: the same blocks come back, in some order.
#[verifier::external_body]
fn shuffle_blocks(blocks: &mut Vec<Block>, rng: &mut rand::rngs::ThreadRng)
    ensures
        final(blocks)@.to_multiset() == old(blocks)@.to_multiset(),
{
    rand::seq::SliceRandom::shuffle(blocks.as_mut_slice(), rng);
}

/// The tiles of a `width` by `height` image in a random order, so that the
/// image fills in evenly while it is rendered.
pub fn shuffled_blocks(width: u32, height: u32, rng: &mut rand::rngs::ThreadRng) -> (r: Vec<Block>)
    ensures
        r@.len() == tiling(width as int, height as int).len(),
        r@.to_multiset() == tiling(width as int, height as int).to_multiset(),
{
    let mut blocks = split_into_blocks(width, height);
    shuffle_blocks(&mut blocks, rng);
    proof {
        blocks@.to_multiset_ensures();
        tiling(width as int, height as int).to_multiset_ensures();
    }
    blocks
}

} // verus!
