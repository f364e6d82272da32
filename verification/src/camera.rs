//! The pixels that a camera sends its rays through.

use vstd::prelude::*;
use vstd::arithmetic::div_mod::lemma_fundamental_div_mod_converse;

verus! {

/// The `k`-th pixel of an image `height` pixels high, counted column by
/// column from the top left.
pub open spec fn pixel_at(height: int, k: int) -> (usize, usize) {
    ((k / height) as usize, (k % height) as usize)
}

/// The count of a pixel of an image lies within the image.
pub proof fn lemma_pixel_count_in_image(width: int, height: int, x: int, y: int)
    requires
        0 <= x < width,
        0 <= y < height,
    ensures
        0 <= x * height + y < width * height,
{
    assert(0 <= x * height && x * height + height <= width * height) by (nonlinear_arith)
        requires
            0 <= x < width,
            0 < height,
    ;
}

/// Pixel `(x, y)` of an image is the one counted at `x * height + y`, and
/// at no other count: every pixel is met exactly once.
pub proof fn lemma_pixel_counted_once(width: int, height: int, x: int, y: int, k: int)
    requires
        0 <= x < width <= usize::MAX,
        0 <= y < height <= usize::MAX,
        0 <= k < width * height,
    ensures
        pixel_at(height, k) == (x as usize, y as usize) <==> k == x * height + y,
{
    lemma_pixel_count_in_image(width, height, x, y);
    lemma_fundamental_div_mod_converse(x * height + y, height, x, y);
    if pixel_at(height, k) == (x as usize, y as usize) {
        assert(0 <= k / height < width && 0 <= k % height < height) by (nonlinear_arith)
            requires
                0 <= k < width * height,
                0 < height,
        ;
        assert(k == height * (k / height) + k % height) by (nonlinear_arith)
            requires
                0 < height,
        ;
        assert(height * x == x * height) by (nonlinear_arith);
    }
}

/// The pixels of an image of `width` by `height`, each once: column by
/// column from the left, and from the top down within a column.
pub fn pixels(width: usize, height: usize) -> (grid: Vec<(usize, usize)>)
    requires
        width * height <= usize::MAX,
    ensures
        grid@.len() == width * height,
        forall|k: int| 0 <= k < grid@.len() ==> #[trigger] grid@[k] == pixel_at(height as int, k),
{
    let mut grid: Vec<(usize, usize)> = Vec::new();
    let mut x: usize = 0;
    while x < width
        invariant
            x <= width,
            width * height <= usize::MAX,
            grid@.len() == x * height,
            forall|k: int| 0 <= k < grid@.len() ==> #[trigger] grid@[k] == pixel_at(height as int, k),
        decreases width - x,
    {
        let mut y: usize = 0;
        while y < height
            invariant
                y <= height,
                x < width,
                grid@.len() == x * height + y,
                forall|k: int|
                    0 <= k < grid@.len() ==> #[trigger] grid@[k] == pixel_at(height as int, k),
            decreases height - y,
        {
            proof {
                lemma_fundamental_div_mod_converse(x * height + y, height as int, x as int, y as int);
            }
            grid.push((x, y));
            y = y + 1;
        }
        assert((x + 1) * height == x * height + height) by (nonlinear_arith);
        x = x + 1;
    }
    grid
}

} // verus!
