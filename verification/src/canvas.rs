//! The framebuffer: a dense, row-major grid of colours.

use vstd::prelude::*;
use vstd::arithmetic::div_mod::lemma_fundamental_div_mod_converse;
use crate::color::Color;
use crate::math::{isqrt, sqrt_floor, lemma_sqrt_floor_monotonic, lemma_sqrt_floor_of_square};

verus! {

/// The place of pixel `(x, y)` in a row-major grid `width` pixels wide.
pub open spec fn offset(width: int, x: int, y: int) -> int {
    y * width + x
}

/// A point of a grid has its place inside the grid.
pub proof fn lemma_offset_in_grid(width: int, height: int, x: int, y: int)
    requires
        0 <= x < width,
        0 <= y < height,
    ensures
        0 <= offset(width, x, y) < width * height,
{
    assert(0 <= y * width && y * width + width <= height * width == width * height)
        by (nonlinear_arith)
        requires
            0 <= y < height,
            0 < width,
    ;
}

/// One of the three channels of a colour.
pub enum Channel {
    Red,
    Green,
    Blue,
}

/// The value of one channel of a colour.
pub open spec fn channel(color: Color, which: Channel) -> int {
    match which {
        Channel::Red => color.r as int,
        Channel::Green => color.g as int,
        Channel::Blue => color.b as int,
    }
}

/// The sum of the squares of one channel over the `count` pixels that
/// start at place `start`.
pub open spec fn run_square_sum(pixels: Seq<Color>, start: int, count: nat, which: Channel) -> int
    decreases count,
{
    if count == 0 {
        0
    } else {
        let last = channel(pixels[start + count - 1], which);
        run_square_sum(pixels, start, (count - 1) as nat, which) + last * last
    }
}

/// The sum of the squares of one channel over a block of `rows` rows
/// of `cols` pixels each, whose first pixel is `(x0, y0)`.
pub open spec fn block_square_sum(
    pixels: Seq<Color>,
    width: int,
    x0: int,
    y0: int,
    cols: nat,
    rows: nat,
    which: Channel,
) -> int
    decreases rows,
{
    if rows == 0 {
        0
    } else {
        block_square_sum(pixels, width, x0, y0, cols, (rows - 1) as nat, which) + run_square_sum(
            pixels,
            offset(width, x0, y0 + rows - 1),
            cols,
            which,
        )
    }
}

/// The quadratic mean of `count` values whose squares sum to
/// `square_sum`: the root of the average square, both rounded down.
pub open spec fn quadratic_mean(square_sum: int, count: int) -> nat
    recommends
        square_sum >= 0,
        count > 0,
{
    sqrt_floor((square_sum / count) as nat)
}

/// The quadratic mean of one channel over the block of `factor` by
/// `factor` pixels that shrinks to the pixel `(x, y)`.
pub open spec fn block_mean_channel(
    pixels: Seq<Color>,
    width: int,
    factor: nat,
    x: int,
    y: int,
    which: Channel,
) -> nat {
    quadratic_mean(
        block_square_sum(pixels, width, x * factor, y * factor, factor, factor, which),
        (factor * factor) as int,
    )
}

/// The colour of pixel `(x, y)` after shrinking by `factor`: channel by
/// channel the quadratic mean of its block.
pub open spec fn block_mean(pixels: Seq<Color>, width: int, factor: nat, x: int, y: int) -> Color {
    Color {
        r: block_mean_channel(pixels, width, factor, x, y, Channel::Red) as u8,
        g: block_mean_channel(pixels, width, factor, x, y, Channel::Green) as u8,
        b: block_mean_channel(pixels, width, factor, x, y, Channel::Blue) as u8,
    }
}

/// A square of a channel is at most 255 * 255.
proof fn lemma_channel_square_bound(color: Color, which: Channel)
    ensures
        0 <= channel(color, which) * channel(color, which) <= 65025,
{
    let c = channel(color, which);
    assert(0 <= c * c <= 65025) by (nonlinear_arith)
        requires
            0 <= c <= 255,
    ;
}

/// A run of `count` pixels sums to at most `count` full squares.
proof fn lemma_run_square_sum_bound(pixels: Seq<Color>, start: int, count: nat, which: Channel)
    ensures
        0 <= run_square_sum(pixels, start, count, which) <= 65025 * count,
    decreases count,
{
    if count > 0 {
        lemma_run_square_sum_bound(pixels, start, (count - 1) as nat, which);
        lemma_channel_square_bound(pixels[start + count - 1], which);
    }
}

/// A block of `rows` by `cols` pixels sums to at most that many full
/// squares.
proof fn lemma_block_square_sum_bound(
    pixels: Seq<Color>,
    width: int,
    x0: int,
    y0: int,
    cols: nat,
    rows: nat,
    which: Channel,
)
    ensures
        0 <= block_square_sum(pixels, width, x0, y0, cols, rows, which) <= 65025 * (cols * rows),
    decreases rows,
{
    if rows > 0 {
        lemma_block_square_sum_bound(pixels, width, x0, y0, cols, (rows - 1) as nat, which);
        lemma_run_square_sum_bound(pixels, offset(width, x0, y0 + rows - 1), cols, which);
        assert(cols * rows == cols * (rows - 1) + cols) by (nonlinear_arith);
    }
}

/// The quadratic mean of channel values is a channel value.
pub proof fn lemma_quadratic_mean_bound(square_sum: int, count: int)
    requires
        count > 0,
        0 <= square_sum <= 65025 * count,
    ensures
        0 <= square_sum / count <= 65025,
        quadratic_mean(square_sum, count) <= 255,
{
    assert(0 <= square_sum / count <= 65025) by (nonlinear_arith)
        requires
            count > 0,
            0 <= square_sum <= 65025 * count,
    ;
    lemma_sqrt_floor_of_square(255);
    lemma_sqrt_floor_monotonic((square_sum / count) as nat, 65025);
}

/// The `i`-th pixel of block number `o` along one axis lies inside
/// that axis.
proof fn lemma_block_inside(length: int, factor: int, o: int, i: int)
    requires
        factor > 0,
        0 <= o < length / factor,
        0 <= i < factor,
    ensures
        0 <= o * factor + i < length,
        factor <= length,
{
    assert(o * factor + factor <= (length / factor) * factor <= length && 0 <= o * factor)
        by (nonlinear_arith)
        requires
            factor > 0,
            0 <= o < length / factor,
    ;
}

/// A run of pixels that all have the same colour sums to that many
/// times the square of its channel.
proof fn lemma_uniform_run(pixels: Seq<Color>, start: int, count: nat, which: Channel, color: Color)
    requires
        forall|i: int| start <= i < start + count ==> #[trigger] pixels[i] == color,
    ensures
        run_square_sum(pixels, start, count, which) == count * (channel(color, which) * channel(
            color,
            which,
        )),
    decreases count,
{
    let square = channel(color, which) * channel(color, which);
    if count > 0 {
        lemma_uniform_run(pixels, start, (count - 1) as nat, which, color);
        assert(pixels[start + count - 1] == color);
        assert(count * square == (count - 1) * square + square) by (nonlinear_arith);
    } else {
        assert(0 * square == 0) by (nonlinear_arith);
    }
}

/// A block of one colour shrinks to that colour: the quadratic mean of
/// equal values is the value.
pub proof fn lemma_uniform_block_mean(
    pixels: Seq<Color>,
    width: int,
    factor: nat,
    x: int,
    y: int,
    color: Color,
)
    requires
        factor > 0,
        forall|column: int, row: int|
            x * factor <= column < x * factor + factor && y * factor <= row < y * factor + factor
                ==> pixels[#[trigger] offset(width, column, row)] == color,
    ensures
        block_mean(pixels, width, factor, x, y) == color,
{
    lemma_uniform_block_mean_channel(pixels, width, factor, x, y, Channel::Red, color);
    lemma_uniform_block_mean_channel(pixels, width, factor, x, y, Channel::Green, color);
    lemma_uniform_block_mean_channel(pixels, width, factor, x, y, Channel::Blue, color);
}

/// One channel of a block of one colour has that colour's channel as
/// its quadratic mean.
proof fn lemma_uniform_block_mean_channel(
    pixels: Seq<Color>,
    width: int,
    factor: nat,
    x: int,
    y: int,
    which: Channel,
    color: Color,
)
    requires
        factor > 0,
        forall|column: int, row: int|
            x * factor <= column < x * factor + factor && y * factor <= row < y * factor + factor
                ==> pixels[#[trigger] offset(width, column, row)] == color,
    ensures
        block_mean_channel(pixels, width, factor, x, y, which) == channel(color, which),
{
    let square = channel(color, which) * channel(color, which);
    lemma_uniform_rows(pixels, width, factor, x, y, factor, which, color);
    assert((factor * square) * factor == square * (factor * factor)) by (nonlinear_arith);
    assert((square * (factor * factor)) / ((factor * factor) as int) == square)
        by (nonlinear_arith)
        requires
            factor > 0,
    ;
    lemma_sqrt_floor_of_square(channel(color, which) as nat);
}

/// The first `rows` rows of a block of one colour sum to `rows` times
/// the sum of one row.
proof fn lemma_uniform_rows(
    pixels: Seq<Color>,
    width: int,
    factor: nat,
    x: int,
    y: int,
    rows: nat,
    which: Channel,
    color: Color,
)
    requires
        rows <= factor,
        forall|column: int, row: int|
            x * factor <= column < x * factor + factor && y * factor <= row < y * factor + factor
                ==> pixels[#[trigger] offset(width, column, row)] == color,
    ensures
        block_square_sum(pixels, width, x * factor, y * factor, factor, rows, which) == (factor * (
        channel(color, which) * channel(color, which))) * rows,
    decreases rows,
{
    let square = channel(color, which) * channel(color, which);
    if rows > 0 {
        lemma_uniform_rows(pixels, width, factor, x, y, (rows - 1) as nat, which, color);
        let row = y * factor + rows - 1;
        let start = offset(width, x * factor, row);
        assert forall|i: int| start <= i < start + factor implies #[trigger] pixels[i] == color by {
            let column = x * factor + (i - start);
            assert(offset(width, column, row) == i);
        }
        lemma_uniform_run(pixels, start, factor, which, color);
        assert((factor * square) * rows == (factor * square) * (rows - 1) + factor * square)
            by (nonlinear_arith);
    } else {
        assert((factor * square) * 0 == 0) by (nonlinear_arith);
    }
}

/// Shrinking by one changes no pixel.
pub proof fn lemma_block_mean_of_one(pixels: Seq<Color>, width: int, x: int, y: int)
    ensures
        block_mean(pixels, width, 1, x, y) == pixels[offset(width, x, y)],
{
    let color = pixels[offset(width, x, y)];
    assert forall|column: int, row: int|
        x * 1 <= column < x * 1 + 1 && y * 1 <= row < y * 1 + 1 implies pixels[#[trigger] offset(
        width,
        column,
        row,
    )] == color by {}
    lemma_uniform_block_mean(pixels, width, 1, x, y, color);
}

/// Two pixels of a row-major grid that share their place are one
/// pixel.
pub proof fn lemma_offset_injective(width: int, x: int, y: int, other_x: int, other_y: int)
    requires
        0 <= x < width,
        0 <= other_x < width,
        offset(width, x, y) == offset(width, other_x, other_y),
    ensures
        x == other_x,
        y == other_y,
{
    lemma_fundamental_div_mod_converse(offset(width, x, y), width, y, x);
    lemma_fundamental_div_mod_converse(offset(width, other_x, other_y), width, other_y, other_x);
}

/// The pixels after the points have been painted on them in order: each
/// point `(x, y, colour)` sets the pixel at its place, and one whose
/// place lies past the end sets nothing.
pub open spec fn painted(pixels: Seq<Color>, width: int, points: Seq<(usize, usize, Color)>) -> Seq<
    Color,
>
    decreases points.len(),
{
    if points.len() == 0 {
        pixels
    } else {
        let before = painted(pixels, width, points.drop_last());
        let place = offset(width, points.last().0 as int, points.last().1 as int);
        if 0 <= place < before.len() {
            before.update(place, points.last().2)
        } else {
            before
        }
    }
}

/// Painting changes no sizes.
pub proof fn lemma_painted_len(pixels: Seq<Color>, width: int, points: Seq<(usize, usize, Color)>)
    ensures
        painted(pixels, width, points).len() == pixels.len(),
    decreases points.len(),
{
    if points.len() > 0 {
        lemma_painted_len(pixels, width, points.drop_last());
    }
}

/// A pixel that no point names keeps its colour.
pub proof fn lemma_painted_untouched(
    pixels: Seq<Color>,
    width: int,
    points: Seq<(usize, usize, Color)>,
    place: int,
)
    requires
        0 <= place < pixels.len(),
        forall|k: int|
            0 <= k < points.len() ==> offset(width, (#[trigger] points[k]).0 as int, points[k].1 as int)
                != place,
    ensures
        painted(pixels, width, points)[place] == pixels[place],
    decreases points.len(),
{
    if points.len() > 0 {
        let earlier = points.drop_last();
        assert forall|k: int| 0 <= k < earlier.len() implies offset(
            width,
            (#[trigger] earlier[k]).0 as int,
            earlier[k].1 as int,
        ) != place by {
            assert(earlier[k] == points[k]);
        }
        lemma_painted_untouched(pixels, width, earlier, place);
        lemma_painted_len(pixels, width, earlier);
    }
}

/// A pixel has the colour of the last point that names it.
pub proof fn lemma_painted_last_wins(
    pixels: Seq<Color>,
    width: int,
    points: Seq<(usize, usize, Color)>,
    last: int,
)
    requires
        0 <= last < points.len(),
        0 <= offset(width, points[last].0 as int, points[last].1 as int) < pixels.len(),
        forall|k: int|
            last < k < points.len() ==> offset(width, (#[trigger] points[k]).0 as int, points[k].1 as int)
                != offset(width, points[last].0 as int, points[last].1 as int),
    ensures
        painted(pixels, width, points)[offset(width, points[last].0 as int, points[last].1 as int)]
            == points[last].2,
    decreases points.len(),
{
    let earlier = points.drop_last();
    lemma_painted_len(pixels, width, earlier);
    if last < points.len() - 1 {
        assert(earlier[last] == points[last]);
        assert forall|k: int| last < k < earlier.len() implies offset(
            width,
            (#[trigger] earlier[k]).0 as int,
            earlier[k].1 as int,
        ) != offset(width, earlier[last].0 as int, earlier[last].1 as int) by {
            assert(earlier[k] == points[k]);
        }
        lemma_painted_last_wins(pixels, width, earlier, last);
        assert(points.last() == points[points.len() - 1]);
    }
}

/// The bytes of an image with eight bits for each of red, green and
/// blue: three bytes for every pixel, in the order of the pixels.
pub open spec fn rgb_bytes_of(pixels: Seq<Color>) -> Seq<u8> {
    Seq::new(
        3 * pixels.len(),
        |i: int|
            if i % 3 == 0 {
                pixels[i / 3].r
            } else if i % 3 == 1 {
                pixels[i / 3].g
            } else {
                pixels[i / 3].b
            },
    )
}

/// The bytes of the PNG file that the `png` crate writes for an image
/// of `width` by `height` pixels with eight bits for each of red, green
/// and blue, whose pixel bytes are `data`.
pub uninterp spec fn png_image(width: u32, height: u32, data: Seq<u8>) -> Seq<u8>;

/// What the `png` crate reports when it cannot encode an image.
#[verifier::external_type_specification]
#[verifier::external_body]
pub struct ExEncodingError(png::EncodingError);

/// Encodes an eight-bit RGB image with the `png` crate, into memory:
/// `Encoder::new` on a byte vector, `set_color(ColorType::Rgb)`,
/// `set_depth(BitDepth::Eight)`, `write_header` and
/// `Writer::write_image_data`; the writer ends the file when it is
/// dropped. The encoder refuses an image without pixels and pixel
/// data of another length than three bytes a pixel, so neither is
/// handed to it. With these arguments it succeeds: its other failures
/// are settings that are not made here and failed writes, and a write
/// into memory does not fail. What it writes depends on the arguments
/// alone, and is named `png_image`.
#[verifier::external_body]
fn encode_rgb(width: u32, height: u32, data: &Vec<u8>) -> (outcome: Result<
    Vec<u8>,
    png::EncodingError,
>)
    requires
        width > 0,
        height > 0,
        data@.len() == 3 * width * height,
    ensures
        outcome is Ok,
        outcome matches Ok(bytes) ==> bytes@ == png_image(width, height, data@),
{
    let mut bytes: Vec<u8> = Vec::new();
    {
        let mut encoder = png::Encoder::new(&mut bytes, width, height);
        encoder.set_color(png::ColorType::Rgb);
        encoder.set_depth(png::BitDepth::Eight);
        let mut writer = encoder.write_header()?;
        writer.write_image_data(data.as_slice())?;
    }
    Ok(bytes)
}

/// Why a canvas could not be turned into a PNG file.
#[derive(Clone, Copy, Debug, PartialEq, Eq, Structural)]
pub enum PngError {
    /// The canvas has no pixels.
    Empty,
    /// A side of the canvas does not fit in the 32 bits that a PNG file
    /// has for it.
    TooLarge,
    /// The encoder gave up. It does not on what `Canvas::to_png` hands
    /// it.
    Encoder,
}

/// The PNG file of a canvas of `width` by `height` whose pixels are
/// `pixels`.
pub open spec fn png_of(width: usize, height: usize, pixels: Seq<Color>) -> Seq<u8> {
    png_image(width as u32, height as u32, rgb_bytes_of(pixels))
}

/// What comes of an encoding: the bytes that the encoder wrote, or the
/// fact that it gave up.
pub fn png_outcome(outcome: Result<Vec<u8>, png::EncodingError>) -> (file: Result<Vec<u8>, PngError>)
    ensures
        match outcome {
            Ok(bytes) => file matches Ok(written) && written@ == bytes@,
            Err(_) => file == Err::<Vec<u8>, PngError>(PngError::Encoder),
        },
{
    match outcome {
        Ok(bytes) => Ok(bytes),
        Err(_) => Err(PngError::Encoder),
    }
}

/// A framebuffer of `width * height` colours, kept row by row.
pub struct Canvas {
    width: usize,
    height: usize,
    pixels: Vec<Color>,
}

impl View for Canvas {
    type V = Seq<Color>;

    /// The pixels, row after row.
    closed spec fn view(&self) -> Seq<Color> {
        self.pixels@
    }
}

impl Canvas {
    #[verifier::type_invariant]
    spec fn sized(self) -> bool {
        self.pixels@.len() == self.width * self.height
    }

    /// The number of pixels in a row.
    pub closed spec fn spec_width(&self) -> usize {
        self.width
    }

    /// The number of rows.
    pub closed spec fn spec_height(&self) -> usize {
        self.height
    }

    /// The number of pixels in a row. Every canvas holds exactly
    /// `width * height` pixels.
    #[verifier::when_used_as_spec(spec_width)]
    pub fn width(&self) -> (w: usize)
        ensures
            w == self.width(),
            self@.len() == self.width() * self.height(),
    {
        proof {
            use_type_invariant(self);
        }
        self.width
    }

    /// The number of rows.
    #[verifier::when_used_as_spec(spec_height)]
    pub fn height(&self) -> (h: usize)
        ensures
            h == self.height(),
            self@.len() == self.width() * self.height(),
    {
        proof {
            use_type_invariant(self);
        }
        self.height
    }

    /// A canvas of the given size with every pixel set to `color`.
    pub fn new(width: usize, height: usize, color: Color) -> (canvas: Canvas)
        requires
            width * height <= usize::MAX,
        ensures
            canvas.width() == width,
            canvas.height() == height,
            canvas@ == Seq::new((width * height) as nat, |i: int| color),
    {
        let size: usize = width * height;
        let mut pixels: Vec<Color> = Vec::with_capacity(size);
        let mut filled: usize = 0;
        while filled < size
            invariant
                filled <= size,
                pixels@ == Seq::new(filled as nat, |i: int| color),
            decreases size - filled,
        {
            pixels.push(color);
            filled = filled + 1;
        }
        Canvas { width, height, pixels }
    }

    /// The pixel at `(x, y)`: the one at place `y * width + x`, where
    /// the canvas is that long. A column past the end of a row reaches
    /// into the rows below.
    pub fn get(&self, x: usize, y: usize) -> (pixel: Option<&Color>)
        ensures
            match pixel {
                Some(color) => offset(self.width() as int, x as int, y as int) < self@.len()
                    && *color == self@[offset(self.width() as int, x as int, y as int)],
                None => offset(self.width() as int, x as int, y as int) >= self@.len(),
            },
    {
        match self.index_of(x, y) {
            Some(place) => Some(&self.pixels[place]),
            None => None,
        }
    }

    /// The place of `(x, y)` among the pixels, where there is one.
    fn index_of(&self, x: usize, y: usize) -> (place: Option<usize>)
        ensures
            match place {
                Some(i) => i == offset(self.width as int, x as int, y as int) && i < self.pixels@.len(),
                None => offset(self.width as int, x as int, y as int) >= self.pixels@.len(),
            },
    {
        let len = self.pixels.len();
        match y.checked_mul(self.width) {
            Some(row) => match row.checked_add(x) {
                Some(place) => if place < len {
                    Some(place)
                } else {
                    None
                },
                None => None,
            },
            None => None,
        }
    }

    /// The pixel at `(x, y)` for writing, found as `get` finds it.
    /// Only that pixel can change.
    pub fn get_mut(&mut self, x: usize, y: usize) -> (pixel: Option<&mut Color>)
        ensures
            final(self).width() == old(self).width(),
            final(self).height() == old(self).height(),
            match pixel {
                Some(color) => offset(old(self).width() as int, x as int, y as int) < old(self)@.len()
                    && *color == old(self)@[offset(old(self).width() as int, x as int, y as int)]
                    && final(self)@ == old(self)@.update(
                    offset(old(self).width() as int, x as int, y as int),
                    *final(color),
                ),
                None => offset(old(self).width() as int, x as int, y as int) >= old(self)@.len()
                    && final(self)@ == old(self)@,
            },
    {
        proof {
            use_type_invariant(&*self);
        }
        match self.index_of(x, y) {
            Some(place) => Some(&mut self.pixels[place]),
            None => None,
        }
    }
    /// The quadratic mean of square sums gathered over `count` pixels.
    fn mean_of(square_sum: u128, count: u128) -> (mean: u8)
        requires
            count > 0,
            square_sum <= 65025 * count,
        ensures
            mean == quadratic_mean(square_sum as int, count as int),
    {
        proof {
            lemma_quadratic_mean_bound(square_sum as int, count as int);
        }
        let average: u64 = (square_sum / count) as u64;
        isqrt(average) as u8
    }

    /// The colour that the block of pixel `(x, y)` shrinks to.
    fn shrink_block(&self, factor: usize, x: usize, y: usize) -> (color: Color)
        requires
            factor > 0,
            x < self.width / factor,
            y < self.height / factor,
        ensures
            color == block_mean(self.pixels@, self.width as int, factor as nat, x as int, y as int),
    {
        proof {
            use_type_invariant(self);
            assert(self.pixels@.len() == self.pixels.len() <= usize::MAX);
            lemma_block_inside(self.width as int, factor as int, x as int, 0);
            lemma_block_inside(self.height as int, factor as int, y as int, 0);
            assert(0 < factor * factor <= self.width * self.height) by (nonlinear_arith)
                requires
                    0 < factor <= self.width,
                    factor <= self.height,
            ;
        }
        let x0: usize = x * factor;
        let y0: usize = y * factor;
        let ghost pixels = self.pixels@;
        let ghost width = self.width as int;
        let mut red: u128 = 0;
        let mut green: u128 = 0;
        let mut blue: u128 = 0;
        let mut row: usize = 0;
        while row < factor
            invariant
                row <= factor,
                factor > 0,
                0 < factor * factor <= usize::MAX,
                x < self.width / factor,
                y < self.height / factor,
                x0 == x * factor,
                y0 == y * factor,
                pixels == self.pixels@,
                width == self.width,
                pixels.len() == self.width * self.height <= usize::MAX,
                red == block_square_sum(pixels, width, x0 as int, y0 as int, factor as nat, row as nat, Channel::Red),
                green == block_square_sum(pixels, width, x0 as int, y0 as int, factor as nat, row as nat, Channel::Green),
                blue == block_square_sum(pixels, width, x0 as int, y0 as int, factor as nat, row as nat, Channel::Blue),
            decreases factor - row,
        {
            proof {
                lemma_block_inside(self.height as int, factor as int, y as int, row as int);
                lemma_block_inside(self.width as int, factor as int, x as int, factor - 1);
                lemma_offset_in_grid(width, self.height as int, x0 + factor - 1, y0 + row);
                assert(0 <= (y0 + row) * self.width) by (nonlinear_arith);
                lemma_block_square_sum_bound(pixels, width, x0 as int, y0 as int, factor as nat, row as nat, Channel::Red);
                lemma_block_square_sum_bound(pixels, width, x0 as int, y0 as int, factor as nat, row as nat, Channel::Green);
                lemma_block_square_sum_bound(pixels, width, x0 as int, y0 as int, factor as nat, row as nat, Channel::Blue);
                assert(factor * row + factor <= factor * factor) by (nonlinear_arith)
                    requires
                        row < factor,
                ;
            }
            let start: usize = (y0 + row) * self.width + x0;
            let ghost red_before = red;
            let ghost green_before = green;
            let ghost blue_before = blue;
            let mut col: usize = 0;
            while col < factor
                invariant
                    col <= factor,
                    row < factor,
                    factor * row + factor <= factor * factor <= usize::MAX,
                    x < self.width / factor,
                    x0 == x * factor,
                    pixels == self.pixels@,
                    width == self.width,
                    pixels.len() == self.width * self.height <= usize::MAX,
                    start == offset(width, x0 as int, y0 + row),
                    start + factor <= pixels.len(),
                    0 <= red_before <= 65025 * (factor * row),
                    0 <= green_before <= 65025 * (factor * row),
                    0 <= blue_before <= 65025 * (factor * row),
                    red == red_before + run_square_sum(pixels, start as int, col as nat, Channel::Red),
                    green == green_before + run_square_sum(pixels, start as int, col as nat, Channel::Green),
                    blue == blue_before + run_square_sum(pixels, start as int, col as nat, Channel::Blue),
                decreases factor - col,
            {
                let pixel = self.pixels[start + col];
                proof {
                    lemma_run_square_sum_bound(pixels, start as int, col as nat, Channel::Red);
                    lemma_run_square_sum_bound(pixels, start as int, col as nat, Channel::Green);
                    lemma_run_square_sum_bound(pixels, start as int, col as nat, Channel::Blue);
                    lemma_channel_square_bound(pixel, Channel::Red);
                    lemma_channel_square_bound(pixel, Channel::Green);
                    lemma_channel_square_bound(pixel, Channel::Blue);
                }
                red = red + (pixel.r as u128) * (pixel.r as u128);
                green = green + (pixel.g as u128) * (pixel.g as u128);
                blue = blue + (pixel.b as u128) * (pixel.b as u128);
                col = col + 1;
            }
            row = row + 1;
        }
        proof {
            lemma_block_square_sum_bound(pixels, width, x0 as int, y0 as int, factor as nat, factor as nat, Channel::Red);
            lemma_block_square_sum_bound(pixels, width, x0 as int, y0 as int, factor as nat, factor as nat, Channel::Green);
            lemma_block_square_sum_bound(pixels, width, x0 as int, y0 as int, factor as nat, factor as nat, Channel::Blue);
        }
        let count: u128 = (factor as u128) * (factor as u128);
        assert(65025 * (factor as nat * factor as nat) == 65025 * count);
        Color {
            r: Canvas::mean_of(red, count),
            g: Canvas::mean_of(green, count),
            b: Canvas::mean_of(blue, count),
        }
    }

    /// Shrinks the canvas by `factor` along both axes. Each pixel of
    /// the result is the quadratic mean, channel by channel, of the
    /// block of `factor` by `factor` pixels that it stands for; rows and
    /// columns that fill no whole block are left out.
    pub fn downsample(self, factor: usize) -> (small: Canvas)
        requires
            factor > 0,
        ensures
            small.width() == self.width() / factor,
            small.height() == self.height() / factor,
            small@.len() == small.width() * small.height(),
            forall|x: int, y: int|
                0 <= x < small.width() && 0 <= y < small.height() ==> small@[#[trigger] offset(
                    small.width() as int,
                    x,
                    y,
                )] == block_mean(self@, self.width() as int, factor as nat, x, y),
    {
        proof {
            use_type_invariant(&self);
            assert(self.pixels@.len() == self.pixels.len() <= usize::MAX);
        }
        let new_width: usize = self.width / factor;
        let new_height: usize = self.height / factor;
        assert(new_width * new_height <= self.width * self.height) by (nonlinear_arith)
            requires
                new_width <= self.width,
                new_height <= self.height,
        ;
        assert(new_height * new_width == new_width * new_height) by (nonlinear_arith);
        let mut pixels: Vec<Color> = Vec::new();
        let mut y: usize = 0;
        while y < new_height
            invariant
                y <= new_height,
                factor > 0,
                new_width == self.width / factor,
                new_height == self.height / factor,
                new_width * new_height <= usize::MAX,
                pixels@.len() == y * new_width,
                forall|i: int|
                    0 <= i < pixels@.len() ==> #[trigger] pixels@[i] == block_mean(
                        self.pixels@,
                        self.width as int,
                        factor as nat,
                        i % (new_width as int),
                        i / (new_width as int),
                    ),
            decreases new_height - y,
        {
            let mut x: usize = 0;
            while x < new_width
                invariant
                    x <= new_width,
                    y < new_height,
                    factor > 0,
                    new_width == self.width / factor,
                    new_height == self.height / factor,
                    new_width * new_height <= usize::MAX,
                    pixels@.len() == y * new_width + x,
                    forall|i: int|
                        0 <= i < pixels@.len() ==> #[trigger] pixels@[i] == block_mean(
                            self.pixels@,
                            self.width as int,
                            factor as nat,
                            i % (new_width as int),
                            i / (new_width as int),
                        ),
                decreases new_width - x,
            {
                let color = self.shrink_block(factor, x, y);
                proof {
                    lemma_fundamental_div_mod_converse(
                        y * new_width + x,
                        new_width as int,
                        y as int,
                        x as int,
                    );
                }
                pixels.push(color);
                x = x + 1;
            }
            assert((y + 1) * new_width == y * new_width + new_width) by (nonlinear_arith);
            y = y + 1;
        }
        let small = Canvas { width: new_width, height: new_height, pixels };
        proof {
            assert forall|x: int, y: int| 0 <= x < new_width && 0 <= y < new_height implies small.pixels@[#[trigger] offset(
                new_width as int,
                x,
                y,
            )] == block_mean(self.pixels@, self.width as int, factor as nat, x, y) by {
                lemma_offset_in_grid(new_width as int, new_height as int, x, y);
                lemma_fundamental_div_mod_converse(y * new_width + x, new_width as int, y, x);
            }
        }
        small
    }
    /// The pixels as the bytes of an eight-bit RGB image, row after
    /// row.
    pub fn rgb_bytes(&self) -> (bytes: Vec<u8>)
        ensures
            bytes@ == rgb_bytes_of(self@),
    {
        let mut bytes: Vec<u8> = Vec::new();
        let mut next: usize = 0;
        while next < self.pixels.len()
            invariant
                next <= self.pixels@.len(),
                bytes@ == rgb_bytes_of(self.pixels@.subrange(0, next as int)),
            decreases self.pixels@.len() - next,
        {
            let pixel = self.pixels[next];
            let ghost before = bytes@;
            bytes.push(pixel.r);
            bytes.push(pixel.g);
            bytes.push(pixel.b);
            proof {
                let done = self.pixels@.subrange(0, next as int);
                let wider = self.pixels@.subrange(0, next + 1);
                assert(before.len() == 3 * next);
                assert forall|i: int| 0 <= i < 3 * next implies rgb_bytes_of(wider)[i] == before[i] by {
                    assert(wider[i / 3] == done[i / 3]);
                }
                assert(bytes@ == rgb_bytes_of(wider));
            }
            next = next + 1;
        }
        assert(self.pixels@.subrange(0, next as int) == self.pixels@);
        bytes
    }

    /// The canvas as a PNG file with eight bits for each of red, green
    /// and blue. A canvas without pixels has no file, nor has one with
    /// a side of 2^32 pixels or more. Every other canvas has one: the
    /// file that the encoder writes for its pixels.
    pub fn to_png(&self) -> (file: Result<Vec<u8>, PngError>)
        ensures
            self.width() == 0 || self.height() == 0 ==> file == Err::<Vec<u8>, PngError>(
                PngError::Empty,
            ),
            self.width() > 0 && self.height() > 0 && (self.width() > u32::MAX || self.height()
                > u32::MAX) ==> file == Err::<Vec<u8>, PngError>(PngError::TooLarge),
            0 < self.width() <= u32::MAX && 0 < self.height() <= u32::MAX ==> (file matches Ok(
                bytes,
            ) && bytes@ == png_of(self.width(), self.height(), self@)),
    {
        proof {
            use_type_invariant(self);
        }
        if self.width == 0 || self.height == 0 {
            return Err(PngError::Empty);
        }
        if self.width > u32::MAX as usize || self.height > u32::MAX as usize {
            return Err(PngError::TooLarge);
        }
        let data = self.rgb_bytes();
        assert(data@.len() == 3 * (self.width as u32) * (self.height as u32)) by (nonlinear_arith)
            requires
                data@.len() == 3 * (self.width * self.height),
                self.width <= u32::MAX,
                self.height <= u32::MAX,
        ;
        png_outcome(encode_rgb(self.width as u32, self.height as u32, &data))
    }
}

} // verus!
