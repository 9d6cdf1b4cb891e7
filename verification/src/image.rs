//! The pixel grid and its decoded 8-bit form.

use vstd::prelude::*;
use crate::color::{byte_of_channel, channel_to_byte, Channel, Color};
use crate::error::Error;
use crate::geometry::in_rect;

verus! {

/// The channel layout of a decoded image.
#[derive(Clone, Copy, Debug, PartialEq, Eq, Structural)]
pub enum ColorType {
    Grayscale,
    Rgb,
    Indexed,
    GrayscaleAlpha,
    Rgba,
}

/// An image as a decoder hands it over, or as an encoder takes it.
#[derive(Clone, Debug, PartialEq, Eq)]
pub struct DecodedImage {
    pub width: u32,
    pub height: u32,
    pub color_type: ColorType,
    /// Bits per channel.
    pub bit_depth: u8,
    /// The samples, row by row.
    pub pixels: Vec<u8>,
}

impl DecodedImage {
    /// The image holds four 8-bit channels for each of its `width * height`
    /// pixels.
    pub open spec fn is_rgba8(&self) -> bool {
        &&& self.color_type == ColorType::Rgba
        &&& self.bit_depth == 8
        &&& self.pixels@.len() == self.width * self.height * 4
    }
}

/// The channel that a sample of an RGBA pixel belongs to.
pub open spec fn channel_at(k: int) -> Channel {
    if k == 0 {
        Channel::Red
    } else if k == 1 {
        Channel::Green
    } else if k == 2 {
        Channel::Blue
    } else {
        Channel::Alpha
    }
}

/// What an [`Image`] holds: its dimensions and its rows of colours.
pub struct ImageView {
    pub width: nat,
    pub height: nat,
    pub rows: Seq<Seq<Color>>,
}

impl ImageView {
    /// There are `height` rows of `width` colours each.
    pub open spec fn wf(self) -> bool {
        &&& self.rows.len() == self.height
        &&& forall|y: int| 0 <= y < self.height ==> (#[trigger] self.rows[y]).len() == self.width
    }

    /// `(x, y)` names a pixel of the grid.
    pub open spec fn in_bounds(self, x: int, y: int) -> bool {
        0 <= x < self.width && 0 <= y < self.height
    }

    /// The colour in column `x` of row `y`.
    pub open spec fn at(self, x: int, y: int) -> Color
        recommends
            self.in_bounds(x, y),
    {
        self.rows[y][x]
    }

    /// The grid with the colour at `(x, y)` replaced.
    pub open spec fn with_pixel(self, x: int, y: int, c: Color) -> ImageView
        recommends
            self.in_bounds(x, y),
    {
        ImageView { rows: self.rows.update(y, self.rows[y].update(x, c)), ..self }
    }

    /// The grid that `width * height * 4` samples of 8-bit RGBA stand for.
    pub open spec fn from_rgba8(width: nat, height: nat, bytes: Seq<u8>) -> ImageView {
        ImageView {
            width,
            height,
            rows: Seq::new(
                height,
                |y: int|
                    Seq::new(
                        width,
                        |x: int|
                            Color::of_bytes(
                                bytes[4 * (y * width + x)],
                                bytes[4 * (y * width + x) + 1],
                                bytes[4 * (y * width + x) + 2],
                                bytes[4 * (y * width + x) + 3],
                            ),
                    ),
            ),
        }
    }

    /// The 8-bit RGBA samples of the grid, row by row: sample `i` is channel
    /// `i % 4` of pixel `i / 4`.
    pub open spec fn to_rgba8(self) -> Seq<u8> {
        Seq::new(
            self.width * self.height * 4,
            |i: int|
                byte_of_channel(
                    self.at((i / 4) % (self.width as int), (i / 4) / (self.width as int)).channel(
                        channel_at(i % 4),
                    ),
                ) as u8,
        )
    }
}

/// Two grids of the same dimensions that agree at every pixel are the same.
pub proof fn lemma_view_equal(a: ImageView, b: ImageView)
    requires
        a.wf(),
        b.wf(),
        a.width == b.width,
        a.height == b.height,
        forall|x: int, y: int| a.in_bounds(x, y) ==> a.at(x, y) == b.at(x, y),
    ensures
        a == b,
{
    assert forall|y: int| 0 <= y < a.height implies a.rows[y] =~= b.rows[y] by {
        assert forall|x: int| 0 <= x < a.width implies a.rows[y][x] == b.rows[y][x] by {
            assert(a.in_bounds(x, y));
            assert(a.at(x, y) == b.at(x, y));
        }
    }
    assert(a.rows =~= b.rows);
}

/// What `with_pixel` changes and what it keeps.
pub proof fn lemma_with_pixel(v: ImageView, x: int, y: int, c: Color)
    requires
        v.wf(),
        v.in_bounds(x, y),
    ensures
        v.with_pixel(x, y, c).wf(),
        v.with_pixel(x, y, c).width == v.width,
        v.with_pixel(x, y, c).height == v.height,
        v.with_pixel(x, y, c).at(x, y) == c,
        forall|x2: int, y2: int|
            v.in_bounds(x2, y2) && (x2 != x || y2 != y) ==> v.with_pixel(x, y, c).at(x2, y2)
                == v.at(x2, y2),
{
    let u = v.with_pixel(x, y, c);
    assert forall|y2: int| 0 <= y2 < u.height implies (#[trigger] u.rows[y2]).len()
        == u.width by {
        assert(v.rows[y2].len() == v.width);
    }
}

proof fn lemma_index_in_range(w: int, h: int, x: int, y: int)
    by (nonlinear_arith)
    requires
        0 <= x < w,
        0 <= y < h,
    ensures
        0 <= y * w + x < w * h,
{
}

proof fn lemma_index_injective(w: int, x1: int, y1: int, x2: int, y2: int)
    by (nonlinear_arith)
    requires
        0 <= x1 < w,
        0 <= x2 < w,
        0 <= y1,
        0 <= y2,
        y1 * w + x1 == y2 * w + x2,
    ensures
        x1 == x2,
        y1 == y2,
{
}

proof fn lemma_index_split(w: int, h: int, p: int)
    by (nonlinear_arith)
    requires
        0 <= p < w * h,
        0 < w,
    ensures
        0 <= p % w < w,
        0 <= p / w < h,
        (p / w) * w + p % w == p,
{
}

/// The grid of a row-major sequence of colours.
spec fn grid(width: nat, height: nat, data: Seq<Color>) -> ImageView {
    ImageView {
        width,
        height,
        rows: Seq::new(height, |y: int| Seq::new(width, |x: int| data[y * width + x])),
    }
}

proof fn lemma_grid_update(width: nat, height: nat, data: Seq<Color>, x: int, y: int, c: Color)
    requires
        data.len() == width * height,
        0 <= x < width,
        0 <= y < height,
    ensures
        0 <= y * width + x < data.len(),
        grid(width, height, data.update(y * width + x, c)) == grid(width, height, data).with_pixel(
            x,
            y,
            c,
        ),
{
    lemma_index_in_range(width as int, height as int, x, y);
    let a = grid(width, height, data.update(y * width + x, c));
    let b = grid(width, height, data).with_pixel(x, y, c);
    lemma_with_pixel(grid(width, height, data), x, y, c);
    assert forall|x2: int, y2: int| a.in_bounds(x2, y2) implies a.at(x2, y2) == b.at(x2, y2) by {
        lemma_index_in_range(width as int, height as int, x2, y2);
        if y2 * width + x2 == y * width + x {
            lemma_index_injective(width as int, x, y, x2, y2);
        }
    }
    lemma_view_equal(a, b);
}

/// A grid of colours with fixed dimensions, stored row by row.
#[derive(Debug)]
pub struct Image {
    width: usize,
    height: usize,
    data: Vec<Color>,
}

impl View for Image {
    type V = ImageView;

    closed spec fn view(&self) -> ImageView {
        grid(self.width as nat, self.height as nat, self.data@)
    }
}

impl Image {
    #[verifier::type_invariant]
    spec fn inv(self) -> bool {
        &&& self.data@.len() == self.width * self.height
        &&& self.width <= u32::MAX
        &&& self.height <= u32::MAX
        &&& self.width * self.height * 4 <= usize::MAX
    }

    /// Builds the grid from a decoded image of 8-bit RGBA.
    ///
    /// Any other layout, and a buffer whose length is not `width * height * 4`,
    /// is refused before anything is allocated.
    pub fn new_from_libpng(pngimg: &DecodedImage) -> (r: Result<Image, Error>)
        ensures
            pngimg.is_rgba8() ==> r is Ok && r->Ok_0@ == ImageView::from_rgba8(
                pngimg.width as nat,
                pngimg.height as nat,
                pngimg.pixels@,
            ) && r->Ok_0@.wf(),
            !pngimg.is_rgba8() ==> r == Err::<Image, Error>(Error::UnsupportedFormat),
    {
        match pngimg.color_type {
            ColorType::Rgba => {},
            _ => {
                return Err(Error::UnsupportedFormat);
            },
        }
        if pngimg.bit_depth != 8 {
            return Err(Error::UnsupportedFormat);
        }
        assert(pngimg.width * pngimg.height <= 0xffff_ffff * 0xffff_ffff) by (nonlinear_arith)
            requires
                pngimg.width <= 0xffff_ffff,
                pngimg.height <= 0xffff_ffff,
        ;
        let wide: u128 = (pngimg.width as u128) * (pngimg.height as u128) * 4;
        if pngimg.pixels.len() as u128 != wide {
            return Err(Error::UnsupportedFormat);
        }
        let width: usize = pngimg.width as usize;
        let height: usize = pngimg.height as usize;
        let num_pixel: usize = pngimg.pixels.len() / 4;
        assert(num_pixel == width * height);
        let mut data: Vec<Color> = Vec::with_capacity(num_pixel);
        let mut i: usize = 0;
        while i < num_pixel
            invariant
                i <= num_pixel,
                num_pixel * 4 == pngimg.pixels@.len(),
                num_pixel * 4 <= usize::MAX,
                data@.len() == i,
                forall|j: int|
                    0 <= j < i ==> #[trigger] data@[j] == Color::of_bytes(
                        pngimg.pixels@[4 * j],
                        pngimg.pixels@[4 * j + 1],
                        pngimg.pixels@[4 * j + 2],
                        pngimg.pixels@[4 * j + 3],
                    ),
            decreases num_pixel - i,
        {
            let color = Color::from_bytes(
                pngimg.pixels[i * 4],
                pngimg.pixels[i * 4 + 1],
                pngimg.pixels[i * 4 + 2],
                pngimg.pixels[i * 4 + 3],
            );
            data.push(color);
            i += 1;
        }
        let image = Image { width, height, data };
        proof {
            let target = ImageView::from_rgba8(
                pngimg.width as nat,
                pngimg.height as nat,
                pngimg.pixels@,
            );
            assert forall|x: int, y: int| image@.in_bounds(x, y) implies image@.at(x, y)
                == target.at(x, y) by {
                lemma_index_in_range(width as int, height as int, x, y);
            }
            lemma_view_equal(image@, target);
        }
        Ok(image)
    }

    /// The number of columns.
    pub fn width(&self) -> (w: usize)
        ensures
            w == self@.width,
            self@.wf(),
            self@.width * self@.height <= usize::MAX,
    {
        proof {
            use_type_invariant(self);
        }
        self.width
    }

    /// The number of rows.
    pub fn height(&self) -> (h: usize)
        ensures
            h == self@.height,
            self@.wf(),
            self@.width * self@.height <= usize::MAX,
    {
        proof {
            use_type_invariant(self);
        }
        self.height
    }

    /// The number of pixels.
    pub fn pixel_count(&self) -> (n: usize)
        ensures
            n == self@.width * self@.height,
            self@.wf(),
    {
        proof {
            use_type_invariant(self);
        }
        self.data.len()
    }

    pub(crate) fn pixel(&self, x: usize, y: usize) -> (c: Color)
        requires
            self@.in_bounds(x as int, y as int),
        ensures
            c == self@.at(x as int, y as int),
    {
        proof {
            use_type_invariant(self);
            lemma_index_in_range(self.width as int, self.height as int, x as int, y as int);
        }
        self.data[y * self.width + x]
    }

    /// The pixel at `(x, y)`, or `OutOfBounds` where the grid has none.
    pub fn get(&self, x: usize, y: usize) -> (r: Result<&Color, Error>)
        ensures
            self@.wf(),
            self@.in_bounds(x as int, y as int) ==> r is Ok && *r->Ok_0 == self@.at(
                x as int,
                y as int,
            ),
            !self@.in_bounds(x as int, y as int) ==> r == Err::<&Color, Error>(Error::OutOfBounds),
    {
        proof {
            use_type_invariant(self);
        }
        if x >= self.width || y >= self.height {
            return Err(Error::OutOfBounds);
        }
        proof {
            lemma_index_in_range(self.width as int, self.height as int, x as int, y as int);
        }
        Ok(&self.data[y * self.width + x])
    }

    /// A place to write the pixel at `(x, y)`, or `OutOfBounds` where the grid
    /// has none. Nothing else changes.
    pub fn get_mut(&mut self, x: usize, y: usize) -> (r: Result<&mut Color, Error>)
        ensures
            match r {
                Ok(p) => {
                    &&& old(self)@.in_bounds(x as int, y as int)
                    &&& *p == old(self)@.at(x as int, y as int)
                    &&& final(self)@ == old(self)@.with_pixel(x as int, y as int, *final(p))
                    &&& final(self)@.wf()
                },
                Err(e) => {
                    &&& e == Error::OutOfBounds
                    &&& !old(self)@.in_bounds(x as int, y as int)
                    &&& final(self)@ == old(self)@
                },
            },
    {
        proof {
            use_type_invariant(&*self);
        }
        if x >= self.width || y >= self.height {
            return Err(Error::OutOfBounds);
        }
        proof {
            lemma_index_in_range(self.width as int, self.height as int, x as int, y as int);
            assert forall|c: Color|
                grid(
                    self.width as nat,
                    self.height as nat,
                    #[trigger] self.data@.update(y * self.width + x, c),
                ) == self@.with_pixel(x as int, y as int, c) && self@.with_pixel(
                    x as int,
                    y as int,
                    c,
                ).wf() by {
                lemma_grid_update(
                    self.width as nat,
                    self.height as nat,
                    self.data@,
                    x as int,
                    y as int,
                    c,
                );
                lemma_with_pixel(self@, x as int, y as int, c);
            }
        }
        Ok(&mut self.data[y * self.width + x])
    }

    /// Writes the pixel at `(x, y)`, or fails with `OutOfBounds` and changes
    /// nothing where the grid has none.
    pub fn set(&mut self, x: usize, y: usize, color: Color) -> (r: Result<(), Error>)
        ensures
            r is Ok <==> old(self)@.in_bounds(x as int, y as int),
            r is Ok ==> final(self)@ == old(self)@.with_pixel(x as int, y as int, color),
            r is Err ==> r == Err::<(), Error>(Error::OutOfBounds) && final(self)@ == old(self)@,
            final(self)@.wf(),
    {
        proof {
            use_type_invariant(&*self);
        }
        if x >= self.width || y >= self.height {
            return Err(Error::OutOfBounds);
        }
        proof {
            lemma_grid_update(
                self.width as nat,
                self.height as nat,
                self.data@,
                x as int,
                y as int,
                color,
            );
            lemma_with_pixel(self@, x as int, y as int, color);
        }
        self.data[y * self.width + x] = color;
        Ok(())
    }

    pub(crate) fn put(&mut self, x: usize, y: usize, color: Color)
        requires
            old(self)@.in_bounds(x as int, y as int),
        ensures
            final(self)@ == old(self)@.with_pixel(x as int, y as int, color),
            final(self)@.wf(),
            final(self)@.width == old(self)@.width,
            final(self)@.height == old(self)@.height,
    {
        proof {
            use_type_invariant(&*self);
            lemma_grid_update(
                self.width as nat,
                self.height as nat,
                self.data@,
                x as int,
                y as int,
                color,
            );
            lemma_with_pixel(self@, x as int, y as int, color);
        }
        self.data[y * self.width + x] = color;
    }

    /// Repaints the rectangle from `start` up to `end` with what `op` gives for
    /// each pixel, column by column and each column from the top.
    ///
    /// Where `end` lies beyond the grid the call fails with `OutOfBounds`
    /// before anything is written.
    pub fn add_rectangle<F: Fn(usize, usize) -> Color>(
        &mut self,
        start: (usize, usize),
        end: (usize, usize),
        op: F,
    ) -> (r: Result<(), Error>)
        requires
            forall|x: usize, y: usize|
                in_rect(start, end, x as int, y as int) ==> op.requires((x, y)),
        ensures
            final(self)@.wf(),
            final(self)@.width == old(self)@.width,
            final(self)@.height == old(self)@.height,
            r is Ok <==> end.0 <= old(self)@.width && end.1 <= old(self)@.height,
            r is Err ==> r == Err::<(), Error>(Error::OutOfBounds) && final(self)@ == old(self)@,
            r is Ok ==> forall|x: usize, y: usize|
                in_rect(start, end, x as int, y as int) ==> op.ensures(
                    (x, y),
                    #[trigger] final(self)@.at(x as int, y as int),
                ),
            r is Ok ==> forall|x: int, y: int|
                old(self)@.in_bounds(x, y) && !in_rect(start, end, x, y)
                    ==> #[trigger] final(self)@.at(x, y) == old(self)@.at(x, y),
    {
        proof {
            use_type_invariant(&*self);
        }
        if end.0 > self.width || end.1 > self.height {
            return Err(Error::OutOfBounds);
        }
        let ghost before = self@;
        let mut x: usize = start.0;
        while x < end.0
            invariant
                self@.wf(),
                self@.width == before.width,
                self@.height == before.height,
                before.wf(),
                end.0 <= before.width,
                end.1 <= before.height,
                start.0 <= x,
                forall|px: usize, py: usize|
                    in_rect(start, end, px as int, py as int) ==> op.requires((px, py)),
                forall|px: usize, py: usize|
                    in_rect(start, end, px as int, py as int) && px < x ==> op.ensures(
                        (px, py),
                        #[trigger] self@.at(px as int, py as int),
                    ),
                forall|px: int, py: int|
                    before.in_bounds(px, py) && !(in_rect(start, end, px, py) && px < x)
                        ==> #[trigger] self@.at(px, py) == before.at(px, py),
            decreases end.0 - x,
        {
            let mut y: usize = start.1;
            while y < end.1
                invariant
                    self@.wf(),
                    self@.width == before.width,
                    self@.height == before.height,
                    before.wf(),
                    end.0 <= before.width,
                    end.1 <= before.height,
                    start.0 <= x < end.0,
                    start.1 <= y,
                    forall|px: usize, py: usize|
                        in_rect(start, end, px as int, py as int) ==> op.requires((px, py)),
                    forall|px: usize, py: usize|
                        in_rect(start, end, px as int, py as int) && (px < x || (px == x && py
                            < y)) ==> op.ensures(
                            (px, py),
                            #[trigger] self@.at(px as int, py as int),
                        ),
                    forall|px: int, py: int|
                        before.in_bounds(px, py) && !(in_rect(start, end, px, py) && (px < x || (px
                            == x && py < y))) ==> #[trigger] self@.at(px, py) == before.at(
                            px,
                            py,
                        ),
                decreases end.1 - y,
            {
                assert(in_rect(start, end, x as int, y as int));
                let color = op(x, y);
                let ghost prev = self@;
                self.put(x, y, color);
                proof {
                    lemma_with_pixel(prev, x as int, y as int, color);
                    assert forall|px: usize, py: usize|
                        in_rect(start, end, px as int, py as int) && (px < x || (px == x && py
                            <= y)) implies op.ensures(
                        (px, py),
                        #[trigger] self@.at(px as int, py as int),
                    ) by {
                        if px != x || py != y {
                            assert(prev.in_bounds(px as int, py as int));
                            assert(self@.at(px as int, py as int) == prev.at(
                                px as int,
                                py as int,
                            ));
                        }
                    }
                    assert forall|px: int, py: int|
                        before.in_bounds(px, py) && !(in_rect(start, end, px, py) && (px < x || (px
                            == x && py <= y))) implies #[trigger] self@.at(px, py) == before.at(
                        px,
                        py,
                    ) by {
                        assert(prev.in_bounds(px, py));
                        assert(self@.at(px, py) == prev.at(px, py));
                    }
                }
                y += 1;
            }
            x += 1;
        }
        Ok(())
    }

    /// The grid as 8-bit RGBA for an encoder.
    ///
    /// Each channel is scaled to `0..=255` and rounded toward zero; what lies
    /// outside is clamped.
    pub fn to_libpng(&self) -> (r: DecodedImage)
        ensures
            r.width == self@.width,
            r.height == self@.height,
            r.color_type == ColorType::Rgba,
            r.bit_depth == 8,
            r.pixels@ == self@.to_rgba8(),
            r.is_rgba8(),
    {
        proof {
            use_type_invariant(self);
        }
        let num_pixel: usize = self.data.len();
        let mut pixels: Vec<u8> = Vec::with_capacity(num_pixel * 4);
        let mut j: usize = 0;
        while j < num_pixel
            invariant
                j <= num_pixel,
                num_pixel == self.data@.len(),
                pixels@.len() == 4 * j,
                forall|i: int|
                    0 <= i < 4 * j ==> #[trigger] pixels@[i] == byte_of_channel(
                        self.data@[i / 4].channel(channel_at(i % 4)),
                    ),
            decreases num_pixel - j,
        {
            let color = self.data[j];
            pixels.push(channel_to_byte(color.r));
            pixels.push(channel_to_byte(color.g));
            pixels.push(channel_to_byte(color.b));
            pixels.push(channel_to_byte(color.a));
            j += 1;
        }
        proof {
            let target = self@.to_rgba8();
            assert(pixels@.len() == target.len());
            assert forall|i: int| 0 <= i < pixels@.len() implies pixels@[i] == target[i] by {
                let p = i / 4;
                assert(0 <= p < self.width * self.height);
                if self.width == 0 {
                    assert(self.width * self.height == 0) by (nonlinear_arith)
                        requires
                            self.width == 0,
                    ;
                }
                lemma_index_split(self.width as int, self.height as int, p);
            }
            assert(pixels@ =~= target);
        }
        DecodedImage {
            width: self.width as u32,
            height: self.height as u32,
            color_type: ColorType::Rgba,
            bit_depth: 8,
            pixels,
        }
    }
}

/// Decoding 8-bit RGBA and encoding it again gives back every sample.
pub proof fn lemma_rgba8_round_trip(width: nat, height: nat, bytes: Seq<u8>)
    requires
        bytes.len() == width * height * 4,
    ensures
        ImageView::from_rgba8(width, height, bytes).wf(),
        ImageView::from_rgba8(width, height, bytes).to_rgba8() == bytes,
{
    let v = ImageView::from_rgba8(width, height, bytes);
    let back = v.to_rgba8();
    assert forall|i: int| 0 <= i < bytes.len() implies back[i] == bytes[i] by {
        let p = i / 4;
        assert(0 <= p < width * height);
        if width == 0 {
            assert(width * height == 0) by (nonlinear_arith)
                requires
                    width == 0,
            ;
        }
        lemma_index_split(width as int, height as int, p);
        let x = p % (width as int);
        let y = p / (width as int);
        assert(v.at(x, y) == Color::of_bytes(
            bytes[4 * p],
            bytes[4 * p + 1],
            bytes[4 * p + 2],
            bytes[4 * p + 3],
        ));
        crate::color::lemma_byte_round_trip(bytes[i]);
    }
    assert(back =~= bytes);
}

} // verus!
