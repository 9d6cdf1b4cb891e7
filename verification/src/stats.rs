//! Mean colour of a region.

use vstd::prelude::*;
use crate::color::{quot, Channel, Color};
use crate::error::Error;
use crate::geometry::{in_rect, lemma_area_zero, rect_area};
use crate::image::{Image, ImageView};

verus! {

/// The sum of one channel over rows `y0..y1` of column `x`.
pub open spec fn column_sum(v: ImageView, ch: Channel, x: int, y0: int, y1: int) -> int
    decreases y1 - y0,
{
    if y1 <= y0 {
        0
    } else {
        column_sum(v, ch, x, y0, y1 - 1) + v.at(x, y1 - 1).channel(ch)
    }
}

/// The sum of one channel over columns `x0..x1` and rows `y0..y1`.
pub open spec fn region_sum(v: ImageView, ch: Channel, x0: int, x1: int, y0: int, y1: int) -> int
    decreases x1 - x0,
{
    if x1 <= x0 {
        0
    } else {
        region_sum(v, ch, x0, x1 - 1, y0, y1) + column_sum(v, ch, x1 - 1, y0, y1)
    }
}

/// The mean of one channel over the rectangle from `start` up to `end`: the
/// sum over its pixels divided by their number, rounded toward zero.
pub open spec fn mean_channel(
    v: ImageView,
    ch: Channel,
    start: (usize, usize),
    end: (usize, usize),
) -> int {
    quot(
        region_sum(v, ch, start.0 as int, end.0 as int, start.1 as int, end.1 as int),
        rect_area(start, end) as int,
    )
}

/// The mean colour over the rectangle from `start` up to `end`.
pub open spec fn mean_color(v: ImageView, start: (usize, usize), end: (usize, usize)) -> Color {
    Color {
        r: mean_channel(v, Channel::Red, start, end) as i32,
        g: mean_channel(v, Channel::Green, start, end) as i32,
        b: mean_channel(v, Channel::Blue, start, end) as i32,
        a: mean_channel(v, Channel::Alpha, start, end) as i32,
    }
}

proof fn lemma_column_sum_bounds(v: ImageView, ch: Channel, x: int, y0: int, y1: int)
    requires
        y0 <= y1,
    ensures
        -0x8000_0000 * (y1 - y0) <= column_sum(v, ch, x, y0, y1) <= 0x7fff_ffff * (y1 - y0),
    decreases y1 - y0,
{
    if y0 < y1 {
        lemma_column_sum_bounds(v, ch, x, y0, y1 - 1);
    }
}

proof fn lemma_region_sum_bounds(v: ImageView, ch: Channel, x0: int, x1: int, y0: int, y1: int)
    requires
        x0 <= x1,
        y0 <= y1,
    ensures
        -0x8000_0000 * ((x1 - x0) * (y1 - y0)) <= region_sum(v, ch, x0, x1, y0, y1) <= 0x7fff_ffff
            * ((x1 - x0) * (y1 - y0)),
    decreases x1 - x0,
{
    if x0 < x1 {
        lemma_region_sum_bounds(v, ch, x0, x1 - 1, y0, y1);
        lemma_column_sum_bounds(v, ch, x1 - 1, y0, y1);
        assert((x1 - 1 - x0) * (y1 - y0) + (y1 - y0) == (x1 - x0) * (y1 - y0))
            by (nonlinear_arith);
    } else {
        assert((x1 - x0) * (y1 - y0) == 0) by (nonlinear_arith)
            requires
                x1 - x0 == 0,
        ;
    }
}

proof fn lemma_quot_bounds(a: int, n: int, lo: int, hi: int)
    by (nonlinear_arith)
    requires
        n > 0,
        lo <= 0 <= hi,
        lo * n <= a <= hi * n,
    ensures
        lo <= quot(a, n) <= hi,
{
}

proof fn lemma_quot_multiple(c: int, n: int)
    by (nonlinear_arith)
    requires
        n > 0,
    ensures
        quot(n * c, n) == c,
{
}

proof fn lemma_mul_le(a: int, b: int, c: int, d: int)
    by (nonlinear_arith)
    requires
        0 <= a <= c,
        0 <= b <= d,
    ensures
        a * b <= c * d,
{
}

proof fn lemma_column_sum_constant(v: ImageView, ch: Channel, x: int, y0: int, y1: int, c: Color)
    requires
        y0 <= y1,
        forall|y: int| y0 <= y < y1 ==> v.at(x, y) == c,
    ensures
        column_sum(v, ch, x, y0, y1) == (y1 - y0) * c.channel(ch),
    decreases y1 - y0,
{
    if y0 < y1 {
        lemma_column_sum_constant(v, ch, x, y0, y1 - 1, c);
        assert(v.at(x, y1 - 1) == c);
        assert((y1 - 1 - y0) * c.channel(ch) + c.channel(ch) == (y1 - y0) * c.channel(ch))
            by (nonlinear_arith);
    } else {
        assert((y1 - y0) * c.channel(ch) == 0) by (nonlinear_arith)
            requires
                y1 - y0 == 0,
        ;
    }
}

proof fn lemma_region_sum_constant(
    v: ImageView,
    ch: Channel,
    x0: int,
    x1: int,
    y0: int,
    y1: int,
    c: Color,
)
    requires
        x0 <= x1,
        y0 <= y1,
        forall|x: int, y: int| x0 <= x < x1 && y0 <= y < y1 ==> v.at(x, y) == c,
    ensures
        region_sum(v, ch, x0, x1, y0, y1) == ((x1 - x0) * (y1 - y0)) * c.channel(ch),
    decreases x1 - x0,
{
    if x0 < x1 {
        lemma_region_sum_constant(v, ch, x0, x1 - 1, y0, y1, c);
        lemma_column_sum_constant(v, ch, x1 - 1, y0, y1, c);
        assert(((x1 - 1 - x0) * (y1 - y0)) * c.channel(ch) + (y1 - y0) * c.channel(ch) == ((x1
            - x0) * (y1 - y0)) * c.channel(ch)) by (nonlinear_arith);
    } else {
        assert(((x1 - x0) * (y1 - y0)) * c.channel(ch) == 0) by (nonlinear_arith)
            requires
                x1 - x0 == 0,
        ;
    }
}

/// The mean colour of a region with at least one pixel, all of whose pixels
/// have one colour, is that colour.
pub proof fn lemma_mean_of_constant(
    v: ImageView,
    start: (usize, usize),
    end: (usize, usize),
    c: Color,
)
    requires
        rect_area(start, end) > 0,
        forall|x: int, y: int| in_rect(start, end, x, y) ==> v.at(x, y) == c,
    ensures
        mean_color(v, start, end) == c,
{
    lemma_area_zero(start, end);
    let n = rect_area(start, end) as int;
    assert(n == (end.0 - start.0) * (end.1 - start.1));
    assert forall|ch: Channel| mean_channel(v, ch, start, end) == c.channel(ch) by {
        lemma_region_sum_constant(
            v,
            ch,
            start.0 as int,
            end.0 as int,
            start.1 as int,
            end.1 as int,
            c,
        );
        lemma_quot_multiple(c.channel(ch), n);
    }
    assert(mean_channel(v, Channel::Red, start, end) == c.channel(Channel::Red));
    assert(mean_channel(v, Channel::Green, start, end) == c.channel(Channel::Green));
    assert(mean_channel(v, Channel::Blue, start, end) == c.channel(Channel::Blue));
    assert(mean_channel(v, Channel::Alpha, start, end) == c.channel(Channel::Alpha));
}

proof fn lemma_column_sum_agrees(a: ImageView, b: ImageView, ch: Channel, x: int, y0: int, y1: int)
    requires
        forall|y: int| y0 <= y < y1 ==> a.at(x, y) == b.at(x, y),
    ensures
        column_sum(a, ch, x, y0, y1) == column_sum(b, ch, x, y0, y1),
    decreases y1 - y0,
{
    if y0 < y1 {
        lemma_column_sum_agrees(a, b, ch, x, y0, y1 - 1);
    }
}

proof fn lemma_region_sum_agrees(
    a: ImageView,
    b: ImageView,
    ch: Channel,
    x0: int,
    x1: int,
    y0: int,
    y1: int,
)
    requires
        forall|x: int, y: int| x0 <= x < x1 && y0 <= y < y1 ==> a.at(x, y) == b.at(x, y),
    ensures
        region_sum(a, ch, x0, x1, y0, y1) == region_sum(b, ch, x0, x1, y0, y1),
    decreases x1 - x0,
{
    if x0 < x1 {
        lemma_region_sum_agrees(a, b, ch, x0, x1 - 1, y0, y1);
        lemma_column_sum_agrees(a, b, ch, x1 - 1, y0, y1);
    }
}

/// The mean colour of a region depends on the pixels of the region alone.
pub proof fn lemma_mean_color_agrees(
    a: ImageView,
    b: ImageView,
    start: (usize, usize),
    end: (usize, usize),
)
    requires
        forall|x: int, y: int|
            start.0 <= x < end.0 && start.1 <= y < end.1 ==> a.at(x, y) == b.at(x, y),
    ensures
        mean_color(a, start, end) == mean_color(b, start, end),
{
    let x0 = start.0 as int;
    let x1 = end.0 as int;
    let y0 = start.1 as int;
    let y1 = end.1 as int;
    lemma_region_sum_agrees(a, b, Channel::Red, x0, x1, y0, y1);
    lemma_region_sum_agrees(a, b, Channel::Green, x0, x1, y0, y1);
    lemma_region_sum_agrees(a, b, Channel::Blue, x0, x1, y0, y1);
    lemma_region_sum_agrees(a, b, Channel::Alpha, x0, x1, y0, y1);
}

/// The mean colour over the rectangle from `start` up to `end`.
///
/// Fails with `OutOfBounds` where `end` lies beyond the image, and with
/// `EmptyRegion` where the rectangle has no pixel.
pub fn get_mean_color_rect(img: &Image, start: (usize, usize), end: (usize, usize)) -> (r: Result<
    Color,
    Error,
>)
    ensures
        img@.wf(),
        end.0 > img@.width || end.1 > img@.height ==> r == Err::<Color, Error>(
            Error::OutOfBounds,
        ),
        end.0 <= img@.width && end.1 <= img@.height && rect_area(start, end) == 0 ==> r == Err::<
            Color,
            Error,
        >(Error::EmptyRegion),
        end.0 <= img@.width && end.1 <= img@.height && rect_area(start, end) > 0 ==> r == Ok::<
            Color,
            Error,
        >(mean_color(img@, start, end)),
{
    if end.0 > img.width() || end.1 > img.height() {
        return Err(Error::OutOfBounds);
    }
    proof {
        lemma_area_zero(start, end);
    }
    if start.0 >= end.0 || start.1 >= end.1 {
        return Err(Error::EmptyRegion);
    }
    let cols: usize = end.0 - start.0;
    let rows: usize = end.1 - start.1;
    proof {
        lemma_mul_le(cols as int, rows as int, img@.width as int, img@.height as int);
    }
    let num_pixel: usize = cols * rows;
    let mut sum_r: i128 = 0;
    let mut sum_g: i128 = 0;
    let mut sum_b: i128 = 0;
    let mut sum_a: i128 = 0;
    let ghost v = img@;
    let ghost x0 = start.0 as int;
    let ghost y0 = start.1 as int;
    let ghost y1 = end.1 as int;
    let mut x: usize = start.0;
    while x < end.0
        invariant
            v == img@,
            x0 == start.0,
            y0 == start.1,
            y1 == end.1,
            start.0 <= x <= end.0,
            start.1 < end.1,
            end.0 <= v.width,
            end.1 <= v.height,
            cols == end.0 - start.0,
            rows == end.1 - start.1,
            cols * rows <= usize::MAX,
            sum_r == region_sum(v, Channel::Red, x0, x as int, y0, y1),
            sum_g == region_sum(v, Channel::Green, x0, x as int, y0, y1),
            sum_b == region_sum(v, Channel::Blue, x0, x as int, y0, y1),
            sum_a == region_sum(v, Channel::Alpha, x0, x as int, y0, y1),
        decreases end.0 - x,
    {
        let mut y: usize = start.1;
        let ghost base_r = sum_r as int;
        let ghost base_g = sum_g as int;
        let ghost base_b = sum_b as int;
        let ghost base_a = sum_a as int;
        proof {
            lemma_region_sum_bounds(v, Channel::Red, x0, x as int, y0, y1);
            lemma_region_sum_bounds(v, Channel::Green, x0, x as int, y0, y1);
            lemma_region_sum_bounds(v, Channel::Blue, x0, x as int, y0, y1);
            lemma_region_sum_bounds(v, Channel::Alpha, x0, x as int, y0, y1);
            lemma_mul_le(x - x0, rows as int, cols as int, rows as int);
        }
        while y < end.1
            invariant
                v == img@,
                y0 == start.1,
                y1 == end.1,
                start.0 <= x < end.0,
                start.1 <= y <= end.1,
                end.0 <= v.width,
                end.1 <= v.height,
                -0x8000_0000 * usize::MAX <= base_r <= 0x7fff_ffff * usize::MAX,
                -0x8000_0000 * usize::MAX <= base_g <= 0x7fff_ffff * usize::MAX,
                -0x8000_0000 * usize::MAX <= base_b <= 0x7fff_ffff * usize::MAX,
                -0x8000_0000 * usize::MAX <= base_a <= 0x7fff_ffff * usize::MAX,
                sum_r == base_r + column_sum(v, Channel::Red, x as int, y0, y as int),
                sum_g == base_g + column_sum(v, Channel::Green, x as int, y0, y as int),
                sum_b == base_b + column_sum(v, Channel::Blue, x as int, y0, y as int),
                sum_a == base_a + column_sum(v, Channel::Alpha, x as int, y0, y as int),
            decreases end.1 - y,
        {
            let c = img.pixel(x, y);
            proof {
                lemma_column_sum_bounds(v, Channel::Red, x as int, y0, y as int);
                lemma_column_sum_bounds(v, Channel::Green, x as int, y0, y as int);
                lemma_column_sum_bounds(v, Channel::Blue, x as int, y0, y as int);
                lemma_column_sum_bounds(v, Channel::Alpha, x as int, y0, y as int);
            }
            sum_r = sum_r + c.r as i128;
            sum_g = sum_g + c.g as i128;
            sum_b = sum_b + c.b as i128;
            sum_a = sum_a + c.a as i128;
            y += 1;
        }
        x += 1;
    }
    let n: i128 = num_pixel as i128;
    proof {
        assert(n == rect_area(start, end));
        lemma_region_sum_bounds(v, Channel::Red, x0, end.0 as int, y0, y1);
        lemma_region_sum_bounds(v, Channel::Green, x0, end.0 as int, y0, y1);
        lemma_region_sum_bounds(v, Channel::Blue, x0, end.0 as int, y0, y1);
        lemma_region_sum_bounds(v, Channel::Alpha, x0, end.0 as int, y0, y1);
        lemma_quot_bounds(sum_r as int, n as int, -0x8000_0000, 0x7fff_ffff);
        lemma_quot_bounds(sum_g as int, n as int, -0x8000_0000, 0x7fff_ffff);
        lemma_quot_bounds(sum_b as int, n as int, -0x8000_0000, 0x7fff_ffff);
        lemma_quot_bounds(sum_a as int, n as int, -0x8000_0000, 0x7fff_ffff);
    }
    Ok(
        Color {
            r: (sum_r / n) as i32,
            g: (sum_g / n) as i32,
            b: (sum_b / n) as i32,
            a: (sum_a / n) as i32,
        },
    )
}

} // verus!
