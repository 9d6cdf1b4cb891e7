//! Repainting one cell: a black frame around a noisy vertical gradient.

use vstd::prelude::*;
use crate::color::{clamp, quot, Color, ONE};
use crate::config::Config;
use crate::error::Error;
use crate::geometry::Rectangle;
use crate::image::{lemma_with_pixel, Image, ImageView};
use crate::random::{draw_samples, RandomSource};

verus! {

/// Half of full intensity.
pub const HALF: i32 = 8_355_840;

/// `(x, y)` belongs to the frame of `cell`: it lies within the leading inset
/// of the cell's left or top edge, or within the trailing inset of its right
/// or bottom edge.
pub open spec fn is_border(cell: Rectangle, config: Config, x: int, y: int) -> bool {
    ||| x < cell.start.0 + config.border_leading
    ||| x >= cell.end.0 - config.border_trailing
    ||| y < cell.start.1 + config.border_leading
    ||| y >= cell.end.1 - config.border_trailing
}

/// The number of columns of `cell` inside the frame.
pub open spec fn interior_cols(cell: Rectangle, config: Config) -> nat {
    let n = (cell.end.0 - config.border_trailing) - (cell.start.0 + config.border_leading);
    if n > 0 {
        n as nat
    } else {
        0
    }
}

/// The number of rows of `cell` inside the frame.
pub open spec fn interior_rows(cell: Rectangle, config: Config) -> nat {
    let n = (cell.end.1 - config.border_trailing) - (cell.start.1 + config.border_leading);
    if n > 0 {
        n as nat
    } else {
        0
    }
}

/// The number of pixels of `cell` inside the frame: one random sample is
/// spent on each.
pub open spec fn interior_area(cell: Rectangle, config: Config) -> nat {
    interior_cols(cell, config) * interior_rows(cell, config)
}

/// The place of an interior pixel in the order of painting: column by column,
/// each column from the top.
pub open spec fn interior_index(cell: Rectangle, config: Config, x: int, y: int) -> int {
    (x - (cell.start.0 + config.border_leading)) * interior_rows(cell, config) + (y - (
    cell.start.1 + config.border_leading))
}

/// What one sample adds to the noise: the sample as a fraction of `2^32`,
/// moved to `[-1/2, 1/2)` and divided by the noise scale.
pub open spec fn noise_step(config: Config, raw: u32) -> int {
    quot((raw as int * ONE as int) / 0x1_0000_0000 - HALF as int, config.noise_scale as int)
}

/// The noise after its decay: one part in `noise_decay` is taken back.
pub open spec fn noise_decayed(config: Config, acc: int) -> int {
    acc + quot(-acc, config.noise_decay as int)
}

/// The noise after the first `n` samples. It starts at 0; each sample is
/// added and the sum decays.
pub open spec fn noise_level(config: Config, samples: Seq<u32>, n: nat) -> int
    decreases n,
{
    if n == 0 {
        0
    } else {
        noise_decayed(
            config,
            noise_level(config, samples, (n - 1) as nat) + noise_step(config, samples[n - 1]),
        )
    }
}

/// The darkening of row `y`: the row's offset from the top of the cell as a
/// fraction of the cell's height, divided by the gradient strength, negated.
pub open spec fn gradient(cell: Rectangle, config: Config, y: int) -> int {
    -quot(
        quot((y - cell.start.1) * ONE, cell.end.1 - cell.start.1),
        config.gradient_strength as int,
    )
}

/// A channel of an interior pixel: the mean with noise and gradient added,
/// confined to `0..=ONE`.
pub open spec fn composite(base: int, noise: int, gradient: int) -> int {
    clamp(base + noise + gradient, 0, ONE as int)
}

/// The colour that rendering gives the pixel `(x, y)` of `cell`.
pub open spec fn painted(
    cell: Rectangle,
    config: Config,
    mean: Color,
    samples: Seq<u32>,
    x: int,
    y: int,
) -> Color {
    if is_border(cell, config, x, y) {
        Color::black()
    } else {
        let noise = noise_level(config, samples, (interior_index(cell, config, x, y) + 1) as nat);
        let shade = gradient(cell, config, y);
        Color {
            r: composite(mean.r as int, noise, shade) as i32,
            g: composite(mean.g as int, noise, shade) as i32,
            b: composite(mean.b as int, noise, shade) as i32,
            a: ONE,
        }
    }
}

/// `after` is `before` with `cell` rendered from `mean` and `samples`: every
/// pixel of the cell is painted, every other pixel is kept.
pub open spec fn is_rendering(
    after: ImageView,
    before: ImageView,
    cell: Rectangle,
    config: Config,
    mean: Color,
    samples: Seq<u32>,
) -> bool {
    &&& after.wf()
    &&& after.width == before.width
    &&& after.height == before.height
    &&& forall|x: int, y: int|
        before.in_bounds(x, y) ==> #[trigger] after.at(x, y) == if cell.contains(x, y) {
            painted(cell, config, mean, samples, x, y)
        } else {
            before.at(x, y)
        }
}

/// Where the frame ends: on each axis the last pixel before the leading inset
/// is reached and the first pixel of the trailing inset belong to the frame,
/// and a pixel is inside the frame exactly when it lies at or past the leading
/// inset and short of the trailing inset on both axes. Among those is the
/// pixel one past the leading inset, where the trailing inset leaves room.
pub proof fn lemma_border_at_the_insets(cell: Rectangle, config: Config, x: int, y: int)
    ensures
        x == cell.start.0 + config.border_leading - 1 ==> is_border(cell, config, x, y),
        y == cell.start.1 + config.border_leading - 1 ==> is_border(cell, config, x, y),
        x == cell.end.0 - config.border_trailing ==> is_border(cell, config, x, y),
        y == cell.end.1 - config.border_trailing ==> is_border(cell, config, x, y),
        !is_border(cell, config, x, y) <==> {
            &&& cell.start.0 + config.border_leading <= x < cell.end.0 - config.border_trailing
            &&& cell.start.1 + config.border_leading <= y < cell.end.1 - config.border_trailing
        },
        x == cell.start.0 + config.border_leading + 1 && x < cell.end.0 - config.border_trailing
            && cell.start.1 + config.border_leading <= y < cell.end.1 - config.border_trailing
            ==> !is_border(cell, config, x, y),
        y == cell.start.1 + config.border_leading + 1 && y < cell.end.1 - config.border_trailing
            && cell.start.0 + config.border_leading <= x < cell.end.0 - config.border_trailing
            ==> !is_border(cell, config, x, y),
{
}

/// Rendering a cell without pixels keeps the image.
pub proof fn lemma_rendering_empty_cell(
    after: ImageView,
    before: ImageView,
    cell: Rectangle,
    config: Config,
    mean: Color,
    samples: Seq<u32>,
)
    requires
        before.wf(),
        cell.area() == 0,
        is_rendering(after, before, cell, config, mean, samples),
    ensures
        after == before,
{
    crate::geometry::lemma_area_zero(cell.start, cell.end);
    assert forall|x: int, y: int| after.in_bounds(x, y) implies after.at(x, y) == before.at(
        x,
        y,
    ) by {
        assert(!cell.contains(x, y));
    }
    crate::image::lemma_view_equal(after, before);
}

/// The number of interior columns to the left of column `x`.
spec fn cols_before(cell: Rectangle, config: Config, x: int) -> int {
    clamp(x - (cell.start.0 + config.border_leading), 0, interior_cols(cell, config) as int)
}

/// The number of interior rows above row `y`.
spec fn rows_before(cell: Rectangle, config: Config, y: int) -> int {
    clamp(y - (cell.start.1 + config.border_leading), 0, interior_rows(cell, config) as int)
}

proof fn lemma_quot_shrinks(a: int, d: int)
    by (nonlinear_arith)
    requires
        d >= 1,
    ensures
        a >= 0 ==> 0 <= quot(a, d) <= a,
        a <= 0 ==> a <= quot(a, d) <= 0,
{
}

proof fn lemma_noise_step_bounds(config: Config, raw: u32)
    requires
        config.wf(),
    ensures
        -HALF <= noise_step(config, raw) <= HALF,
{
    let unit = (raw as int * ONE as int) / 0x1_0000_0000;
    assert(0 <= unit < ONE);
    lemma_quot_shrinks(unit - HALF as int, config.noise_scale as int);
}

proof fn lemma_noise_decay_bounds(config: Config, acc: int)
    requires
        config.wf(),
    ensures
        acc >= 0 ==> 0 <= noise_decayed(config, acc) <= acc,
        acc <= 0 ==> acc <= noise_decayed(config, acc) <= 0,
{
    lemma_quot_shrinks(-acc, config.noise_decay as int);
}

/// The noise after `n` samples is at most `n` halves of full intensity away
/// from 0.
pub proof fn lemma_noise_level_bounds(config: Config, samples: Seq<u32>, n: nat)
    requires
        config.wf(),
    ensures
        -(n * HALF) <= noise_level(config, samples, n) <= n * HALF,
    decreases n,
{
    if n > 0 {
        lemma_noise_level_bounds(config, samples, (n - 1) as nat);
        lemma_noise_step_bounds(config, samples[n - 1]);
        lemma_noise_decay_bounds(
            config,
            noise_level(config, samples, (n - 1) as nat) + noise_step(config, samples[n - 1]),
        );
    }
}

proof fn lemma_interior_index_in_range(cols: int, rows: int, c: int, r: int)
    by (nonlinear_arith)
    requires
        0 <= c < cols,
        0 <= r < rows,
    ensures
        0 <= c * rows + r < cols * rows,
{
}

proof fn lemma_next_column(c: int, rows: int)
    by (nonlinear_arith)
    ensures
        (c + 1) * rows == c * rows + rows,
        0 * rows == 0,
{
}

proof fn lemma_fraction_bounds(part: int, whole: int)
    by (nonlinear_arith)
    requires
        0 <= part < whole,
    ensures
        0 <= (part * ONE) / whole <= ONE,
{
}

/// Whether `(x, y)` belongs to the frame of `cell`.
pub fn is_border_pixel(cell: &Rectangle, config: &Config, x: usize, y: usize) -> (r: bool)
    ensures
        r == is_border(*cell, *config, x as int, y as int),
{
    let px: i128 = x as i128;
    let py: i128 = y as i128;
    px < cell.start.0 as i128 + config.border_leading as i128 || px >= cell.end.0 as i128
        - config.border_trailing as i128 || py < cell.start.1 as i128
        + config.border_leading as i128 || py >= cell.end.1 as i128
        - config.border_trailing as i128
}

/// The darkening of row `y` of `cell`.
pub fn gradient_at(cell: &Rectangle, config: &Config, y: usize) -> (shade: i32)
    requires
        config.wf(),
        cell.start.1 <= y < cell.end.1,
    ensures
        shade == gradient(*cell, *config, y as int),
        -ONE <= shade <= 0,
{
    let offset: u128 = (y - cell.start.1) as u128;
    let rows: u128 = (cell.end.1 - cell.start.1) as u128;
    proof {
        lemma_fraction_bounds(offset as int, rows as int);
    }
    let fraction: u128 = (offset * (ONE as u128)) / rows;
    proof {
        lemma_quot_shrinks(fraction as int, config.gradient_strength as int);
    }
    -((fraction as i64 / config.gradient_strength as i64) as i32)
}

/// A channel of an interior pixel from the mean, the noise and the darkening.
pub fn composite_channel(base: i32, noise: i128, shade: i32) -> (channel: i32)
    ensures
        channel == composite(base as int, noise as int, shade as int),
        0 <= channel <= ONE,
{
    if noise >= 0x2_0000_0000 {
        ONE
    } else if noise <= -0x2_0000_0000 {
        0
    } else {
        let sum: i128 = base as i128 + noise + shade as i128;
        if sum < 0 {
            0
        } else if sum > ONE as i128 {
            ONE
        } else {
            sum as i32
        }
    }
}

/// The noise after one more sample.
fn noise_advance(config: &Config, acc: i128, raw: u32) -> (next: i128)
    requires
        config.wf(),
        -0xffff_ffff_ffff_ffff * HALF <= acc <= 0xffff_ffff_ffff_ffff * HALF,
    ensures
        next == noise_decayed(*config, acc + noise_step(*config, raw)),
{
    let unit: i64 = (((raw as u64) * (ONE as u64)) / 0x1_0000_0000u64) as i64;
    let step: i64 = (unit - HALF as i64) / (config.noise_scale as i64);
    proof {
        lemma_noise_step_bounds(*config, raw);
    }
    let sum: i128 = acc + step as i128;
    sum + (-sum) / (config.noise_decay as i128)
}

/// The noise after all of `samples`.
pub fn noise_after(config: &Config, samples: &[u32]) -> (acc: i128)
    requires
        config.wf(),
    ensures
        acc == noise_level(*config, samples@, samples@.len()),
{
    let mut acc: i128 = 0;
    let mut k: usize = 0;
    while k < samples.len()
        invariant
            config.wf(),
            k <= samples@.len(),
            acc == noise_level(*config, samples@, k as nat),
        decreases samples@.len() - k,
    {
        proof {
            lemma_noise_level_bounds(*config, samples@, k as nat);
        }
        acc = noise_advance(config, acc, samples[k]);
        k += 1;
    }
    acc
}

/// Repaints `cell` from its mean colour and one sample for each interior
/// pixel: the frame black, the interior the mean with noise and gradient.
///
/// Where the cell reaches beyond the image the call fails with `OutOfBounds`
/// before anything is written.
pub fn render_cell_from(
    buffer: &mut Image,
    cell: Rectangle,
    mean: Color,
    config: &Config,
    samples: &[u32],
) -> (r: Result<(), Error>)
    requires
        cell.wf(),
        config.wf(),
        samples@.len() == interior_area(cell, *config),
    ensures
        final(buffer)@.wf(),
        final(buffer)@.width == old(buffer)@.width,
        final(buffer)@.height == old(buffer)@.height,
        r is Ok <==> cell.end.0 <= old(buffer)@.width && cell.end.1 <= old(buffer)@.height,
        r is Err ==> r == Err::<(), Error>(Error::OutOfBounds) && final(buffer)@ == old(buffer)@,
        r is Ok ==> is_rendering(final(buffer)@, old(buffer)@, cell, *config, mean, samples@),
        cell.area() == 0 ==> final(buffer)@ == old(buffer)@,
{
    if cell.end.0 > buffer.width() || cell.end.1 > buffer.height() {
        return Err(Error::OutOfBounds);
    }
    let ghost before = buffer@;
    let ghost icols = interior_cols(cell, *config) as int;
    let ghost irows = interior_rows(cell, *config) as int;
    let mut acc: i128 = 0;
    let mut k: usize = 0;
    let mut x: usize = cell.start.0;
    proof {
        lemma_next_column(0, irows);
    }
    while x < cell.end.0
        invariant
            buffer@.wf(),
            before.wf(),
            buffer@.width == before.width,
            buffer@.height == before.height,
            cell.wf(),
            config.wf(),
            cell.end.0 <= before.width,
            cell.end.1 <= before.height,
            cell.start.0 <= x <= cell.end.0,
            icols == interior_cols(cell, *config),
            irows == interior_rows(cell, *config),
            samples@.len() == icols * irows,
            k == cols_before(cell, *config, x as int) * irows,
            acc == noise_level(*config, samples@, k as nat),
            forall|px: int, py: int|
                before.in_bounds(px, py) ==> #[trigger] buffer@.at(px, py) == if cell.contains(
                    px,
                    py,
                ) && px < x {
                    painted(cell, *config, mean, samples@, px, py)
                } else {
                    before.at(px, py)
                },
        decreases cell.end.0 - x,
    {
        let ghost col_base = k as int;
        let ghost col_inside = cell.start.0 + config.border_leading <= x < cell.end.0
            - config.border_trailing;
        let mut y: usize = cell.start.1;
        while y < cell.end.1
            invariant
                buffer@.wf(),
                before.wf(),
                buffer@.width == before.width,
                buffer@.height == before.height,
                cell.wf(),
                config.wf(),
                cell.end.0 <= before.width,
                cell.end.1 <= before.height,
                cell.start.0 <= x < cell.end.0,
                cell.start.1 <= y <= cell.end.1,
                icols == interior_cols(cell, *config),
                irows == interior_rows(cell, *config),
                samples@.len() == icols * irows,
                col_inside == (cell.start.0 + config.border_leading <= x < cell.end.0
                    - config.border_trailing),
                col_base == cols_before(cell, *config, x as int) * irows,
                k == col_base + if col_inside {
                    rows_before(cell, *config, y as int)
                } else {
                    0
                },
                acc == noise_level(*config, samples@, k as nat),
                forall|px: int, py: int|
                    before.in_bounds(px, py) ==> #[trigger] buffer@.at(px, py) == if cell.contains(
                        px,
                        py,
                    ) && (px < x || (px == x && py < y)) {
                        painted(cell, *config, mean, samples@, px, py)
                    } else {
                        before.at(px, py)
                    },
            decreases cell.end.1 - y,
        {
            let color = if is_border_pixel(&cell, config, x, y) {
                Color { r: 0, g: 0, b: 0, a: ONE }
            } else {
                proof {
                    lemma_interior_index_in_range(
                        icols,
                        irows,
                        x - (cell.start.0 + config.border_leading),
                        y - (cell.start.1 + config.border_leading),
                    );
                    assert(k == interior_index(cell, *config, x as int, y as int));
                    lemma_noise_level_bounds(*config, samples@, k as nat);
                    assert(k * HALF <= 0xffff_ffff_ffff_ffff * HALF) by (nonlinear_arith)
                        requires
                            0 <= k <= 0xffff_ffff_ffff_ffff,
                    ;
                }
                acc = noise_advance(config, acc, samples[k]);
                k = k + 1;
                let shade = gradient_at(&cell, config, y);
                Color {
                    r: composite_channel(mean.r, acc, shade),
                    g: composite_channel(mean.g, acc, shade),
                    b: composite_channel(mean.b, acc, shade),
                    a: ONE,
                }
            };
            assert(color == painted(cell, *config, mean, samples@, x as int, y as int));
            let ghost prev = buffer@;
            buffer.put(x, y, color);
            proof {
                lemma_with_pixel(prev, x as int, y as int, color);
                assert forall|px: int, py: int| before.in_bounds(px, py) implies #[trigger] buffer@.at(
                    px,
                    py,
                ) == if cell.contains(px, py) && (px < x || (px == x && py <= y)) {
                    painted(cell, *config, mean, samples@, px, py)
                } else {
                    before.at(px, py)
                } by {
                    if px != x || py != y {
                        assert(prev.in_bounds(px, py));
                        assert(buffer@.at(px, py) == prev.at(px, py));
                    }
                }
            }
            y += 1;
        }
        proof {
            lemma_next_column(cols_before(cell, *config, x as int), irows);
        }
        x += 1;
    }
    proof {
        if cell.area() == 0 {
            lemma_rendering_empty_cell(buffer@, before, cell, *config, mean, samples@);
        }
    }
    Ok(())
}

/// The number of indices of `lo..hi` that lie inside a frame of `leading` and
/// `trailing` indices.
fn inner_span(lo: usize, hi: usize, leading: usize, trailing: usize) -> (n: usize)
    requires
        lo <= hi,
    ensures
        n == if (hi - trailing) - (lo + leading) > 0 {
            (hi - trailing) - (lo + leading)
        } else {
            0
        },
        n <= hi - lo,
{
    let outer: usize = hi - lo;
    if leading >= outer {
        0
    } else if trailing >= outer - leading {
        0
    } else {
        outer - leading - trailing
    }
}

/// The number of samples that rendering `cell` spends, where it fits a
/// `usize`.
pub fn interior_count(cell: &Rectangle, config: &Config) -> (count: Option<usize>)
    requires
        cell.wf(),
    ensures
        interior_area(*cell, *config) <= usize::MAX ==> count == Some(
            interior_area(*cell, *config) as usize,
        ),
        interior_area(*cell, *config) > usize::MAX ==> count is None,
{
    let cols: usize = inner_span(
        cell.start.0,
        cell.end.0,
        config.border_leading,
        config.border_trailing,
    );
    let rows: usize = inner_span(
        cell.start.1,
        cell.end.1,
        config.border_leading,
        config.border_trailing,
    );
    cols.checked_mul(rows)
}

proof fn lemma_area_fits(a: int, b: int, c: int, d: int)
    by (nonlinear_arith)
    requires
        0 <= a <= c,
        0 <= b <= d,
    ensures
        a * b <= c * d,
{
}

/// Repaints `cell` from its mean colour, with one number drawn from `rng` for
/// each interior pixel in the order of painting.
///
/// Where the cell reaches beyond the image the call fails with `OutOfBounds`
/// before anything is drawn or written.
pub fn render_cell<R: RandomSource>(
    buffer: &mut Image,
    cell: Rectangle,
    mean: Color,
    config: &Config,
    rng: &mut R,
) -> (r: Result<(), Error>)
    requires
        cell.wf(),
        config.wf(),
    ensures
        final(buffer)@.wf(),
        final(buffer)@.width == old(buffer)@.width,
        final(buffer)@.height == old(buffer)@.height,
        r is Ok <==> cell.end.0 <= old(buffer)@.width && cell.end.1 <= old(buffer)@.height,
        r is Err ==> r == Err::<(), Error>(Error::OutOfBounds) && final(buffer)@ == old(buffer)@,
        r is Ok ==> exists|samples: Seq<u32>|
            samples.len() == interior_area(cell, *config) && #[trigger] is_rendering(
                final(buffer)@,
                old(buffer)@,
                cell,
                *config,
                mean,
                samples,
            ),
        cell.area() == 0 ==> final(buffer)@ == old(buffer)@,
{
    if cell.end.0 > buffer.width() || cell.end.1 > buffer.height() {
        return Err(Error::OutOfBounds);
    }
    let cols: usize = inner_span(
        cell.start.0,
        cell.end.0,
        config.border_leading,
        config.border_trailing,
    );
    let rows: usize = inner_span(
        cell.start.1,
        cell.end.1,
        config.border_leading,
        config.border_trailing,
    );
    proof {
        lemma_area_fits(cols as int, rows as int, buffer@.width as int, buffer@.height as int);
    }
    let samples: Vec<u32> = draw_samples(rng, cols * rows);
    render_cell_from(buffer, cell, mean, config, samples.as_slice())
}

} // verus!
