//! The whole effect: strips, cells, mean colours and repainting.

use vstd::prelude::*;
use crate::color::{Color, ONE};
use crate::config::Config;
use crate::error::Error;
use crate::geometry::{lemma_area_zero, Rectangle};
use crate::image::{lemma_view_equal, Image, ImageView};
use crate::partition::{is_drawn_from, is_partition, lemma_row_has_cell, Partition};
use crate::random::RandomSource;
use crate::render::{interior_area, is_rendering, painted, render_cell};
use crate::stats::{get_mean_color_rect, lemma_mean_color_agrees, mean_color};

verus! {

/// The number of columns that full strips of `strip_width` cover in an image
/// of `width` columns. What is left at the right is narrower than a strip and
/// is not touched.
pub open spec fn covered_width(width: nat, strip_width: usize) -> nat {
    ((width / strip_width as nat) * strip_width) as nat
}

/// The colour is one that rendering paints: opaque, with red, green and blue
/// in `0..=ONE`.
pub open spec fn is_rendered(c: Color) -> bool {
    &&& 0 <= c.r <= ONE
    &&& 0 <= c.g <= ONE
    &&& 0 <= c.b <= ONE
    &&& c.a == ONE
}

/// Cell `index` of strip `strip`: the strip's columns and the rows between
/// two neighbouring points.
pub open spec fn strip_cell(config: Config, strip: int, points: Seq<usize>, index: int) -> Rectangle {
    Rectangle {
        start: ((strip * config.strip_width) as usize, points[index]),
        end: (((strip + 1) * config.strip_width) as usize, points[index + 1]),
    }
}

/// Every pixel of `cell` has in `after` the colour that rendering gives it
/// from the cell's mean colour in `before` and from `samples`, one sample for
/// each interior pixel.
pub open spec fn cell_is_painted(
    after: ImageView,
    before: ImageView,
    config: Config,
    cell: Rectangle,
    samples: Seq<u32>,
) -> bool {
    &&& samples.len() == interior_area(cell, config)
    &&& forall|x: int, y: int|
        cell.contains(x, y) ==> #[trigger] after.at(x, y) == painted(
            cell,
            config,
            mean_color(before, cell.start, cell.end),
            samples,
            x,
            y,
        )
}

/// The cells that `points` cut out of strip `strip` are painted in `after`,
/// cell `i` with the samples `noise[i]`.
pub open spec fn strip_is_painted(
    after: ImageView,
    before: ImageView,
    config: Config,
    strip: int,
    points: Seq<usize>,
    noise: Seq<Seq<u32>>,
) -> bool {
    &&& noise.len() == points.len() - 1
    &&& forall|i: int|
        0 <= i < noise.len() ==> #[trigger] cell_is_painted(
            after,
            before,
            config,
            strip_cell(config, strip, points, i),
            noise[i],
        )
}

/// What was drawn for one strip.
pub struct StripDraws {
    /// The draws that gave the partition: the split count, then each split.
    pub splits: Seq<u32>,
    /// The partition of the strip's rows.
    pub points: Seq<usize>,
    /// For each cell, the samples spent on its interior.
    pub noise: Seq<Seq<u32>>,
}

/// `after` is what the effect makes of `before` when the random source gives
/// `draws`, strip by strip: each strip is partitioned as its draws say, each
/// cell is painted from its own mean colour in `before`, and the columns to
/// the right of the last full strip are kept.
pub open spec fn is_run_outcome(
    after: ImageView,
    before: ImageView,
    config: Config,
    draws: Seq<StripDraws>,
) -> bool {
    &&& after.wf()
    &&& after.width == before.width
    &&& after.height == before.height
    &&& draws.len() == before.width / config.strip_width as nat
    &&& forall|s: int|
        0 <= s < draws.len() ==> {
            &&& is_partition((#[trigger] draws[s]).points, draws[s].points.last())
            &&& draws[s].points.last() == before.height
            &&& is_drawn_from(
                draws[s].points,
                draws[s].points.last(),
                config.split_min,
                config.split_max,
                draws[s].splits,
            )
            &&& strip_is_painted(after, before, config, s, draws[s].points, draws[s].noise)
        }
    &&& forall|x: int, y: int|
        before.in_bounds(x, y) && x >= covered_width(before.width, config.strip_width)
            ==> #[trigger] after.at(x, y) == before.at(x, y)
}

/// Every painted colour is a rendered one.
pub proof fn lemma_painted_is_rendered(
    cell: Rectangle,
    config: Config,
    mean: Color,
    samples: Seq<u32>,
    x: int,
    y: int,
)
    ensures
        is_rendered(painted(cell, config, mean, samples, x, y)),
{
}

/// Repaints `cell` from its own mean colour, with numbers drawn from `rng`.
/// A cell without pixels has no mean colour and is left as it is.
///
/// Where the cell reaches beyond the image the call fails with `OutOfBounds`
/// before anything is drawn or written.
pub fn repaint_cell<R: RandomSource>(
    buffer: &mut Image,
    cell: Rectangle,
    config: &Config,
    rng: &mut R,
) -> (r: Result<(), Error>)
    requires
        cell.wf(),
        config.wf(),
    ensures
        final(buffer)@.wf(),
        final(buffer)@.width == old(buffer)@.width,
        final(buffer)@.height == old(buffer)@.height,
        r is Ok <==> cell.end.0 <= old(buffer)@.width && cell.end.1 <= old(buffer)@.height,
        r is Err ==> r == Err::<(), Error>(Error::OutOfBounds) && final(buffer)@ == old(buffer)@,
        cell.area() == 0 ==> final(buffer)@ == old(buffer)@,
        r is Ok && cell.area() > 0 ==> exists|samples: Seq<u32>|
            samples.len() == interior_area(cell, *config) && #[trigger] is_rendering(
                final(buffer)@,
                old(buffer)@,
                cell,
                *config,
                mean_color(old(buffer)@, cell.start, cell.end),
                samples,
            ),
{
    match get_mean_color_rect(buffer, cell.start, cell.end) {
        Ok(mean) => render_cell(buffer, cell, mean, config, rng),
        Err(Error::EmptyRegion) => Ok(()),
        Err(e) => Err(e),
    }
}

proof fn lemma_strip_fits(width: int, strip_width: int, strip: int)
    by (nonlinear_arith)
    requires
        0 < strip_width,
        0 <= width,
        0 <= strip < width / strip_width,
    ensures
        0 <= strip * strip_width,
        (strip + 1) * strip_width == strip * strip_width + strip_width,
        (strip + 1) * strip_width <= (width / strip_width) * strip_width,
        (width / strip_width) * strip_width <= width,
{
}

proof fn lemma_strips_ordered(strip_width: int, earlier: int, later: int)
    by (nonlinear_arith)
    requires
        0 < strip_width,
        0 <= earlier < later,
    ensures
        0 <= earlier * strip_width,
        (earlier + 1) * strip_width <= later * strip_width,
{
}

/// Repaints the cells that `partition` cuts out of strip `strip`, from the
/// top down, each from its own mean colour.
fn render_strip<R: RandomSource>(
    buffer: &mut Image,
    config: &Config,
    strip: usize,
    partition: &Partition,
    rng: &mut R,
)
    requires
        config.wf(),
        (strip + 1) * config.strip_width <= old(buffer)@.width,
        partition@.last() == old(buffer)@.height,
    ensures
        final(buffer)@.wf(),
        final(buffer)@.width == old(buffer)@.width,
        final(buffer)@.height == old(buffer)@.height,
        exists|noise: Seq<Seq<u32>>| #[trigger]
            strip_is_painted(final(buffer)@, old(buffer)@, *config, strip as int, partition@, noise),
        forall|x: int, y: int|
            old(buffer)@.in_bounds(x, y) && !(strip * config.strip_width <= x < (strip + 1)
                * config.strip_width) ==> #[trigger] final(buffer)@.at(x, y) == old(buffer)@.at(
                x,
                y,
            ),
{
    let width: usize = buffer.width();
    let height: usize = buffer.height();
    let count: usize = partition.len();
    proof {
        lemma_strips_ordered(config.strip_width as int, strip as int, strip + 1);
        assert((strip + 1) * config.strip_width == strip * config.strip_width
            + config.strip_width) by (nonlinear_arith);
    }
    let left: usize = strip * config.strip_width;
    let right: usize = left + config.strip_width;
    let ghost before = buffer@;
    let ghost points = partition@;
    let ghost mut noise: Seq<Seq<u32>> = Seq::empty();
    let mut index: usize = 0;
    while index + 1 < count
        invariant
            config.wf(),
            before.wf(),
            buffer@.wf(),
            buffer@.width == before.width,
            buffer@.height == before.height,
            height == before.height,
            points == partition@,
            is_partition(points, height),
            count == points.len(),
            index + 1 <= count,
            left == strip * config.strip_width,
            right == (strip + 1) * config.strip_width,
            left < right <= before.width,
            noise.len() == index,
            forall|i: int|
                0 <= i < index ==> #[trigger] cell_is_painted(
                    buffer@,
                    before,
                    *config,
                    strip_cell(*config, strip as int, points, i),
                    noise[i],
                ),
            forall|x: int, y: int|
                before.in_bounds(x, y) && !(left <= x < right && y < points[index as int])
                    ==> #[trigger] buffer@.at(x, y) == before.at(x, y),
        decreases count - index,
    {
        let top: usize = partition.point(index).unwrap();
        let bottom: usize = partition.point(index + 1).unwrap();
        assert(top <= bottom <= height);
        let cell = Rectangle { start: (left, top), end: (right, bottom) };
        assert(cell == strip_cell(*config, strip as int, points, index as int));
        let ghost prev = buffer@;
        let done = repaint_cell(buffer, cell, config, rng);
        assert(done is Ok);
        proof {
            lemma_area_zero(cell.start, cell.end);
            lemma_mean_color_agrees(prev, before, cell.start, cell.end);
            let samples = if cell.area() > 0 {
                choose|samples: Seq<u32>|
                    samples.len() == interior_area(cell, *config) && #[trigger] is_rendering(
                        buffer@,
                        prev,
                        cell,
                        *config,
                        mean_color(prev, cell.start, cell.end),
                        samples,
                    )
            } else {
                Seq::<u32>::empty()
            };
            if cell.area() == 0 {
                assert(interior_area(cell, *config) == 0) by (nonlinear_arith)
                    requires
                        crate::render::interior_rows(cell, *config) == 0,
                        interior_area(cell, *config) == crate::render::interior_cols(cell, *config)
                            * crate::render::interior_rows(cell, *config),
                ;
            }
            assert(cell_is_painted(buffer@, before, *config, cell, samples)) by {
                assert forall|x: int, y: int| cell.contains(x, y) implies #[trigger] buffer@.at(
                    x,
                    y,
                ) == painted(
                    cell,
                    *config,
                    mean_color(before, cell.start, cell.end),
                    samples,
                    x,
                    y,
                ) by {
                    assert(prev.in_bounds(x, y));
                }
            }
            let longer = noise.push(samples);
            assert forall|i: int| 0 <= i < index + 1 implies #[trigger] cell_is_painted(
                buffer@,
                before,
                *config,
                strip_cell(*config, strip as int, points, i),
                longer[i],
            ) by {
                if i < index {
                    let earlier = strip_cell(*config, strip as int, points, i);
                    assert(cell_is_painted(prev, before, *config, earlier, noise[i]));
                    assert(points[i + 1] <= points[index as int]);
                    assert forall|x: int, y: int| earlier.contains(x, y) implies #[trigger] buffer@.at(
                        x,
                        y,
                    ) == prev.at(x, y) by {
                        assert(points[i + 1] <= points[count - 1]);
                        assert(prev.in_bounds(x, y));
                        assert(!cell.contains(x, y));
                    }
                }
            }
            noise = longer;
            assert forall|x: int, y: int|
                before.in_bounds(x, y) && !(left <= x < right && y < bottom) implies #[trigger] buffer@.at(
                x,
                y,
            ) == before.at(x, y) by {
                assert(prev.in_bounds(x, y));
                assert(!cell.contains(x, y));
                assert(buffer@.at(x, y) == prev.at(x, y));
            }
        }
        index += 1;
    }
    proof {
        assert(strip_is_painted(buffer@, before, *config, strip as int, points, noise));
    }
}

proof fn lemma_strip_kept(
    earlier: ImageView,
    later: ImageView,
    before: ImageView,
    config: Config,
    strip: int,
    points: Seq<usize>,
    noise: Seq<Seq<u32>>,
)
    requires
        config.wf(),
        0 <= strip,
        (strip + 1) * config.strip_width <= before.width <= usize::MAX,
        is_partition(points, points.last()),
        points.last() == before.height,
        strip_is_painted(earlier, before, config, strip, points, noise),
        forall|x: int, y: int|
            before.in_bounds(x, y) && x < (strip + 1) * config.strip_width ==> later.at(x, y)
                == earlier.at(x, y),
    ensures
        strip_is_painted(later, before, config, strip, points, noise),
{
    lemma_strips_ordered(config.strip_width as int, strip, strip + 1);
    assert forall|i: int| 0 <= i < noise.len() implies #[trigger] cell_is_painted(
        later,
        before,
        config,
        strip_cell(config, strip, points, i),
        noise[i],
    ) by {
        let cell = strip_cell(config, strip, points, i);
        assert(cell_is_painted(earlier, before, config, cell, noise[i]));
        assert forall|x: int, y: int| cell.contains(x, y) implies #[trigger] later.at(x, y)
            == earlier.at(x, y) by {
            assert(points[i + 1] <= points[points.len() - 1]);
            assert(before.in_bounds(x, y));
        }
    }
}

/// Renders the effect on the whole image.
///
/// The image is cut into `width / strip_width` strips from the left. Each
/// strip gets a random partition of its rows, and each cell of it is repainted
/// from its own mean colour. Columns to the right of the last full strip stay
/// as they are.
pub fn run<R: RandomSource>(buffer: &mut Image, config: &Config, rng: &mut R)
    requires
        config.wf(),
    ensures
        exists|draws: Seq<StripDraws>| #[trigger]
            is_run_outcome(final(buffer)@, old(buffer)@, *config, draws),
        final(buffer)@.wf(),
        final(buffer)@.width == old(buffer)@.width,
        final(buffer)@.height == old(buffer)@.height,
        forall|x: int, y: int|
            old(buffer)@.in_bounds(x, y) && x >= covered_width(
                old(buffer)@.width,
                config.strip_width,
            ) ==> #[trigger] final(buffer)@.at(x, y) == old(buffer)@.at(x, y),
        old(buffer)@.width < config.strip_width ==> final(buffer)@ == old(buffer)@,
{
    let width: usize = buffer.width();
    let height: usize = buffer.height();
    let strips: usize = width / config.strip_width;
    let ghost before = buffer@;
    let ghost mut draws: Seq<StripDraws> = Seq::empty();
    let mut strip: usize = 0;
    while strip < strips
        invariant
            config.wf(),
            before.wf(),
            buffer@.wf(),
            buffer@.width == before.width,
            buffer@.height == before.height,
            width == before.width,
            height == before.height,
            strips == width / config.strip_width,
            strip <= strips,
            draws.len() == strip,
            forall|s: int|
                0 <= s < strip ==> {
                    &&& is_partition((#[trigger] draws[s]).points, draws[s].points.last())
                    &&& draws[s].points.last() == before.height
                    &&& is_drawn_from(
                        draws[s].points,
                        draws[s].points.last(),
                        config.split_min,
                        config.split_max,
                        draws[s].splits,
                    )
                    &&& strip_is_painted(
                        buffer@,
                        before,
                        *config,
                        s,
                        draws[s].points,
                        draws[s].noise,
                    )
                },
            forall|x: int, y: int|
                before.in_bounds(x, y) && x >= strip * config.strip_width
                    ==> #[trigger] buffer@.at(x, y) == before.at(x, y),
        decreases strips - strip,
    {
        proof {
            lemma_strip_fits(width as int, config.strip_width as int, strip as int);
        }
        let partition = Partition::generate(height, config.split_min, config.split_max, rng);
        let ghost prev = buffer@;
        render_strip(buffer, config, strip, &partition, rng);
        proof {
            let splits = choose|splits: Seq<u32>| #[trigger]
                is_drawn_from(
                    partition@,
                    height,
                    config.split_min,
                    config.split_max,
                    splits,
                );
            let noise = choose|noise: Seq<Seq<u32>>| #[trigger]
                strip_is_painted(buffer@, prev, *config, strip as int, partition@, noise);
            let this = StripDraws { splits, points: partition@, noise };
            let longer = draws.push(this);
            assert(strip_is_painted(buffer@, before, *config, strip as int, partition@, noise))
                by {
                assert forall|i: int| 0 <= i < noise.len() implies #[trigger] cell_is_painted(
                    buffer@,
                    before,
                    *config,
                    strip_cell(*config, strip as int, partition@, i),
                    noise[i],
                ) by {
                    let cell = strip_cell(*config, strip as int, partition@, i);
                    assert(cell_is_painted(buffer@, prev, *config, cell, noise[i]));
                    assert(partition@[i + 1] <= partition@[partition@.len() - 1]);
                    lemma_mean_color_agrees(prev, before, cell.start, cell.end);
                }
            }
            assert forall|s: int| 0 <= s < strip + 1 implies {
                &&& is_partition((#[trigger] longer[s]).points, longer[s].points.last())
                &&& longer[s].points.last() == before.height
                &&& is_drawn_from(
                    longer[s].points,
                    longer[s].points.last(),
                    config.split_min,
                    config.split_max,
                    longer[s].splits,
                )
                &&& strip_is_painted(
                    buffer@,
                    before,
                    *config,
                    s,
                    longer[s].points,
                    longer[s].noise,
                )
            } by {
                if s < strip {
                    lemma_strips_ordered(config.strip_width as int, s, strip as int);
                    lemma_strip_fits(width as int, config.strip_width as int, s);
                    assert(draws[s] == longer[s]);
                    lemma_strip_kept(
                        prev,
                        buffer@,
                        before,
                        *config,
                        s,
                        draws[s].points,
                        draws[s].noise,
                    );
                }
            }
            draws = longer;
            assert forall|x: int, y: int|
                before.in_bounds(x, y) && x >= (strip + 1)
                    * config.strip_width implies #[trigger] buffer@.at(x, y) == before.at(
                x,
                y,
            ) by {
                assert(prev.in_bounds(x, y));
                assert(buffer@.at(x, y) == prev.at(x, y));
            }
        }
        strip += 1;
    }
    proof {
        assert(is_run_outcome(buffer@, before, *config, draws));
        if width < config.strip_width {
            assert(strips == 0 && strip * config.strip_width == 0) by (nonlinear_arith)
                requires
                    0 <= width < config.strip_width,
                    strips == width / config.strip_width,
                    0 <= strip <= strips,
            ;
            assert forall|x: int, y: int| buffer@.in_bounds(x, y) implies buffer@.at(x, y)
                == before.at(x, y) by {
                assert(before.in_bounds(x, y));
            }
            lemma_view_equal(buffer@, before);
        }
    }
}

/// Where the effect has run, every pixel of the full strips is a rendered
/// colour.
pub proof fn lemma_run_outcome_is_rendered(
    after: ImageView,
    before: ImageView,
    config: Config,
    draws: Seq<StripDraws>,
    x: int,
    y: int,
)
    requires
        config.wf(),
        before.width <= usize::MAX,
        is_run_outcome(after, before, config, draws),
        before.in_bounds(x, y),
        x < covered_width(before.width, config.strip_width),
    ensures
        is_rendered(after.at(x, y)),
{
    let sw = config.strip_width as int;
    let s = x / sw;
    let w = before.width as int;
    assert(0 <= s < w / sw && s * sw <= x < (s + 1) * sw && (s + 1) * sw <= w)
        by (nonlinear_arith)
        requires
            0 < sw,
            0 <= w,
            0 <= x < (w / sw) * sw,
            s == x / sw,
    ;
    let d = draws[s];
    let i = lemma_row_has_cell(d.points, y);
    let cell = strip_cell(config, s, d.points, i);
    assert(cell_is_painted(after, before, config, cell, d.noise[i]));
    assert(cell.contains(x, y));
    lemma_painted_is_rendered(
        cell,
        config,
        mean_color(before, cell.start, cell.end),
        d.noise[i],
        x,
        y,
    );
}

} // verus!
