//! How the heat of one cell spreads to the row above it.

use crate::grid::PixelArray;
use crate::grid::lemma_rows_of;
use crate::random::draw_step;
use crate::random::is_step;
use rand::rngs::ThreadRng;
use vstd::prelude::*;

verus! {

/// The three ways heat can rise.
#[derive(Clone, Copy, Debug, PartialEq, Eq, Structural)]
pub enum AnimationType {
    /// Heat rises straight up and always cools by one level.
    Uniform,
    /// Heat rises straight up and cools by one level or not at all.
    VerticalRand,
    /// Heat drifts to the left while it rises and cools by one level or not
    /// at all.
    TwoAxesRand,
}

/// Column that the heat of column `col` rises to for a given step: it drifts
/// `step - 1` columns to the left, but stays in place near the left edge.
pub open spec fn jitter_dest(col: int, step: int) -> int {
    if col < step + 1 {
        col
    } else {
        col - step + 1
    }
}

/// Levels that rising heat loses for a given step: none for an even step, one
/// for an odd step.
pub open spec fn cooling_offset(step: int) -> int {
    if step % 2 == 0 {
        0
    } else {
        1
    }
}

impl AnimationType {
    /// Column that the heat of column `col` rises to.
    pub open spec fn dest_col(self, col: int, step: int) -> int {
        match self {
            AnimationType::TwoAxesRand => jitter_dest(col, step),
            _ => col,
        }
    }

    /// Levels that rising heat loses.
    pub open spec fn cooling(self, step: int) -> int {
        match self {
            AnimationType::Uniform => 1,
            _ => cooling_offset(step),
        }
    }
}

/// Cell (`row`, `col`) exists, is not in the top row, and the row above it
/// reaches as far as column `col`.
pub open spec fn can_spread(g: Seq<Seq<usize>>, row: int, col: int) -> bool {
    1 <= row < g.len() && 0 <= col < g[row].len() && col < g[row - 1].len()
}

/// The grid after the heat of cell (`row`, `col`) has risen: a cold cell
/// changes nothing; a burning one overwrites column `dest` of the row above
/// with its own heat less `cooling`.
pub open spec fn heat_risen(g: Seq<Seq<usize>>, row: int, col: int, dest: int, cooling: int) -> Seq<
    Seq<usize>,
> {
    let heat = g[row][col];
    if heat > 0 {
        g.update(row - 1, g[row - 1].update(dest, (heat - cooling) as usize))
    } else {
        g
    }
}

/// The grid after the heat of cell (`row`, `col`) has risen straight up and
/// cooled by one level.
pub open spec fn uniform_cell(g: Seq<Seq<usize>>, row: int, col: int) -> Seq<Seq<usize>> {
    heat_risen(g, row, col, col, 1)
}

/// The grid after the heat of cell (`row`, `col`) has risen straight up and
/// cooled as the step says.
pub open spec fn vertical_cell(g: Seq<Seq<usize>>, step: usize, row: int, col: int) -> Seq<
    Seq<usize>,
> {
    heat_risen(g, row, col, col, cooling_offset(step as int))
}

/// The grid after the heat of cell (`row`, `col`) has risen, drifted and
/// cooled as the step says.
pub open spec fn two_axes_cell(g: Seq<Seq<usize>>, step: usize, row: int, col: int) -> Seq<
    Seq<usize>,
> {
    heat_risen(g, row, col, jitter_dest(col, step as int), cooling_offset(step as int))
}

/// One cell of the given animation: the grid after the heat of cell
/// (`row`, `col`) has risen with the given step. The uniform animation takes
/// no notice of the step.
pub open spec fn spread_cell(
    g: Seq<Seq<usize>>,
    animation: AnimationType,
    step: usize,
    row: int,
    col: int,
) -> Seq<Seq<usize>> {
    match animation {
        AnimationType::Uniform => uniform_cell(g, row, col),
        AnimationType::VerticalRand => vertical_cell(g, step, row, col),
        AnimationType::TwoAxesRand => two_axes_cell(g, step, row, col),
    }
}

/// The heat of the leftmost column never leaves it: whatever the step, it
/// rises to column 0, and not to a column left of it.
pub proof fn lemma_jitter_at_left_edge(step: nat)
    ensures
        jitter_dest(0, step as int) == 0,
{
}

/// Heat drifts to the left only, by at most `step - 1` columns and never
/// beyond column 0.
pub proof fn lemma_jitter_stays_in_row(col: nat, step: nat)
    requires
        step >= 1,
    ensures
        0 <= jitter_dest(col as int, step as int) <= col,
        col - jitter_dest(col as int, step as int) <= step - 1,
{
}

/// Writes `heat` to cell (`row`, `col`).
fn set_pixel(pixels: &mut PixelArray, row: usize, col: usize, heat: usize)
    requires
        row < old(pixels).deep_view().len(),
        col < old(pixels).deep_view()[row as int].len(),
    ensures
        final(pixels).deep_view() == old(pixels).deep_view().update(
            row as int,
            old(pixels).deep_view()[row as int].update(col as int, heat),
        ),
{
    proof {
        lemma_rows_of(pixels);
    }
    pixels[row][col] = heat;
    proof {
        lemma_rows_of(pixels);
        assert(pixels.deep_view() =~= old(pixels).deep_view().update(
            row as int,
            old(pixels).deep_view()[row as int].update(col as int, heat),
        ));
    }
}

/// Reads the heat of cell (`row`, `col`).
fn get_pixel(pixels: &PixelArray, row: usize, col: usize) -> (heat: usize)
    requires
        row < pixels.deep_view().len(),
        col < pixels.deep_view()[row as int].len(),
    ensures
        heat == pixels.deep_view()[row as int][col as int],
{
    proof {
        lemma_rows_of(pixels);
    }
    pixels[row][col]
}

/// Lets the heat of cell (`row`, `col`) rise straight up, one level cooler.
/// A cold cell changes nothing.
pub fn spread_fire_uniform(pixels: &mut PixelArray, row: usize, col: usize)
    requires
        can_spread(old(pixels).deep_view(), row as int, col as int),
    ensures
        final(pixels).deep_view() == uniform_cell(old(pixels).deep_view(), row as int, col as int),
{
    let prev_pixel = get_pixel(pixels, row, col);
    if prev_pixel > 0 {
        set_pixel(pixels, row - 1, col, prev_pixel - 1);
    }
}

/// Lets the heat of cell (`row`, `col`) rise straight up with a given step:
/// one level cooler for an odd step, as hot as it was for an even one.
/// A cold cell changes nothing.
pub fn spread_fire_vertical_with(pixels: &mut PixelArray, step: usize, row: usize, col: usize)
    requires
        is_step(step),
        can_spread(old(pixels).deep_view(), row as int, col as int),
    ensures
        final(pixels).deep_view() == vertical_cell(
            old(pixels).deep_view(),
            step,
            row as int,
            col as int,
        ),
{
    let prev_pixel = get_pixel(pixels, row, col);
    if prev_pixel > 0 {
        let offset: usize = if step % 2 == 0 {
            0
        } else {
            1
        };
        set_pixel(pixels, row - 1, col, prev_pixel - offset);
    }
}

/// Lets the heat of cell (`row`, `col`) rise with a given step: it lands
/// `step - 1` columns to the left (in its own column near the left edge), one
/// level cooler for an odd step, as hot as it was for an even one.
/// A cold cell changes nothing.
pub fn spread_fire_two_axes_with(pixels: &mut PixelArray, step: usize, row: usize, col: usize)
    requires
        is_step(step),
        can_spread(old(pixels).deep_view(), row as int, col as int),
    ensures
        final(pixels).deep_view() == two_axes_cell(
            old(pixels).deep_view(),
            step,
            row as int,
            col as int,
        ),
{
    let prev_pixel = get_pixel(pixels, row, col);
    let dest_col = if col < step + 1 {
        col
    } else {
        col - step + 1
    };
    if prev_pixel > 0 {
        let pixel_offset: usize = if step % 2 == 0 {
            0
        } else {
            1
        };
        set_pixel(pixels, row - 1, dest_col, prev_pixel - pixel_offset);
    }
}

/// Lets the heat of cell (`row`, `col`) rise straight up, with a step drawn
/// from `rng` if the cell burns.
pub fn spread_fire_vertical_rand(
    pixels: &mut PixelArray,
    rng: &mut ThreadRng,
    row: usize,
    col: usize,
)
    requires
        can_spread(old(pixels).deep_view(), row as int, col as int),
    ensures
        exists|step: usize|
            is_step(step) && final(pixels).deep_view() == #[trigger] vertical_cell(
                old(pixels).deep_view(),
                step,
                row as int,
                col as int,
            ),
{
    if get_pixel(pixels, row, col) > 0 {
        let step = draw_step(rng);
        spread_fire_vertical_with(pixels, step, row, col);
    } else {
        assert(is_step(1));
        assert(pixels.deep_view() == vertical_cell(old(pixels).deep_view(), 1, row as int, col as int));
    }
}

/// Lets the heat of cell (`row`, `col`) rise and drift, with a step drawn
/// from `rng` if the cell burns.
pub fn spread_fire_two_axes(
    pixels: &mut PixelArray,
    rng: &mut ThreadRng,
    row: usize,
    col: usize,
)
    requires
        can_spread(old(pixels).deep_view(), row as int, col as int),
    ensures
        exists|step: usize|
            is_step(step) && final(pixels).deep_view() == #[trigger] two_axes_cell(
                old(pixels).deep_view(),
                step,
                row as int,
                col as int,
            ),
{
    if get_pixel(pixels, row, col) > 0 {
        let step = draw_step(rng);
        spread_fire_two_axes_with(pixels, step, row, col);
    } else {
        assert(is_step(1));
        assert(pixels.deep_view() == two_axes_cell(old(pixels).deep_view(), 1, row as int, col as int));
    }
}

} // verus!
