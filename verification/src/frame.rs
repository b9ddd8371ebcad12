//! One frame of the animation: every cell below the top row spreads once,
//! row by row from the top, and within a row from left to right.

use crate::grid::cells_below;
use crate::grid::is_rectangular;
use crate::grid::lemma_rows_of;
use crate::grid::PixelArray;
use crate::random::is_step;
use crate::spread::heat_risen;
use crate::spread::spread_cell;
use crate::spread::spread_fire_two_axes;
use crate::spread::spread_fire_two_axes_with;
use crate::spread::spread_fire_uniform;
use crate::spread::spread_fire_vertical_rand;
use crate::spread::spread_fire_vertical_with;
use crate::spread::two_axes_cell;
use crate::spread::vertical_cell;
use crate::spread::AnimationType;
use vstd::prelude::*;

verus! {

/// `steps` holds one step for every cell of `g`.
pub open spec fn steps_fit(steps: Seq<Seq<usize>>, g: Seq<Seq<usize>>) -> bool {
    &&& steps.len() == g.len()
    &&& forall|i: int| 0 <= i < g.len() ==> (#[trigger] steps[i]).len() == g[i].len()
    &&& forall|i: int, j: int|
        0 <= i < steps.len() && 0 <= j < steps[i].len() ==> is_step(#[trigger] steps[i][j])
}

/// Among the first `n` columns of the row `below`, the last burning one whose
/// heat rises to column `target`; -1 if there is none.
pub open spec fn last_source(
    below: Seq<usize>,
    steps: Seq<usize>,
    animation: AnimationType,
    target: int,
    n: int,
) -> int
    decreases n,
{
    if n <= 0 {
        -1
    } else if below[n - 1] > 0 && animation.dest_col(n - 1, steps[n - 1] as int) == target {
        n - 1
    } else {
        last_source(below, steps, animation, target, n - 1)
    }
}

/// Heat of column `target` of the row `above` once the first `n` columns of
/// the row `below` have spread: what the last of them that rose to it left
/// there, or what the cell held before if none did.
pub open spec fn risen_cell(
    above: Seq<usize>,
    below: Seq<usize>,
    steps: Seq<usize>,
    animation: AnimationType,
    target: int,
    n: int,
) -> usize {
    let source = last_source(below, steps, animation, target, n);
    if source < 0 {
        above[target]
    } else {
        (below[source] - animation.cooling(steps[source] as int)) as usize
    }
}

/// The row `above` once the first `n` columns of the row `below` have spread.
pub open spec fn risen_row(
    above: Seq<usize>,
    below: Seq<usize>,
    steps: Seq<usize>,
    animation: AnimationType,
    n: int,
) -> Seq<usize> {
    Seq::new(above.len(), |target: int| risen_cell(above, below, steps, animation, target, n))
}

/// The grid after one frame in which cell (`i`, `j`) spread with step
/// `steps[i][j]`: every row but the last holds what rose from the row below
/// it, and the last row is as it was. Every row reads the heat that the row
/// below it held when the frame began.
pub open spec fn frame_after(
    g: Seq<Seq<usize>>,
    animation: AnimationType,
    steps: Seq<Seq<usize>>,
) -> Seq<Seq<usize>> {
    Seq::new(
        g.len(),
        |i: int|
            if i + 1 < g.len() {
                risen_row(g[i], g[i + 1], steps[i + 1], animation, g[i + 1].len() as int)
            } else {
                g[i]
            },
    )
}

/// The grid in the middle of a frame, when rows 1 to `row - 1` have spread
/// and so have the first `n` columns of row `row`.
spec fn frame_partial(
    g: Seq<Seq<usize>>,
    animation: AnimationType,
    steps: Seq<Seq<usize>>,
    row: int,
    n: int,
) -> Seq<Seq<usize>> {
    Seq::new(
        g.len(),
        |i: int|
            if i + 1 < row {
                risen_row(g[i], g[i + 1], steps[i + 1], animation, g[i + 1].len() as int)
            } else if i + 1 == row {
                risen_row(g[i], g[i + 1], steps[i + 1], animation, n)
            } else {
                g[i]
            },
    )
}

/// The grid after one frame of the uniform animation: a cell above a burning
/// cell takes that cell's heat less one; every other cell keeps its own.
pub open spec fn uniform_frame(g: Seq<Seq<usize>>) -> Seq<Seq<usize>> {
    Seq::new(
        g.len(),
        |i: int|
            if i + 1 < g.len() {
                Seq::new(
                    g[i].len(),
                    |j: int|
                        if g[i + 1][j] > 0 {
                            (g[i + 1][j] - 1) as usize
                        } else {
                            g[i][j]
                        },
                )
            } else {
                g[i]
            },
    )
}

/// The grid after as many frames as `steps` has entries, frame `f` run with
/// the steps `steps[f]`.
pub open spec fn frames_after(
    g: Seq<Seq<usize>>,
    animation: AnimationType,
    steps: Seq<Seq<Seq<usize>>>,
) -> Seq<Seq<usize>>
    decreases steps.len(),
{
    if steps.len() == 0 {
        g
    } else {
        frame_after(frames_after(g, animation, steps.drop_last()), animation, steps.last())
    }
}

/// The grid after `frames` frames of the uniform animation.
pub open spec fn uniform_frames(g: Seq<Seq<usize>>, frames: nat) -> Seq<Seq<usize>>
    decreases frames,
{
    if frames == 0 {
        g
    } else {
        uniform_frame(uniform_frames(g, (frames - 1) as nat))
    }
}

/// Two grids have as many rows, and row by row as many columns.
pub open spec fn same_shape(a: Seq<Seq<usize>>, b: Seq<Seq<usize>>) -> bool {
    &&& a.len() == b.len()
    &&& forall|i: int| 0 <= i < a.len() ==> (#[trigger] a[i]).len() == b[i].len()
}

/// The last source is one of the first `n` columns, burns and rises to
/// `target`; and no later one of them does.
pub proof fn lemma_last_source(
    below: Seq<usize>,
    steps: Seq<usize>,
    animation: AnimationType,
    target: int,
    n: int,
)
    ensures
        -1 <= last_source(below, steps, animation, target, n),
        last_source(below, steps, animation, target, n) < n || n < 0,
        ({
            let source = last_source(below, steps, animation, target, n);
            source >= 0 ==> below[source] > 0 && animation.dest_col(source, steps[source] as int)
                == target
        }),
        forall|j: int|
            last_source(below, steps, animation, target, n) < j < n ==> !(below[j] > 0
                && animation.dest_col(j, #[trigger] steps[j] as int) == target),
    decreases n,
{
    if n > 0 {
        lemma_last_source(below, steps, animation, target, n - 1);
    }
}

/// The last source among the first `n` columns depends on the steps of those
/// columns only.
proof fn lemma_last_source_reads_prefix(
    below: Seq<usize>,
    steps: Seq<usize>,
    other: Seq<usize>,
    animation: AnimationType,
    target: int,
    n: int,
)
    requires
        forall|j: int| 0 <= j < n ==> steps[j] == other[j],
    ensures
        last_source(below, steps, animation, target, n) == last_source(
            below,
            other,
            animation,
            target,
            n,
        ),
    decreases n,
{
    if n > 0 {
        lemma_last_source_reads_prefix(below, steps, other, animation, target, n - 1);
    }
}

/// Where heat rises straight up, the only source of a column is the cell
/// right below it.
proof fn lemma_last_source_straight(
    below: Seq<usize>,
    steps: Seq<usize>,
    animation: AnimationType,
    target: int,
    n: int,
)
    requires
        animation != AnimationType::TwoAxesRand,
    ensures
        last_source(below, steps, animation, target, n) == if 0 <= target < n && below[target]
            > 0 {
            target
        } else {
            -1
        },
    decreases n,
{
    if n > 0 {
        lemma_last_source_straight(below, steps, animation, target, n - 1);
    }
}

/// When cell (`row`, `col`) spreads with `step`, the frame moves on by one
/// column of that row.
proof fn lemma_cell_advances(
    g: Seq<Seq<usize>>,
    animation: AnimationType,
    steps: Seq<Seq<usize>>,
    row: int,
    col: int,
    step: usize,
)
    requires
        is_rectangular(g),
        steps_fit(steps, g),
        1 <= row < g.len(),
        0 <= col < g[0].len(),
        is_step(step),
    ensures
        steps_fit(steps.update(row, steps[row].update(col, step)), g),
        spread_cell(frame_partial(g, animation, steps, row, col), animation, step, row, col)
            == frame_partial(
            g,
            animation,
            steps.update(row, steps[row].update(col, step)),
            row,
            col + 1,
        ),
{
    let before = frame_partial(g, animation, steps, row, col);
    let moved = steps.update(row, steps[row].update(col, step));
    let after = frame_partial(g, animation, moved, row, col + 1);
    let dest = animation.dest_col(col, step as int);
    let cooling = animation.cooling(step as int);
    let below = g[row];
    assert(g[row].len() == g[0].len());
    assert(g[row - 1].len() == g[0].len());
    assert(steps[row].len() == g[row].len());
    assert(before[row] == below);
    assert(0 <= dest <= col);
    assert(spread_cell(before, animation, step, row, col) == heat_risen(
        before,
        row,
        col,
        dest,
        cooling,
    ));
    let risen = heat_risen(before, row, col, dest, cooling);
    assert(risen.len() == after.len());
    assert forall|i: int| 0 <= i < g.len() implies #[trigger] risen[i] =~= after[i] by {
        if i + 1 == row {
            assert forall|target: int| 0 <= target < g[i].len() implies risen[i][target]
                == after[i][target] by {
                assert(moved[row] == steps[row].update(col, step));
                assert(moved[row][col] == step);
                assert(before[i][target] == risen_cell(
                    g[i],
                    below,
                    steps[row],
                    animation,
                    target,
                    col,
                ));
                assert(after[i][target] == risen_cell(
                    g[i],
                    below,
                    moved[row],
                    animation,
                    target,
                    col + 1,
                ));
                lemma_last_source_reads_prefix(
                    below,
                    steps[row],
                    moved[row],
                    animation,
                    target,
                    col,
                );
                lemma_last_source(below, steps[row], animation, target, col);
                let earlier = last_source(below, steps[row], animation, target, col);
                let latest = last_source(below, moved[row], animation, target, col + 1);
                if below[col] > 0 && target == dest {
                    assert(latest == col);
                    assert(risen[i] == before[i].update(dest, (below[col] - cooling) as usize));
                } else {
                    assert(latest == earlier);
                    if below[col] > 0 {
                        assert(risen[i] == before[i].update(
                            dest,
                            (below[col] - cooling) as usize,
                        ));
                    } else {
                        assert(risen[i] == before[i]);
                    }
                }
            }
        } else if i + 1 < row {
            assert(moved[i + 1] == steps[i + 1]);
        }
    }
    assert(risen =~= after);
}

/// A frame has begun when no row has spread yet.
proof fn lemma_frame_begins(g: Seq<Seq<usize>>, animation: AnimationType, steps: Seq<Seq<usize>>)
    ensures
        frame_partial(g, animation, steps, 1, 0) == g,
{
    let begun = frame_partial(g, animation, steps, 1, 0);
    assert forall|i: int| 0 <= i < g.len() implies #[trigger] begun[i] =~= g[i] by {}
    assert(begun =~= g);
}

/// A row that has spread in all its columns is done, and the next row is up.
proof fn lemma_row_done(
    g: Seq<Seq<usize>>,
    animation: AnimationType,
    steps: Seq<Seq<usize>>,
    row: int,
)
    requires
        1 <= row < g.len(),
    ensures
        frame_partial(g, animation, steps, row, g[row].len() as int) == frame_partial(
            g,
            animation,
            steps,
            row + 1,
            0,
        ),
{
    let done = frame_partial(g, animation, steps, row, g[row].len() as int);
    let next = frame_partial(g, animation, steps, row + 1, 0);
    assert forall|i: int| 0 <= i < g.len() implies #[trigger] done[i] =~= next[i] by {}
    assert(done =~= next);
}

/// A frame is over when the last row has spread.
proof fn lemma_frame_ends(g: Seq<Seq<usize>>, animation: AnimationType, steps: Seq<Seq<usize>>)
    ensures
        frame_partial(g, animation, steps, g.len() as int, 0) == frame_after(g, animation, steps),
{
    let ended = frame_partial(g, animation, steps, g.len() as int, 0);
    let after = frame_after(g, animation, steps);
    assert forall|i: int| 0 <= i < g.len() implies #[trigger] ended[i] =~= after[i] by {}
    assert(ended =~= after);
}

/// The uniform animation gives the same frame whatever the steps.
pub proof fn lemma_uniform_frame(g: Seq<Seq<usize>>, steps: Seq<Seq<usize>>)
    requires
        is_rectangular(g),
    ensures
        frame_after(g, AnimationType::Uniform, steps) == uniform_frame(g),
{
    let after = frame_after(g, AnimationType::Uniform, steps);
    let uniform = uniform_frame(g);
    assert forall|i: int| 0 <= i < g.len() implies #[trigger] after[i] =~= uniform[i] by {
        if i + 1 < g.len() {
            assert(g[i].len() == g[0].len());
            assert(g[i + 1].len() == g[0].len());
            assert forall|j: int| 0 <= j < g[i].len() implies after[i][j] == uniform[i][j] by {
                lemma_last_source_straight(
                    g[i + 1],
                    steps[i + 1],
                    AnimationType::Uniform,
                    j,
                    g[i + 1].len() as int,
                );
            }
        }
    }
    assert(after =~= uniform);
}

/// A frame leaves the grid its shape.
pub proof fn lemma_frame_keeps_shape(
    g: Seq<Seq<usize>>,
    animation: AnimationType,
    steps: Seq<Seq<usize>>,
)
    ensures
        same_shape(frame_after(g, animation, steps), g),
        is_rectangular(g) ==> is_rectangular(frame_after(g, animation, steps)),
{
    let after = frame_after(g, animation, steps);
    assert forall|i: int| 0 <= i < after.len() implies (#[trigger] after[i]).len()
        == g[i].len() by {}
    if is_rectangular(g) {
        assert forall|i: int| 0 <= i < after.len() implies (#[trigger] after[i]).len()
            == after[0].len() by {
            assert(g[i].len() == g[0].len());
        }
    }
}

/// A frame never writes to the last row: the source of the fire burns on as
/// it did.
pub proof fn lemma_source_row_stays(
    g: Seq<Seq<usize>>,
    animation: AnimationType,
    steps: Seq<Seq<usize>>,
)
    requires
        g.len() > 0,
    ensures
        frame_after(g, animation, steps).last() == g.last(),
{
}

/// A frame makes no cell hotter than the hottest cell was: heat levels that
/// were all below a bound stay below it.
pub proof fn lemma_frame_keeps_bound(
    g: Seq<Seq<usize>>,
    animation: AnimationType,
    steps: Seq<Seq<usize>>,
    bound: int,
)
    requires
        cells_below(g, bound),
    ensures
        cells_below(frame_after(g, animation, steps), bound),
{
    let after = frame_after(g, animation, steps);
    assert forall|i: int, j: int| 0 <= i < after.len() && 0 <= j < after[i].len() implies (
    #[trigger] after[i][j]) < bound by {
        if i + 1 < g.len() {
            let n = g[i + 1].len() as int;
            lemma_last_source(g[i + 1], steps[i + 1], animation, j, n);
            let source = last_source(g[i + 1], steps[i + 1], animation, j, n);
            if source >= 0 {
                assert(g[i + 1][source] < bound);
            } else {
                assert(g[i][j] < bound);
            }
        } else {
            assert(g[i][j] < bound);
        }
    }
}

/// However many frames run and whatever steps are drawn, the grid keeps its
/// shape, the source row burns on as it did, and heat levels that were all
/// below a bound stay below it.
pub proof fn lemma_frames_keep_grid(
    g: Seq<Seq<usize>>,
    animation: AnimationType,
    steps: Seq<Seq<Seq<usize>>>,
    bound: int,
)
    ensures
        same_shape(frames_after(g, animation, steps), g),
        is_rectangular(g) ==> is_rectangular(frames_after(g, animation, steps)),
        g.len() > 0 ==> frames_after(g, animation, steps).last() == g.last(),
        cells_below(g, bound) ==> cells_below(frames_after(g, animation, steps), bound),
    decreases steps.len(),
{
    if steps.len() > 0 {
        let earlier = frames_after(g, animation, steps.drop_last());
        lemma_frames_keep_grid(g, animation, steps.drop_last(), bound);
        lemma_frame_keeps_shape(earlier, animation, steps.last());
        if g.len() > 0 {
            lemma_source_row_stays(earlier, animation, steps.last());
        }
        if cells_below(g, bound) {
            lemma_frame_keeps_bound(earlier, animation, steps.last(), bound);
        }
        let after = frames_after(g, animation, steps);
        assert forall|i: int| 0 <= i < after.len() implies (#[trigger] after[i]).len()
            == g[i].len() by {
            assert(after[i].len() == earlier[i].len());
        }
    }
}

/// One frame of the uniform animation turns a row that burns at one level
/// `heat` > 0 in every column into a row above it that burns one level
/// lower in every column.
pub proof fn lemma_uniform_constant_row(g: Seq<Seq<usize>>, row: int, heat: usize)
    requires
        is_rectangular(g),
        1 <= row < g.len(),
        heat > 0,
        forall|j: int| 0 <= j < g[row].len() ==> g[row][j] == heat,
    ensures
        ({
            let above = uniform_frame(g)[row - 1];
            &&& above.len() == g[row].len()
            &&& forall|j: int| 0 <= j < above.len() ==> #[trigger] above[j] == heat - 1
        }),
{
    assert(g[row].len() == g[0].len());
    assert(g[row - 1].len() == g[0].len());
}

/// The uniform animation leaves nothing to chance: from the same grid, two
/// runs of the same number of frames end in the same grid, whatever steps
/// each of them draws.
pub proof fn lemma_uniform_frames_determined(
    g: Seq<Seq<usize>>,
    steps: Seq<Seq<Seq<usize>>>,
    other: Seq<Seq<Seq<usize>>>,
)
    requires
        is_rectangular(g),
        steps.len() == other.len(),
    ensures
        frames_after(g, AnimationType::Uniform, steps) == uniform_frames(g, steps.len()),
        frames_after(g, AnimationType::Uniform, steps) == frames_after(
            g,
            AnimationType::Uniform,
            other,
        ),
    decreases steps.len(),
{
    if steps.len() > 0 {
        lemma_uniform_frames_determined(g, steps.drop_last(), other.drop_last());
        let earlier = frames_after(g, AnimationType::Uniform, steps.drop_last());
        lemma_frames_keep_grid(g, AnimationType::Uniform, steps.drop_last(), 0);
        lemma_uniform_frame(earlier, steps.last());
        lemma_uniform_frame(earlier, other.last());
    }
}

/// Runs one frame of the animation: every cell of rows 1 and below spreads
/// once, row by row from the top and from left to right within a row, each
/// with a step drawn when it burns.
pub fn fire_frame(pixels: &mut PixelArray, animation: AnimationType)
    requires
        is_rectangular(old(pixels).deep_view()),
    ensures
        exists|steps: Seq<Seq<usize>>|
            steps_fit(steps, old(pixels).deep_view()) && final(pixels).deep_view()
                == #[trigger] frame_after(old(pixels).deep_view(), animation, steps),
        animation == AnimationType::Uniform ==> final(pixels).deep_view() == uniform_frame(
            old(pixels).deep_view(),
        ),
        same_shape(final(pixels).deep_view(), old(pixels).deep_view()),
        is_rectangular(final(pixels).deep_view()),
        old(pixels).deep_view().len() > 0 ==> final(pixels).deep_view().last() == old(
            pixels,
        ).deep_view().last(),
        forall|bound: int| #[trigger]
            cells_below(old(pixels).deep_view(), bound) ==> cells_below(
                final(pixels).deep_view(),
                bound,
            ),
{
    let ghost g = pixels.deep_view();
    let ghost mut steps: Seq<Seq<usize>> = Seq::new(
        g.len(),
        |i: int| Seq::new(g[i].len(), |j: int| 1usize),
    );
    let height = pixels.len();
    proof {
        lemma_rows_of(pixels);
        lemma_frame_begins(g, animation, steps);
    }
    if height == 0 {
        proof {
            assert(frame_after(g, animation, steps) =~= g);
            lemma_uniform_frame(g, steps);
            lemma_frame_keeps_shape(g, animation, steps);
        }
        return ;
    }
    let width = pixels[0].len();
    let mut rng = rand::thread_rng();
    let mut row: usize = 1;
    while row < height
        invariant
            1 <= row <= height,
            height == g.len(),
            width == g[0].len(),
            is_rectangular(g),
            steps_fit(steps, g),
            pixels.deep_view() == frame_partial(g, animation, steps, row as int, 0),
        decreases height - row,
    {
        let mut col: usize = 0;
        while col < width
            invariant
                1 <= row < height,
                col <= width,
                height == g.len(),
                width == g[0].len(),
                is_rectangular(g),
                steps_fit(steps, g),
                pixels.deep_view() == frame_partial(g, animation, steps, row as int, col as int),
            decreases width - col,
        {
            let ghost before = pixels.deep_view();
            proof {
                assert(g[row as int].len() == g[0].len());
                assert(g[row - 1].len() == g[0].len());
                assert(before[row as int] == g[row as int]);
            }
            match animation {
                AnimationType::Uniform => spread_fire_uniform(pixels, row, col),
                AnimationType::VerticalRand => spread_fire_vertical_rand(
                    pixels,
                    &mut rng,
                    row,
                    col,
                ),
                AnimationType::TwoAxesRand => spread_fire_two_axes(pixels, &mut rng, row, col),
            }
            proof {
                let step = match animation {
                    AnimationType::Uniform => 1usize,
                    AnimationType::VerticalRand => choose|step: usize|
                        is_step(step) && pixels.deep_view() == #[trigger] vertical_cell(
                            before,
                            step,
                            row as int,
                            col as int,
                        ),
                    AnimationType::TwoAxesRand => choose|step: usize|
                        is_step(step) && pixels.deep_view() == #[trigger] two_axes_cell(
                            before,
                            step,
                            row as int,
                            col as int,
                        ),
                };
                assert(is_step(step));
                assert(pixels.deep_view() == spread_cell(
                    before,
                    animation,
                    step,
                    row as int,
                    col as int,
                ));
                lemma_cell_advances(g, animation, steps, row as int, col as int, step);
                steps = steps.update(row as int, steps[row as int].update(col as int, step));
            }
            col += 1;
        }
        proof {
            assert(g[row as int].len() == g[0].len());
            lemma_row_done(g, animation, steps, row as int);
        }
        row += 1;
    }
    proof {
        lemma_frame_ends(g, animation, steps);
        assert(pixels.deep_view() == frame_after(g, animation, steps));
        lemma_uniform_frame(g, steps);
        lemma_frame_keeps_shape(g, animation, steps);
        lemma_source_row_stays(g, animation, steps);
        assert forall|bound: int| #[trigger] cells_below(g, bound) implies cells_below(
            pixels.deep_view(),
            bound,
        ) by {
            lemma_frame_keeps_bound(g, animation, steps, bound);
        }
    }
}

/// Tells whether `steps` holds one step, 1, 2 or 3, for every cell of the
/// grid.
pub fn steps_are_fit(steps: &Vec<Vec<usize>>, pixels: &PixelArray) -> (ok: bool)
    ensures
        ok == steps_fit(steps.deep_view(), pixels.deep_view()),
{
    proof {
        lemma_rows_of(pixels);
        lemma_rows_of(steps);
    }
    let height = pixels.len();
    if steps.len() != height {
        return false;
    }
    let mut row: usize = 0;
    while row < height
        invariant
            row <= height,
            height == pixels@.len(),
            height == steps@.len(),
            pixels.deep_view().len() == height,
            steps.deep_view().len() == height,
            forall|i: int| 0 <= i < height ==> (#[trigger] pixels.deep_view()[i]) == pixels@[i]@,
            forall|i: int| 0 <= i < height ==> (#[trigger] steps.deep_view()[i]) == steps@[i]@,
            forall|i: int|
                0 <= i < row ==> (#[trigger] steps.deep_view()[i]).len()
                    == pixels.deep_view()[i].len(),
            forall|i: int, j: int|
                0 <= i < row && 0 <= j < steps.deep_view()[i].len() ==> is_step(
                    #[trigger] steps.deep_view()[i][j],
                ),
        decreases height - row,
    {
        let width = pixels[row].len();
        if steps[row].len() != width {
            assert(steps.deep_view()[row as int].len() != pixels.deep_view()[row as int].len());
            return false;
        }
        let mut col: usize = 0;
        while col < width
            invariant
                row < height,
                col <= width,
                height == steps@.len(),
                steps.deep_view().len() == height,
                width == steps@[row as int]@.len(),
                forall|i: int| 0 <= i < height ==> (#[trigger] steps.deep_view()[i]) == steps@[i]@,
                forall|j: int|
                    0 <= j < col ==> is_step(#[trigger] steps.deep_view()[row as int][j]),
            decreases width - col,
        {
            let step = steps[row][col];
            if step < 1 || step > 3 {
                assert(!is_step(steps.deep_view()[row as int][col as int]));
                return false;
            }
            col += 1;
        }
        row += 1;
    }
    true
}

/// Runs one frame of the animation with given steps: every cell of rows 1
/// and below spreads once, row by row from the top and from left to right
/// within a row, cell (`i`, `j`) with the step `steps[i][j]`. The uniform
/// animation takes no notice of the steps.
pub fn fire_frame_with(pixels: &mut PixelArray, animation: AnimationType, steps: &Vec<Vec<usize>>)
    requires
        is_rectangular(old(pixels).deep_view()),
        animation != AnimationType::Uniform ==> steps_fit(
            steps.deep_view(),
            old(pixels).deep_view(),
        ),
    ensures
        final(pixels).deep_view() == frame_after(
            old(pixels).deep_view(),
            animation,
            steps.deep_view(),
        ),
{
    let ghost g = pixels.deep_view();
    let ghost used: Seq<Seq<usize>> = if animation == AnimationType::Uniform {
        Seq::new(g.len(), |i: int| Seq::new(g[i].len(), |j: int| 1usize))
    } else {
        steps.deep_view()
    };
    let height = pixels.len();
    proof {
        lemma_rows_of(pixels);
        lemma_rows_of(steps);
        lemma_frame_begins(g, animation, used);
    }
    if height == 0 {
        proof {
            assert(frame_after(g, animation, steps.deep_view()) =~= g);
        }
        return ;
    }
    let width = pixels[0].len();
    let mut row: usize = 1;
    while row < height
        invariant
            1 <= row <= height,
            height == g.len(),
            width == g[0].len(),
            is_rectangular(g),
            steps_fit(used, g),
            animation != AnimationType::Uniform ==> used == steps.deep_view(),
            forall|i: int| 0 <= i < steps@.len() ==> (#[trigger] steps.deep_view()[i]) == steps@[i]@,
            steps.deep_view().len() == steps@.len(),
            pixels.deep_view() == frame_partial(g, animation, used, row as int, 0),
        decreases height - row,
    {
        let mut col: usize = 0;
        while col < width
            invariant
                1 <= row < height,
                col <= width,
                height == g.len(),
                width == g[0].len(),
                is_rectangular(g),
                steps_fit(used, g),
                animation != AnimationType::Uniform ==> used == steps.deep_view(),
                forall|i: int|
                    0 <= i < steps@.len() ==> (#[trigger] steps.deep_view()[i]) == steps@[i]@,
                steps.deep_view().len() == steps@.len(),
                pixels.deep_view() == frame_partial(g, animation, used, row as int, col as int),
            decreases width - col,
        {
            let ghost before = pixels.deep_view();
            proof {
                assert(g[row as int].len() == g[0].len());
                assert(g[row - 1].len() == g[0].len());
                assert(before[row as int] == g[row as int]);
                assert(used[row as int].len() == g[row as int].len());
                assert(is_step(used[row as int][col as int]));
            }
            match animation {
                AnimationType::Uniform => spread_fire_uniform(pixels, row, col),
                AnimationType::VerticalRand => spread_fire_vertical_with(
                    pixels,
                    steps[row][col],
                    row,
                    col,
                ),
                AnimationType::TwoAxesRand => spread_fire_two_axes_with(
                    pixels,
                    steps[row][col],
                    row,
                    col,
                ),
            }
            proof {
                let step = used[row as int][col as int];
                lemma_cell_advances(g, animation, used, row as int, col as int, step);
                assert(used[row as int].update(col as int, step) =~= used[row as int]);
                assert(used.update(row as int, used[row as int]) =~= used);
            }
            col += 1;
        }
        proof {
            assert(g[row as int].len() == g[0].len());
            lemma_row_done(g, animation, used, row as int);
        }
        row += 1;
    }
    proof {
        lemma_frame_ends(g, animation, used);
        if animation == AnimationType::Uniform {
            lemma_uniform_frame(g, used);
            lemma_uniform_frame(g, steps.deep_view());
        }
    }
}

} // verus!
