//! The heat grid: its dimensions, its shape and how it is first filled.

use vstd::prelude::*;

verus! {

/// Number of columns of the animation.
pub const FIRE_WIDTH: usize = 100;

/// Number of rows of the animation.
pub const FIRE_HEIGHT: usize = 100;

/// Number of heat levels, and so of palette entries. Level 0 is "no fire",
/// level `NUM_FIRE_COLORS - 1` the hottest.
pub const NUM_FIRE_COLORS: usize = 37;

/// Number of frames the animation runs for.
pub const NUM_FRAMES: usize = 500;

/// Heat of every cell, row by row. Row 0 is the top of the picture; the last
/// row is the source of the fire.
pub type PixelArray = Vec<Vec<usize>>;

/// Every row is as long as the first.
pub open spec fn is_rectangular(g: Seq<Seq<usize>>) -> bool {
    forall|i: int| 0 <= i < g.len() ==> (#[trigger] g[i]).len() == g[0].len()
}

/// Number of columns of a rectangular grid; 0 for a grid without rows.
pub open spec fn grid_width(g: Seq<Seq<usize>>) -> nat {
    if g.len() == 0 {
        0
    } else {
        g[0].len()
    }
}

/// Every cell holds a heat level below `bound`.
pub open spec fn cells_below(g: Seq<Seq<usize>>, bound: int) -> bool {
    forall|i: int, j: int| 0 <= i < g.len() && 0 <= j < g[i].len() ==> (#[trigger] g[i][j]) < bound
}

/// The grid with every cell of its last row at the highest heat level. A
/// grid without rows has no such row and stays as it is.
pub open spec fn with_source_row(g: Seq<Seq<usize>>) -> Seq<Seq<usize>> {
    if g.len() == 0 {
        g
    } else {
        g.update(
            g.len() - 1,
            Seq::new(g.last().len(), |j: int| (NUM_FIRE_COLORS - 1) as usize),
        )
    }
}

/// The grid a fire starts from: `height` rows of `width` cells, all cold but
/// the last row, which burns at the highest level.
pub open spec fn initial_grid(width: nat, height: nat) -> Seq<Seq<usize>> {
    Seq::new(
        height,
        |i: int|
            Seq::new(
                width,
                |j: int|
                    if i == height - 1 {
                        (NUM_FIRE_COLORS - 1) as usize
                    } else {
                        0usize
                    },
            ),
    )
}

/// What a `PixelArray` shows row by row is what its rows show.
pub proof fn lemma_rows_of(pixels: &PixelArray)
    ensures
        pixels.deep_view().len() == pixels@.len(),
        forall|i: int| 0 <= i < pixels@.len() ==> (#[trigger] pixels.deep_view()[i]) == pixels@[i]@,
{
    assert forall|i: int| 0 <= i < pixels@.len() implies (#[trigger] pixels.deep_view()[i])
        == pixels@[i]@ by {
        assert(pixels@[i].deep_view() =~= pixels@[i]@);
    }
}

/// A row of `width` cold cells.
fn cold_row(width: usize) -> (row: Vec<usize>)
    ensures
        row@ == Seq::new(width as nat, |j: int| 0usize),
{
    let mut row: Vec<usize> = Vec::with_capacity(width);
    let mut col: usize = 0;
    while col < width
        invariant
            col <= width,
            row@ == Seq::new(col as nat, |j: int| 0usize),
        decreases width - col,
    {
        row.push(0);
        col += 1;
    }
    row
}

/// Sets every cell of the last row to the highest heat level and leaves the
/// other rows as they are. A grid without rows stays empty.
pub fn setup_pixel_array(pixels: &mut PixelArray)
    ensures
        final(pixels).deep_view() == with_source_row(old(pixels).deep_view()),
{
    let height = pixels.len();
    proof {
        lemma_rows_of(pixels);
    }
    if height == 0 {
        return ;
    }
    let width = pixels[height - 1].len();
    let mut col: usize = 0;
    while col < width
        invariant
            col <= width,
            height == pixels@.len(),
            height == old(pixels)@.len(),
            height > 0,
            width == pixels@[height - 1]@.len(),
            width == old(pixels)@[height - 1]@.len(),
            forall|i: int| 0 <= i < height - 1 ==> (#[trigger] pixels@[i]) == old(pixels)@[i],
            forall|j: int| 0 <= j < col ==> (#[trigger] pixels@[height - 1]@[j]) == NUM_FIRE_COLORS - 1,
        decreases width - col,
    {
        pixels[height - 1][col] = NUM_FIRE_COLORS - 1;
        col += 1;
    }
    proof {
        lemma_rows_of(pixels);
        lemma_rows_of(old(pixels));
        let seeded = with_source_row(old(pixels).deep_view());
        assert forall|i: int| 0 <= i < height implies (#[trigger] pixels.deep_view()[i])
            =~= seeded[i] by {}
        assert(pixels.deep_view() =~= seeded);
    }
}

/// Allocates the grid a fire starts from: `height` rows of `width` cells,
/// all at 0, then the last row at the highest heat level.
pub fn new_pixel_array(width: usize, height: usize) -> (pixels: PixelArray)
    ensures
        pixels.deep_view() == initial_grid(width as nat, height as nat),
{
    let mut pixels: PixelArray = Vec::with_capacity(height);
    let mut row: usize = 0;
    while row < height
        invariant
            row <= height,
            pixels@.len() == row,
            forall|i: int| 0 <= i < row ==> (#[trigger] pixels@[i])@ == Seq::new(width as nat, |j: int| 0usize),
        decreases height - row,
    {
        pixels.push(cold_row(width));
        row += 1;
    }
    let ghost blank = pixels.deep_view();
    proof {
        lemma_rows_of(&pixels);
    }
    setup_pixel_array(&mut pixels);
    proof {
        let initial = initial_grid(width as nat, height as nat);
        assert forall|i: int| 0 <= i < height implies (#[trigger] pixels.deep_view()[i])
            =~= initial[i] by {
            if i == height - 1 {
                assert(blank.last() == blank[i]);
            }
        }
        assert(pixels.deep_view() =~= initial);
    }
    pixels
}

/// Tells whether every row of the grid is as long as the first.
pub fn pixels_are_rectangular(pixels: &PixelArray) -> (ok: bool)
    ensures
        ok == is_rectangular(pixels.deep_view()),
{
    proof {
        lemma_rows_of(pixels);
    }
    let height = pixels.len();
    if height == 0 {
        return true;
    }
    let width = pixels[0].len();
    let mut row: usize = 1;
    while row < height
        invariant
            1 <= row <= height,
            height == pixels@.len(),
            width == pixels@[0]@.len(),
            pixels.deep_view().len() == pixels@.len(),
            forall|i: int|
                0 <= i < pixels@.len() ==> (#[trigger] pixels.deep_view()[i]) == pixels@[i]@,
            forall|i: int| 0 <= i < row ==> (#[trigger] pixels.deep_view()[i]).len() == width,
        decreases height - row,
    {
        if pixels[row].len() != width {
            assert(pixels.deep_view()[row as int].len() != pixels.deep_view()[0].len());
            return false;
        }
        row += 1;
    }
    true
}

/// Tells whether every cell of the grid holds a heat level below `bound`.
pub fn pixels_are_below(pixels: &PixelArray, bound: usize) -> (ok: bool)
    ensures
        ok == cells_below(pixels.deep_view(), bound as int),
{
    proof {
        lemma_rows_of(pixels);
    }
    let height = pixels.len();
    let mut row: usize = 0;
    while row < height
        invariant
            row <= height,
            height == pixels@.len(),
            pixels.deep_view().len() == pixels@.len(),
            forall|i: int|
                0 <= i < pixels@.len() ==> (#[trigger] pixels.deep_view()[i]) == pixels@[i]@,
            forall|i: int, j: int|
                0 <= i < row && 0 <= j < pixels.deep_view()[i].len() ==> (
                #[trigger] pixels.deep_view()[i][j]) < bound,
        decreases height - row,
    {
        let width = pixels[row].len();
        let mut col: usize = 0;
        while col < width
            invariant
                row < height,
                col <= width,
                height == pixels@.len(),
                width == pixels@[row as int]@.len(),
                pixels.deep_view().len() == pixels@.len(),
                forall|i: int|
                    0 <= i < pixels@.len() ==> (#[trigger] pixels.deep_view()[i]) == pixels@[i]@,
                forall|j: int|
                    0 <= j < col ==> (#[trigger] pixels.deep_view()[row as int][j]) < bound,
            decreases width - col,
        {
            if pixels[row][col] >= bound {
                assert(!(pixels.deep_view()[row as int][col as int] < bound));
                return false;
            }
            col += 1;
        }
        row += 1;
    }
    true
}

} // verus!
