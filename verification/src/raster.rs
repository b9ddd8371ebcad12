//! From heat to picture: the grid as a flat buffer of colour channels.

use crate::grid::cells_below;
use crate::grid::grid_width;
use crate::grid::is_rectangular;
use crate::grid::lemma_rows_of;
use crate::grid::PixelArray;
use crate::grid::NUM_FIRE_COLORS;
use crate::palette::Color;
use crate::palette::FireColorArray;
use vstd::prelude::*;
use vstd::seq_lib::lemma_flatten_concat;

verus! {

/// Channel `k` of a colour: 0 is red, 1 is green, anything else is blue.
pub open spec fn channel(color: Color, k: int) -> u8 {
    if k == 0 {
        color.r
    } else if k == 1 {
        color.g
    } else {
        color.b
    }
}

/// The picture of a run of cells: for every cell in turn, the red, green and
/// blue channel of the colour that the palette gives its heat.
pub open spec fn rasterized(cells: Seq<usize>, colors: Seq<Color>) -> Seq<u8> {
    Seq::new(3 * cells.len(), |k: int| channel(colors[cells[k / 3] as int], k % 3))
}

/// Number of cells drawn into a buffer of `room` bytes: all of them, or as
/// many as whole colours fit.
pub open spec fn cells_drawn(cells: Seq<usize>, room: nat) -> int {
    if cells.len() <= room / 3 {
        cells.len() as int
    } else {
        (room / 3) as int
    }
}

/// A buffer after the picture of `cells` was drawn over its beginning: the
/// picture of the cells that fit, then the bytes that were there before.
pub open spec fn painted(cells: Seq<usize>, colors: Seq<Color>, bytes: Seq<u8>) -> Seq<u8> {
    let drawn = cells_drawn(cells, bytes.len());
    rasterized(cells.take(drawn), colors) + bytes.skip(3 * drawn)
}

/// The cells of the first `row` rows and of the first `col` columns of the
/// next row, in row-major order.
spec fn cells_before(g: Seq<Seq<usize>>, row: int, col: int) -> Seq<usize> {
    g.take(row).flatten() + g[row].take(col)
}

/// The cells ahead of a place in the grid are the beginning of all its
/// cells.
proof fn lemma_cells_before(g: Seq<Seq<usize>>, row: int, col: int)
    requires
        0 <= row < g.len(),
        0 <= col <= g[row].len(),
    ensures
        cells_before(g, row, col).len() <= g.flatten().len(),
        cells_before(g, row, col) == g.flatten().take(cells_before(g, row, col).len() as int),
        col < g[row].len() ==> g.flatten()[cells_before(g, row, col).len() as int] == g[row][col],
        col == g[row].len() ==> cells_before(g, row, col) == g.take(row + 1).flatten(),
{
    let head = g.take(row);
    let tail = g.skip(row + 1);
    assert(g =~= head + seq![g[row]] + tail);
    lemma_flatten_concat(head + seq![g[row]], tail);
    lemma_flatten_concat(head, seq![g[row]]);
    seq![g[row]].lemma_flatten_one_element();
    assert(seq![g[row]].first() == g[row]);
    assert(g.flatten() =~= head.flatten() + g[row] + tail.flatten());
    assert(cells_before(g, row, col) =~= g.flatten().take(cells_before(g, row, col).len() as int));
    if col == g[row].len() {
        assert(g.take(row + 1) =~= head + seq![g[row]]);
        assert(g[row].take(col) =~= g[row]);
    }
}

/// A rectangular grid has as many cells as rows times columns.
pub proof fn lemma_flat_len(g: Seq<Seq<usize>>)
    requires
        is_rectangular(g),
        g.len() > 0,
    ensures
        g.flatten().len() == g.len() * g[0].len(),
    decreases g.len(),
{
    let rest = g.drop_first();
    if rest.len() > 0 {
        assert forall|i: int| 0 <= i < rest.len() implies (#[trigger] rest[i]).len()
            == rest[0].len() by {
            assert(rest[i] == g[i + 1]);
            assert(rest[0] == g[1]);
        }
        lemma_flat_len(rest);
        assert(rest[0] == g[1]);
        assert(g.len() * g[0].len() == g[0].len() + (g.len() - 1) * g[0].len())
            by (nonlinear_arith);
    } else {
        assert(rest.flatten() =~= Seq::<usize>::empty());
        assert(g.len() * g[0].len() == g[0].len()) by (nonlinear_arith)
            requires
                g.len() == 1,
        ;
    }
}

/// In a grid that burns at one level everywhere, every cell of the run of
/// its rows burns at that level.
proof fn lemma_flat_cells_alike(g: Seq<Seq<usize>>, heat: usize)
    requires
        forall|i: int, j: int| 0 <= i < g.len() && 0 <= j < g[i].len() ==> #[trigger] g[i][j] == heat,
    ensures
        forall|p: int| 0 <= p < g.flatten().len() ==> #[trigger] g.flatten()[p] == heat,
    decreases g.len(),
{
    if g.len() > 0 {
        let rest = g.drop_first();
        assert forall|i: int, j: int| 0 <= i < rest.len() && 0 <= j < rest[i].len() implies #[trigger] rest[i][j]
            == heat by {
            assert(rest[i][j] == g[i + 1][j]);
        }
        lemma_flat_cells_alike(rest, heat);
        assert forall|p: int| 0 <= p < g.flatten().len() implies #[trigger] g.flatten()[p]
            == heat by {
            if p < g.first().len() {
                assert(g.flatten()[p] == g[0][p]);
            } else {
                assert(g.flatten()[p] == rest.flatten()[p - g.first().len()]);
            }
        }
    }
}

/// A buffer with room for exactly the grid holds, once painted, the whole
/// picture of the grid and nothing else.
pub proof fn lemma_painted_whole(cells: Seq<usize>, colors: Seq<Color>, bytes: Seq<u8>)
    requires
        bytes.len() == 3 * cells.len(),
    ensures
        painted(cells, colors, bytes) == rasterized(cells, colors),
{
    assert(cells.take(cells.len() as int) =~= cells);
    assert(painted(cells, colors, bytes) =~= rasterized(cells, colors));
}

/// The picture of a rectangular grid that burns at one level everywhere is
/// the colour of that level over and over, once for every cell: red, green,
/// blue, as many times as the grid has rows times columns.
pub proof fn lemma_one_heat_one_colour(g: Seq<Seq<usize>>, colors: Seq<Color>, heat: usize)
    requires
        is_rectangular(g),
        forall|i: int, j: int| 0 <= i < g.len() && 0 <= j < g[i].len() ==> #[trigger] g[i][j] == heat,
    ensures
        rasterized(g.flatten(), colors).len() == 3 * (g.len() * grid_width(g)),
        forall|k: int|
            0 <= k < rasterized(g.flatten(), colors).len() ==> #[trigger] rasterized(
                g.flatten(),
                colors,
            )[k] == channel(colors[heat as int], k % 3),
{
    lemma_flat_cells_alike(g, heat);
    if g.len() > 0 {
        lemma_flat_len(g);
    } else {
        assert(g.len() * grid_width(g) == 0) by (nonlinear_arith)
            requires
                g.len() == 0,
        ;
    }
    let cells = g.flatten();
    assert forall|k: int| 0 <= k < rasterized(cells, colors).len() implies #[trigger] rasterized(
        cells,
        colors,
    )[k] == channel(colors[heat as int], k % 3) by {
        assert(cells[k / 3] == heat);
    }
}

/// Draws the grid over the beginning of `bytes`: cell after cell in
/// row-major order, three bytes each, the red, green and blue channel of the
/// colour that the palette gives the cell's heat. Where the buffer has no
/// room for all cells, those for which whole colours fit are drawn; bytes
/// beyond the picture keep their value.
pub fn colors_to_bytes(pixels: &PixelArray, fire_colors: &FireColorArray, bytes: &mut [u8])
    requires
        cells_below(pixels.deep_view(), NUM_FIRE_COLORS as int),
    ensures
        final(bytes)@ == painted(pixels.deep_view().flatten(), fire_colors@, old(bytes)@),
{
    let ghost g = pixels.deep_view();
    let ghost cells = g.flatten();
    let ghost colors = fire_colors@;
    let ghost room = bytes@.len();
    let room_bytes = bytes.len();
    proof {
        lemma_rows_of(pixels);
        assert(g.take(0) =~= Seq::<Seq<usize>>::empty());
        assert(bytes@ =~= rasterized(g.take(0).flatten(), colors) + bytes@.skip(0));
    }
    let mut at: usize = 0;
    let mut row: usize = 0;
    while row < pixels.len()
        invariant
            row <= g.len(),
            g == pixels.deep_view(),
            g.len() == pixels@.len(),
            forall|i: int| 0 <= i < pixels@.len() ==> (#[trigger] g[i]) == pixels@[i]@,
            cells == g.flatten(),
            colors == fire_colors@,
            room == old(bytes)@.len(),
            room_bytes == room,
            bytes@.len() == room,
            cells_below(g, NUM_FIRE_COLORS as int),
            at == 3 * g.take(row as int).flatten().len(),
            at <= room,
            g.take(row as int).flatten() == cells.take(g.take(row as int).flatten().len() as int),
            g.take(row as int).flatten().len() <= cells.len(),
            bytes@ == rasterized(g.take(row as int).flatten(), colors) + old(bytes)@.skip(
                at as int,
            ),
        decreases g.len() - row,
    {
        let width = pixels[row].len();
        let mut col: usize = 0;
        proof {
            assert(g[row as int].take(0) =~= Seq::<usize>::empty());
            assert(cells_before(g, row as int, 0) =~= g.take(row as int).flatten());
        }
        while col < width
            invariant
                row < g.len(),
                col <= width,
                width == g[row as int].len(),
                g == pixels.deep_view(),
                g.len() == pixels@.len(),
                forall|i: int| 0 <= i < pixels@.len() ==> (#[trigger] g[i]) == pixels@[i]@,
                cells == g.flatten(),
                colors == fire_colors@,
                room == old(bytes)@.len(),
                room_bytes == room,
                bytes@.len() == room,
                cells_below(g, NUM_FIRE_COLORS as int),
                at == 3 * cells_before(g, row as int, col as int).len(),
                at <= room,
                bytes@ == rasterized(cells_before(g, row as int, col as int), colors) + old(
                    bytes,
                )@.skip(at as int),
            decreases width - col,
        {
            let ghost done = cells_before(g, row as int, col as int);
            proof {
                lemma_cells_before(g, row as int, col as int);
            }
            if room_bytes - at < 3 {
                proof {
                    assert(cells_drawn(cells, room) == done.len());
                }
                return ;
            }
            let pixel = pixels[row][col];
            assert(pixel == g[row as int][col as int]);
            let color = fire_colors[pixel];
            bytes[at] = color.r;
            bytes[at + 1] = color.g;
            bytes[at + 2] = color.b;
            proof {
                let next = cells_before(g, row as int, col + 1);
                assert(g[row as int].take(col + 1) =~= g[row as int].take(col as int).push(
                    pixel,
                ));
                assert(next =~= done.push(pixel));
                assert(bytes@ =~= rasterized(next, colors) + old(bytes)@.skip(at + 3));
            }
            at += 3;
            col += 1;
        }
        proof {
            lemma_cells_before(g, row as int, col as int);
        }
        row += 1;
    }
    proof {
        assert(g.take(row as int) =~= g);
        assert(cells_drawn(cells, room) == cells.len());
        assert(cells.take(cells.len() as int) =~= cells);
    }
}

} // verus!
