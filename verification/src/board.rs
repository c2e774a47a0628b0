//! The board: the walled grid, the active/next/held piece, movement and
//! rotation under collision checks, and lock/clear/advance.
use vstd::prelude::*;

use crate::piece::block_eq;
use crate::piece::Block;
use crate::piece::Cell;
use crate::piece::Point;
use crate::piece::BLOCK_SIZE;

verus! {

/// A direction for `moveCurrentBlock`. `Up` exists for symmetry and testing;
/// no game rule produces it.
#[derive(Clone, Copy, Debug, PartialEq, Eq, Structural)]
pub enum Dir {
    Up,
    Down,
    Left,
    Right,
}

/// Fixed grid width, border columns included.
pub const BOARD_WIDTH: u32 = 12;

/// Fixed grid height, bottom border row included.
pub const BOARD_HEIGHT: u32 = 30;

/// Number of cells in the grid.
pub const GRID_LEN: u32 = BOARD_WIDTH * BOARD_HEIGHT;

/// Index of a coordinate in the row-major grid.
pub open spec fn grid_index(row: int, col: int) -> int {
    row * (BOARD_WIDTH as int) + col
}

/// Within the grid, border included.
pub open spec fn in_grid(row: int, col: int) -> bool {
    0 <= row < BOARD_HEIGHT as int && 0 <= col < BOARD_WIDTH as int
}

/// On the permanent border: first or last column, or the bottom row.
pub open spec fn is_border(row: int, col: int) -> bool {
    col == 0 || col == BOARD_WIDTH as int - 1 || row == BOARD_HEIGHT as int - 1
}

/// Strictly inside the playable area.
pub open spec fn is_interior(row: int, col: int) -> bool {
    in_grid(row, col) && !is_border(row, col)
}

/// A well-formed grid: full size, `Wall` on the whole border and nowhere
/// else.
pub open spec fn grid_wf(g: Seq<Cell>) -> bool {
    &&& g.len() == GRID_LEN as int
    &&& forall|r: int, c: int|
        in_grid(r, c) && is_border(r, c) ==> #[trigger] g[grid_index(r, c)] == Cell::Wall
    &&& forall|r: int, c: int| is_interior(r, c) ==> #[trigger] g[grid_index(r, c)] != Cell::Wall
}

/// Cell `i` of shape `s`, translated to origin (row, col), lands on an empty
/// in-grid cell of `g`.
pub open spec fn cell_free(g: Seq<Cell>, s: Seq<Point>, row: int, col: int, i: int) -> bool {
    &&& in_grid(row + s[i].0, col + s[i].1)
    &&& g[grid_index(row + s[i].0, col + s[i].1)] == Cell::Empty
}

/// Every cell of shape `s` translated to origin (row, col) lands on an empty
/// in-grid cell: the occupancy check behind every move and rotation.
pub open spec fn shape_fits(g: Seq<Cell>, s: Seq<Point>, row: int, col: int) -> bool {
    forall|i: int| 0 <= i < s.len() ==> #[trigger] cell_free(g, s, row, col, i)
}

/// Cell `i` of shape `s`, translated to origin (row, col), lies strictly
/// inside the playable area.
pub open spec fn cell_inside(s: Seq<Point>, row: int, col: int, i: int) -> bool {
    is_interior(row + s[i].0, col + s[i].1)
}

/// Every translated cell of the shape lies strictly inside the playable
/// area, so stamping it cannot touch the border.
pub open spec fn shape_inside(s: Seq<Point>, row: int, col: int) -> bool {
    forall|i: int| 0 <= i < s.len() ==> #[trigger] cell_inside(s, row, col, i)
}

/// The spawn origin for a fresh active piece.
pub open spec fn spawn_pos() -> Point {
    Point(0, (BOARD_WIDTH / 2 - 2) as u32)
}

/// In a well-formed grid an empty cell is never on the border, so a fitting
/// shape is strictly inside the playable area.
pub proof fn lemma_fits_is_inside(g: Seq<Cell>, s: Seq<Point>, row: int, col: int)
    requires
        grid_wf(g),
        shape_fits(g, s, row, col),
    ensures
        shape_inside(s, row, col),
{
    assert forall|i: int| 0 <= i < s.len() implies #[trigger] cell_inside(s, row, col, i) by {
        assert(cell_free(g, s, row, col, i));
        let r = row + s[i].0;
        let c = col + s[i].1;
        if is_border(r, c) {
            assert(g[grid_index(r, c)] == Cell::Wall);
        }
    }
}

/// Row `r` of the grid, border cells included.
pub open spec fn row_seq(g: Seq<Cell>, r: int) -> Seq<Cell> {
    g.subrange(r * (BOARD_WIDTH as int), r * (BOARD_WIDTH as int) + BOARD_WIDTH as int)
}

/// A row counts as filled when every interior cell is non-empty.
pub open spec fn row_filled(g: Seq<Cell>, r: int) -> bool {
    forall|c: int|
        1 <= c < BOARD_WIDTH as int - 1 ==> #[trigger] g[grid_index(r, c)] != Cell::Empty
}

/// The indices of the non-filled rows among rows `0 .. r`, in increasing
/// order.
pub open spec fn unfilled_upto(g: Seq<Cell>, r: int) -> Seq<int>
    decreases r,
{
    if r <= 0 {
        Seq::empty()
    } else if row_filled(g, r - 1) {
        unfilled_upto(g, r - 1)
    } else {
        unfilled_upto(g, r - 1).push(r - 1)
    }
}

/// A freshly cleared row: walls at both ends, empty interior.
pub open spec fn empty_row() -> Seq<Cell> {
    Seq::new(
        BOARD_WIDTH as nat,
        |c: int|
            if c == 0 || c == BOARD_WIDTH as int - 1 {
                Cell::Wall
            } else {
                Cell::Empty
            },
    )
}

/// The permanent bottom row.
pub open spec fn wall_row() -> Seq<Cell> {
    Seq::new(BOARD_WIDTH as nat, |c: int| Cell::Wall)
}

/// `n` cleared rows, concatenated.
pub open spec fn empty_rows(n: int) -> Seq<Cell>
    decreases n,
{
    if n <= 0 {
        Seq::empty()
    } else {
        empty_rows(n - 1) + empty_row()
    }
}

/// The listed rows of `g`, concatenated in order.
pub open spec fn copied_rows(g: Seq<Cell>, rows: Seq<int>) -> Seq<Cell>
    decreases rows.len(),
{
    if rows.len() == 0 {
        Seq::empty()
    } else {
        copied_rows(g, rows.drop_last()) + row_seq(g, rows.last())
    }
}

/// How many rows of `g` are filled, i.e. vanish in a clear-and-compact pass.
pub open spec fn cleared_count(g: Seq<Cell>) -> int {
    BOARD_HEIGHT as int - 1 - unfilled_upto(g, BOARD_HEIGHT as int - 1).len()
}

/// The grid after clear-and-compact: the non-filled rows sink to the bottom
/// in their old order, freshly cleared rows appear on top, and the wall row
/// stays at the very bottom.
pub open spec fn compacted(g: Seq<Cell>) -> Seq<Cell> {
    empty_rows(cleared_count(g)) + copied_rows(g, unfilled_upto(g, BOARD_HEIGHT as int - 1))
        + wall_row()
}

/// The grid after the first `n` cells of shape `s`, translated to origin
/// (row, col), are overwritten with `color`.
pub open spec fn stamp_prefix(
    g: Seq<Cell>,
    s: Seq<Point>,
    color: Cell,
    row: int,
    col: int,
    n: int,
) -> Seq<Cell>
    decreases n,
{
    if n <= 0 {
        g
    } else {
        stamp_prefix(g, s, color, row, col, n - 1).update(
            grid_index(row + s[n - 1].0, col + s[n - 1].1),
            color,
        )
    }
}

/// The grid after block `b` at origin (row, col) is stamped into it.
pub open spec fn stamped(g: Seq<Cell>, b: Block, row: int, col: int) -> Seq<Cell> {
    stamp_prefix(g, b.shape@, b.color, row, col, b.shape@.len() as int)
}

/// Shape cell `i` of `s` at origin (row, col) lands on coordinate (r, c).
pub open spec fn covers(s: Seq<Point>, row: int, col: int, r: int, c: int) -> bool {
    exists|i: int| 0 <= i < s.len() && r == row + s[i].0 && c == col + s[i].1
}

/// The non-filled row indices below `r` are fewer than `r`, lie below `r`,
/// and are indeed not filled.
pub proof fn lemma_unfilled_upto_props(g: Seq<Cell>, r: int)
    requires
        r >= 0,
    ensures
        unfilled_upto(g, r).len() <= r,
        forall|j: int|
            0 <= j < unfilled_upto(g, r).len() ==> 0 <= #[trigger] unfilled_upto(g, r)[j] < r
                && !row_filled(g, unfilled_upto(g, r)[j]),
    decreases r,
{
    if r > 0 {
        lemma_unfilled_upto_props(g, r - 1);
    }
}

/// Cleared rows stacked up: length, and each row slice is a cleared row.
pub proof fn lemma_empty_rows_props(n: int)
    requires
        n >= 0,
    ensures
        empty_rows(n).len() == n * (BOARD_WIDTH as int),
        forall|r: int|
            0 <= r < n ==> #[trigger] empty_rows(n).subrange(
                r * (BOARD_WIDTH as int),
                r * (BOARD_WIDTH as int) + BOARD_WIDTH as int,
            ) =~= empty_row(),
    decreases n,
{
    let w = BOARD_WIDTH as int;
    if n > 0 {
        lemma_empty_rows_props(n - 1);
        assert forall|r: int|
            0 <= r < n implies #[trigger] empty_rows(n).subrange(
            r * w,
            r * w + w,
        ) =~= empty_row() by {
            if r < n - 1 {
                assert(empty_rows(n - 1).subrange(r * w, r * w + w) =~= empty_row());
                assert(empty_rows(n).subrange(r * w, r * w + w) =~= empty_rows(n - 1).subrange(
                    r * w,
                    r * w + w,
                ));
            } else {
                assert(empty_rows(n).subrange(r * w, r * w + w) =~= empty_row());
            }
        }
    }
}

/// Copied rows stacked up: length, and each row slice is the source row.
pub proof fn lemma_copied_rows_props(g: Seq<Cell>, rows: Seq<int>)
    requires
        g.len() == GRID_LEN as int,
        forall|j: int| 0 <= j < rows.len() ==> 0 <= #[trigger] rows[j] < BOARD_HEIGHT as int - 1,
    ensures
        copied_rows(g, rows).len() == rows.len() * (BOARD_WIDTH as int),
        forall|j: int|
            0 <= j < rows.len() ==> #[trigger] copied_rows(g, rows).subrange(
                j * (BOARD_WIDTH as int),
                j * (BOARD_WIDTH as int) + BOARD_WIDTH as int,
            ) =~= row_seq(g, rows[j]),
    decreases rows.len(),
{
    let w = BOARD_WIDTH as int;
    if rows.len() > 0 {
        lemma_copied_rows_props(g, rows.drop_last());
        assert forall|j: int|
            0 <= j < rows.len() implies #[trigger] copied_rows(g, rows).subrange(
            j * w,
            j * w + w,
        ) =~= row_seq(g, rows[j]) by {
            if j < rows.len() - 1 {
                assert(copied_rows(g, rows.drop_last()).subrange(j * w, j * w + w) =~= row_seq(
                    g,
                    rows.drop_last()[j],
                ));
                assert(copied_rows(g, rows).subrange(j * w, j * w + w) =~= copied_rows(
                    g,
                    rows.drop_last(),
                ).subrange(j * w, j * w + w));
            } else {
                assert(copied_rows(g, rows).subrange(j * w, j * w + w) =~= row_seq(
                    g,
                    rows.last(),
                ));
            }
        }
    }
}

/// Row structure of the compacted grid: cleared rows on top, the non-filled
/// rows in order beneath them, the wall row at the bottom.
pub proof fn lemma_compacted_rows(g: Seq<Cell>)
    requires
        g.len() == GRID_LEN as int,
    ensures
        0 <= cleared_count(g) <= BOARD_HEIGHT as int - 1,
        cleared_count(g) + unfilled_upto(g, BOARD_HEIGHT as int - 1).len() == BOARD_HEIGHT as int
            - 1,
        compacted(g).len() == GRID_LEN as int,
        forall|r: int|
            0 <= r < cleared_count(g) ==> #[trigger] row_seq(compacted(g), r) =~= empty_row(),
        forall|j: int|
            0 <= j < unfilled_upto(g, BOARD_HEIGHT as int - 1).len() ==> #[trigger] row_seq(
                compacted(g),
                cleared_count(g) + j,
            ) =~= row_seq(g, unfilled_upto(g, BOARD_HEIGHT as int - 1)[j]),
        row_seq(compacted(g), BOARD_HEIGHT as int - 1) =~= wall_row(),
{
    let w = BOARD_WIDTH as int;
    let h = BOARD_HEIGHT as int;
    let u = unfilled_upto(g, h - 1);
    let f = cleared_count(g);
    lemma_unfilled_upto_props(g, h - 1);
    lemma_empty_rows_props(f);
    lemma_copied_rows_props(g, u);
    let e = empty_rows(f);
    let cp = copied_rows(g, u);
    assert forall|r: int| 0 <= r < f implies #[trigger] row_seq(compacted(g), r)
        =~= empty_row() by {
        assert(e.subrange(r * w, r * w + w) =~= empty_row());
    }
    assert forall|j: int| 0 <= j < u.len() implies #[trigger] row_seq(compacted(g), f + j)
        =~= row_seq(g, u[j]) by {
        assert(cp.subrange(j * w, j * w + w) =~= row_seq(g, u[j]));
        assert((f + j) * w == f * w + j * w) by (nonlinear_arith);
    }
    assert((h - 1) * w == f * w + u.len() * w) by (nonlinear_arith)
        requires
            f + u.len() == h - 1,
    ;
}

/// Clear-and-compact preserves grid well-formedness.
pub proof fn lemma_compacted_wf(g: Seq<Cell>)
    requires
        grid_wf(g),
    ensures
        grid_wf(compacted(g)),
{
    let w = BOARD_WIDTH as int;
    let h = BOARD_HEIGHT as int;
    let u = unfilled_upto(g, h - 1);
    let f = cleared_count(g);
    lemma_compacted_rows(g);
    lemma_unfilled_upto_props(g, h - 1);
    let cg = compacted(g);
    assert forall|r: int, c: int|
        in_grid(r, c) && is_border(r, c) implies #[trigger] cg[grid_index(r, c)]
        == Cell::Wall by {
        assert(cg[grid_index(r, c)] == row_seq(cg, r)[c]);
        if r == h - 1 {
            assert(row_seq(cg, r)[c] == wall_row()[c]);
        } else if r < f {
            assert(row_seq(cg, r)[c] == empty_row()[c]);
        } else {
            let j = r - f;
            assert(row_seq(cg, f + j) =~= row_seq(g, u[j]));
            assert(row_seq(cg, r)[c] == row_seq(g, u[j])[c]);
            assert(row_seq(g, u[j])[c] == g[grid_index(u[j], c)]);
            assert(in_grid(u[j], c) && is_border(u[j], c));
        }
    }
    assert forall|r: int, c: int| is_interior(r, c) implies #[trigger] cg[grid_index(r, c)]
        != Cell::Wall by {
        assert(cg[grid_index(r, c)] == row_seq(cg, r)[c]);
        if r < f {
            assert(row_seq(cg, r)[c] == empty_row()[c]);
        } else {
            let j = r - f;
            assert(row_seq(cg, f + j) =~= row_seq(g, u[j]));
            assert(row_seq(cg, r)[c] == row_seq(g, u[j])[c]);
            assert(row_seq(g, u[j])[c] == g[grid_index(u[j], c)]);
            assert(is_interior(u[j], c));
        }
    }
}

/// Pointwise effect of stamping a shape prefix: covered cells take the
/// color, all others keep their old value.
pub proof fn lemma_stamp_prefix_props(
    g: Seq<Cell>,
    s: Seq<Point>,
    color: Cell,
    row: int,
    col: int,
    n: int,
)
    requires
        g.len() == GRID_LEN as int,
        0 <= n <= s.len(),
        shape_inside(s, row, col),
    ensures
        stamp_prefix(g, s, color, row, col, n).len() == GRID_LEN as int,
        forall|i: int|
            0 <= i < n ==> stamp_prefix(g, s, color, row, col, n)[#[trigger] grid_index(
                row + s[i].0,
                col + s[i].1,
            )] == color,
        forall|r: int, c: int|
            in_grid(r, c) && !covers(s.subrange(0, n), row, col, r, c) ==> #[trigger] stamp_prefix(
                g,
                s,
                color,
                row,
                col,
                n,
            )[grid_index(r, c)] == g[grid_index(r, c)],
    decreases n,
{
    if n > 0 {
        lemma_stamp_prefix_props(g, s, color, row, col, n - 1);
        let prev = stamp_prefix(g, s, color, row, col, n - 1);
        let cur = stamp_prefix(g, s, color, row, col, n);
        assert(cell_inside(s, row, col, n - 1));
        let rr = row + s[n - 1].0;
        let cc = col + s[n - 1].1;
        assert(cur == prev.update(grid_index(rr, cc), color));
        assert forall|i: int|
            0 <= i < n implies cur[#[trigger] grid_index(row + s[i].0, col + s[i].1)]
            == color by {
            assert(cell_inside(s, row, col, i));
            if i < n - 1 {
                if grid_index(row + s[i].0, col + s[i].1) != grid_index(rr, cc) {
                    assert(cur[grid_index(row + s[i].0, col + s[i].1)] == prev[grid_index(
                        row + s[i].0,
                        col + s[i].1,
                    )]);
                }
            }
        }
        assert forall|r: int, c: int|
            in_grid(r, c) && !covers(s.subrange(0, n), row, col, r, c) implies #[trigger] cur[grid_index(
            r,
            c,
        )] == g[grid_index(r, c)] by {
            assert(!covers(s.subrange(0, n - 1), row, col, r, c)) by {
                if covers(s.subrange(0, n - 1), row, col, r, c) {
                    let i = choose|i: int|
                        0 <= i < s.subrange(0, n - 1).len() && r == row + (#[trigger] s.subrange(
                            0,
                            n - 1,
                        )[i]).0 && c == col + s.subrange(0, n - 1)[i].1;
                    assert(s.subrange(0, n)[i] == s[i]);
                    assert(covers(s.subrange(0, n), row, col, r, c));
                }
            }
            assert(!(r == rr && c == cc)) by {
                if r == rr && c == cc {
                    assert(s.subrange(0, n)[n - 1] == s[n - 1]);
                    assert(covers(s.subrange(0, n), row, col, r, c));
                }
            }
            assert(grid_index(r, c) != grid_index(rr, cc));
            assert(cur[grid_index(r, c)] == prev[grid_index(r, c)]);
        }
    }
}

/// Stamping a strictly interior shape with a piece color preserves grid
/// well-formedness.
pub proof fn lemma_stamped_wf(g: Seq<Cell>, b: Block, row: int, col: int)
    requires
        grid_wf(g),
        b.wf(),
        shape_inside(b.shape@, row, col),
    ensures
        grid_wf(stamped(g, b, row, col)),
        stamped(g, b, row, col).len() == GRID_LEN as int,
{
    let s = b.shape@;
    let n = s.len() as int;
    lemma_stamp_prefix_props(g, s, b.color, row, col, n);
    let sg = stamped(g, b, row, col);
    assert forall|r: int, c: int|
        in_grid(r, c) && is_border(r, c) implies #[trigger] sg[grid_index(r, c)]
        == Cell::Wall by {
        assert(!covers(s.subrange(0, n), row, col, r, c)) by {
            if covers(s.subrange(0, n), row, col, r, c) {
                let i = choose|i: int|
                    0 <= i < s.subrange(0, n).len() && r == row + (#[trigger] s.subrange(0, n)[i]).0
                        && c == col + s.subrange(0, n)[i].1;
                assert(s.subrange(0, n)[i] == s[i]);
                assert(cell_inside(s, row, col, i));
            }
        }
    }
    assert forall|r: int, c: int| is_interior(r, c) implies #[trigger] sg[grid_index(r, c)]
        != Cell::Wall by {
        if covers(s.subrange(0, n), row, col, r, c) {
            let i = choose|i: int|
                0 <= i < s.subrange(0, n).len() && r == row + (#[trigger] s.subrange(0, n)[i]).0
                    && c == col + s.subrange(0, n)[i].1;
            assert(s.subrange(0, n)[i] == s[i]);
            assert(sg[grid_index(row + s[i].0, col + s[i].1)] == b.color);
        }
    }
}

/// Append one freshly cleared row to a grid under construction.
fn push_empty_row(v: &mut Vec<Cell>)
    ensures
        final(v)@ == old(v)@ + empty_row(),
{
    let mut c: u32 = 0;
    while c < BOARD_WIDTH
        invariant
            c <= BOARD_WIDTH,
            v@ == old(v)@ + empty_row().subrange(0, c as int),
        decreases BOARD_WIDTH - c,
    {
        let cell = if c == 0 || c == BOARD_WIDTH - 1 {
            Cell::Wall
        } else {
            Cell::Empty
        };
        proof {
            assert(empty_row()[c as int] == cell);
            assert((old(v)@ + empty_row().subrange(0, c as int)).push(cell) =~= old(v)@
                + empty_row().subrange(0, c as int + 1));
        }
        v.push(cell);
        c += 1;
    }
    proof {
        assert(empty_row().subrange(0, BOARD_WIDTH as int) =~= empty_row());
    }
}

/// Append one all-wall row to a grid under construction.
fn push_wall_row(v: &mut Vec<Cell>)
    ensures
        final(v)@ == old(v)@ + wall_row(),
{
    let mut c: u32 = 0;
    while c < BOARD_WIDTH
        invariant
            c <= BOARD_WIDTH,
            v@ == old(v)@ + wall_row().subrange(0, c as int),
        decreases BOARD_WIDTH - c,
    {
        proof {
            assert(wall_row()[c as int] == Cell::Wall);
            assert((old(v)@ + wall_row().subrange(0, c as int)).push(Cell::Wall) =~= old(v)@
                + wall_row().subrange(0, c as int + 1));
        }
        v.push(Cell::Wall);
        c += 1;
    }
    proof {
        assert(wall_row().subrange(0, BOARD_WIDTH as int) =~= wall_row());
    }
}

/// Append a copy of row `r` of grid `g` to a grid under construction.
fn push_grid_row(v: &mut Vec<Cell>, g: &Vec<Cell>, r: u32)
    requires
        g@.len() == GRID_LEN as int,
        r < BOARD_HEIGHT,
    ensures
        final(v)@ == old(v)@ + row_seq(g@, r as int),
{
    let mut c: u32 = 0;
    while c < BOARD_WIDTH
        invariant
            c <= BOARD_WIDTH,
            g@.len() == GRID_LEN as int,
            r < BOARD_HEIGHT,
            v@ == old(v)@ + row_seq(g@, r as int).subrange(0, c as int),
        decreases BOARD_WIDTH - c,
    {
        let cell = g[(r * BOARD_WIDTH + c) as usize];
        proof {
            assert(row_seq(g@, r as int)[c as int] == g@[r * (BOARD_WIDTH as int) + c]);
            assert((old(v)@ + row_seq(g@, r as int).subrange(0, c as int)).push(cell) =~= old(v)@
                + row_seq(g@, r as int).subrange(0, c as int + 1));
        }
        v.push(cell);
        c += 1;
    }
    proof {
        assert(row_seq(g@, r as int).subrange(0, BOARD_WIDTH as int) =~= row_seq(g@, r as int));
    }
}

/// Containment: in a well-formed board every border cell is `Wall`, and
/// every cell that is not `Wall` lies strictly inside the playable area.
pub proof fn lemma_containment(b: Board, r: int, c: int)
    requires
        b.wf(),
        in_grid(r, c),
    ensures
        is_border(r, c) ==> b.cells@[grid_index(r, c)] == Cell::Wall,
        b.cells@[grid_index(r, c)] != Cell::Wall ==> is_interior(r, c),
{
}

/// With no filled row below `r`, the non-filled rows below `r` are just
/// `0, 1, .., r - 1`.
proof fn lemma_unfilled_none_filled(g: Seq<Cell>, r: int)
    requires
        r >= 0,
        forall|x: int| 0 <= x < r ==> !row_filled(g, x),
    ensures
        unfilled_upto(g, r) =~= Seq::new(r as nat, |i: int| i),
    decreases r,
{
    if r > 0 {
        lemma_unfilled_none_filled(g, r - 1);
    }
}

/// With exactly one filled row `r0` below `r`, the non-filled rows below `r`
/// are `0, .., r0 - 1` followed by `r0 + 1, .., r - 1`.
proof fn lemma_unfilled_one_filled(g: Seq<Cell>, r0: int, r: int)
    requires
        0 <= r0 < r,
        row_filled(g, r0),
        forall|x: int| 0 <= x < r && x != r0 ==> !row_filled(g, x),
    ensures
        unfilled_upto(g, r).len() == r - 1,
        forall|j: int| 0 <= j < r0 ==> #[trigger] unfilled_upto(g, r)[j] == j,
        forall|j: int| r0 <= j < r - 1 ==> #[trigger] unfilled_upto(g, r)[j] == j + 1,
    decreases r,
{
    if r == r0 + 1 {
        lemma_unfilled_none_filled(g, r0);
        assert(unfilled_upto(g, r) == unfilled_upto(g, r0));
    } else {
        lemma_unfilled_one_filled(g, r0, r - 1);
        assert(!row_filled(g, r - 1));
        assert(unfilled_upto(g, r) == unfilled_upto(g, r - 1).push(r - 1));
    }
}

/// Line-clear correctness for a single filled row: after compaction the
/// filled row is gone, every row above it has moved down by one, every row
/// below it is unchanged, a freshly cleared row sits on top, and the wall
/// row still closes the bottom.
pub proof fn lemma_single_row_clear(g: Seq<Cell>, r0: int)
    requires
        grid_wf(g),
        0 <= r0 < BOARD_HEIGHT as int - 1,
        row_filled(g, r0),
        forall|r: int| 0 <= r < BOARD_HEIGHT as int - 1 && r != r0 ==> !row_filled(g, r),
    ensures
        cleared_count(g) == 1,
        row_seq(compacted(g), 0) =~= empty_row(),
        forall|r: int| 0 <= r < r0 ==> #[trigger] row_seq(compacted(g), r + 1) =~= row_seq(g, r),
        forall|r: int|
            r0 < r < BOARD_HEIGHT as int - 1 ==> #[trigger] row_seq(compacted(g), r) =~= row_seq(
                g,
                r,
            ),
        row_seq(compacted(g), BOARD_HEIGHT as int - 1) =~= wall_row(),
{
    let h = BOARD_HEIGHT as int;
    let cg = compacted(g);
    let u = unfilled_upto(g, h - 1);
    lemma_unfilled_one_filled(g, r0, h - 1);
    lemma_compacted_rows(g);
    assert(cleared_count(g) == 1);
    assert(row_seq(cg, 0) =~= empty_row());
    assert forall|r: int| 0 <= r < r0 implies #[trigger] row_seq(cg, r + 1) =~= row_seq(
        g,
        r,
    ) by {
        assert(u[r] == r);
        assert(row_seq(cg, cleared_count(g) + r) =~= row_seq(g, u[r]));
        assert(cleared_count(g) + r == r + 1);
    }
    assert forall|r: int| r0 < r < h - 1 implies #[trigger] row_seq(cg, r) =~= row_seq(g, r) by {
        let j = r - 1;
        assert(u[j] == j + 1);
        assert(row_seq(cg, cleared_count(g) + j) =~= row_seq(g, u[j]));
        assert(cleared_count(g) + j == r);
    }
}

/// Number of locked piece cells (colored cells) in a cell sequence.
pub open spec fn occupied_count(s: Seq<Cell>) -> int
    decreases s.len(),
{
    if s.len() == 0 {
        0
    } else {
        occupied_count(s.drop_last()) + if s.last().is_color() {
            1int
        } else {
            0int
        }
    }
}

/// The first `n` rows of the grid, concatenated.
pub open spec fn rows_prefix(g: Seq<Cell>, n: int) -> Seq<Cell>
    decreases n,
{
    if n <= 0 {
        Seq::empty()
    } else {
        rows_prefix(g, n - 1) + row_seq(g, n - 1)
    }
}

/// Counting distributes over concatenation.
proof fn lemma_occupied_concat(a: Seq<Cell>, b: Seq<Cell>)
    ensures
        occupied_count(a + b) == occupied_count(a) + occupied_count(b),
    decreases b.len(),
{
    if b.len() == 0 {
        assert(a + b =~= a);
    } else {
        lemma_occupied_concat(a, b.drop_last());
        assert((a + b).drop_last() =~= a + b.drop_last());
        assert((a + b).last() == b.last());
    }
}

/// A sequence without colored cells counts zero.
proof fn lemma_occupied_none(s: Seq<Cell>)
    requires
        forall|i: int| 0 <= i < s.len() ==> !(#[trigger] s[i]).is_color(),
    ensures
        occupied_count(s) == 0,
    decreases s.len(),
{
    if s.len() > 0 {
        lemma_occupied_none(s.drop_last());
    }
}

/// A sequence whose cells are all colored except the first counts its
/// length minus one.
proof fn lemma_occupied_tail_colored(s: Seq<Cell>)
    requires
        s.len() >= 1,
        !s[0].is_color(),
        forall|i: int| 1 <= i < s.len() ==> (#[trigger] s[i]).is_color(),
    ensures
        occupied_count(s) == s.len() - 1,
    decreases s.len(),
{
    if s.len() > 1 {
        let s1 = s.drop_last();
        assert(!s1[0].is_color());
        assert forall|i: int| 1 <= i < s1.len() implies (#[trigger] s1[i]).is_color() by {
            assert(s1[i] == s[i]);
        }
        lemma_occupied_tail_colored(s1);
        assert((s[s.len() - 1]).is_color());
        assert(occupied_count(s) == occupied_count(s1) + 1);
    } else {
        assert(!s.last().is_color());
        assert(s.drop_last().len() == 0);
        assert(occupied_count(s.drop_last()) == 0);
    }
}

/// A filled interior row of a well-formed grid counts exactly its interior
/// width.
proof fn lemma_occupied_filled_row(g: Seq<Cell>, r: int)
    requires
        grid_wf(g),
        0 <= r < BOARD_HEIGHT as int - 1,
        row_filled(g, r),
    ensures
        occupied_count(row_seq(g, r)) == BOARD_WIDTH as int - 2,
{
    let w = BOARD_WIDTH as int;
    let s = row_seq(g, r);
    assert forall|c: int| 0 <= c < w implies s[c] == g[grid_index(r, c)] by {}
    assert(s[0] == Cell::Wall);
    assert(s[w - 1] == Cell::Wall);
    let s1 = s.drop_last();
    assert forall|i: int| 1 <= i < s1.len() implies (#[trigger] s1[i]).is_color() by {
        assert(s1[i] == g[grid_index(r, i)]);
        assert(g[grid_index(r, i)] != Cell::Empty);
        assert(is_interior(r, i));
        assert(g[grid_index(r, i)] != Cell::Wall);
    }
    lemma_occupied_tail_colored(s1);
    assert(occupied_count(s) == occupied_count(s1));
}

/// The row decomposition covers the whole grid.
proof fn lemma_rows_prefix_whole(g: Seq<Cell>, n: int)
    requires
        g.len() == GRID_LEN as int,
        0 <= n <= BOARD_HEIGHT as int,
    ensures
        rows_prefix(g, n) =~= g.subrange(0, n * (BOARD_WIDTH as int)),
    decreases n,
{
    if n > 0 {
        lemma_rows_prefix_whole(g, n - 1);
    }
}

/// Count preserved row-block by row-block: with one filled row `r0`, the
/// compacted rows `0 .. n + 1` hold as many colored cells as the old rows
/// `0 .. n`, for `n` up to `r0`.
proof fn lemma_clear_count_low(g: Seq<Cell>, r0: int, n: int)
    requires
        grid_wf(g),
        0 <= r0 < BOARD_HEIGHT as int - 1,
        row_filled(g, r0),
        forall|r: int| 0 <= r < BOARD_HEIGHT as int - 1 && r != r0 ==> !row_filled(g, r),
        0 <= n <= r0,
    ensures
        occupied_count(rows_prefix(compacted(g), n + 1)) == occupied_count(rows_prefix(g, n)),
    decreases n,
{
    let cg = compacted(g);
    lemma_single_row_clear(g, r0);
    if n == 0 {
        assert(rows_prefix(cg, 0) =~= Seq::<Cell>::empty());
        assert(rows_prefix(cg, 1) =~= Seq::empty() + row_seq(cg, 0));
        lemma_occupied_concat(Seq::empty(), row_seq(cg, 0));
        assert forall|i: int|
            0 <= i < row_seq(cg, 0).len() implies !(#[trigger] row_seq(cg, 0)[i]).is_color() by {
            assert(row_seq(cg, 0)[i] == empty_row()[i]);
        }
        lemma_occupied_none(row_seq(cg, 0));
    } else {
        lemma_clear_count_low(g, r0, n - 1);
        lemma_occupied_concat(rows_prefix(cg, n), row_seq(cg, n));
        lemma_occupied_concat(rows_prefix(g, n - 1), row_seq(g, n - 1));
        assert(row_seq(cg, (n - 1) + 1) =~= row_seq(g, n - 1));
    }
}

/// Count preserved above the cleared row: from row `r0 + 1` up, compacted
/// rows match the old rows, so the totals differ by exactly the cleared
/// row's interior width.
proof fn lemma_clear_count_high(g: Seq<Cell>, r0: int, n: int)
    requires
        grid_wf(g),
        0 <= r0 < BOARD_HEIGHT as int - 1,
        row_filled(g, r0),
        forall|r: int| 0 <= r < BOARD_HEIGHT as int - 1 && r != r0 ==> !row_filled(g, r),
        r0 + 1 <= n <= BOARD_HEIGHT as int - 1,
    ensures
        occupied_count(rows_prefix(compacted(g), n)) + (BOARD_WIDTH as int - 2) == occupied_count(
            rows_prefix(g, n),
        ),
    decreases n,
{
    let cg = compacted(g);
    lemma_single_row_clear(g, r0);
    if n == r0 + 1 {
        lemma_clear_count_low(g, r0, r0);
        lemma_occupied_concat(rows_prefix(g, r0), row_seq(g, r0));
        lemma_occupied_filled_row(g, r0);
    } else {
        lemma_clear_count_high(g, r0, n - 1);
        lemma_occupied_concat(rows_prefix(cg, n - 1), row_seq(cg, n - 1));
        lemma_occupied_concat(rows_prefix(g, n - 1), row_seq(g, n - 1));
        assert(row_seq(cg, n - 1) =~= row_seq(g, n - 1));
    }
}

/// Line-clear cell accounting: clearing the one filled row removes exactly
/// that row's interior width worth of colored cells.
pub proof fn lemma_single_row_clear_count(g: Seq<Cell>, r0: int)
    requires
        grid_wf(g),
        0 <= r0 < BOARD_HEIGHT as int - 1,
        row_filled(g, r0),
        forall|r: int| 0 <= r < BOARD_HEIGHT as int - 1 && r != r0 ==> !row_filled(g, r),
    ensures
        occupied_count(compacted(g)) + (BOARD_WIDTH as int - 2) == occupied_count(g),
{
    let h = BOARD_HEIGHT as int;
    let w = BOARD_WIDTH as int;
    let cg = compacted(g);
    lemma_single_row_clear(g, r0);
    lemma_compacted_rows(g);
    lemma_clear_count_high(g, r0, h - 1);
    lemma_occupied_concat(rows_prefix(cg, h - 1), row_seq(cg, h - 1));
    lemma_occupied_concat(rows_prefix(g, h - 1), row_seq(g, h - 1));
    assert forall|i: int|
        0 <= i < row_seq(cg, h - 1).len() implies !(#[trigger] row_seq(cg, h - 1)[i]).is_color() by {
        assert(row_seq(cg, h - 1)[i] == wall_row()[i]);
    }
    lemma_occupied_none(row_seq(cg, h - 1));
    assert forall|i: int|
        0 <= i < row_seq(g, h - 1).len() implies !(#[trigger] row_seq(g, h - 1)[i]).is_color() by {
        assert(row_seq(g, h - 1)[i] == g[grid_index(h - 1, i)]);
        assert(in_grid(h - 1, i) && is_border(h - 1, i));
    }
    lemma_occupied_none(row_seq(g, h - 1));
    lemma_rows_prefix_whole(cg, h);
    lemma_rows_prefix_whole(g, h);
    assert(g.subrange(0, h * w) =~= g);
    assert(cg.subrange(0, h * w) =~= cg);
}

/// Where a hard drop lands: from the pre-drop board `pre`, row `r` is the
/// lowest origin row the active block can occupy, and the new grid is the
/// old one with the block stamped there and then compacted.
pub open spec fn drop_landing(pre: Board, new_cells: Seq<Cell>, r: int) -> bool {
    &&& pre.currentBlockPos.0 <= r < BOARD_HEIGHT as int
    &&& (r == pre.currentBlockPos.0 || shape_fits(
        pre.cells@,
        pre.currentBlock.shape@,
        r,
        pre.currentBlockPos.1 as int,
    ))
    &&& !shape_fits(pre.cells@, pre.currentBlock.shape@, r + 1, pre.currentBlockPos.1 as int)
    &&& new_cells == compacted(stamped(pre.cells@, pre.currentBlock, r, pre.currentBlockPos.1 as int))
}

/// The mutable game state: grid, active piece and its origin, the queued
/// piece, and the optional held piece.
pub struct Board {
    pub width: u32,
    pub height: u32,
    pub cells: Vec<Cell>,
    pub currentBlockPos: Point,
    pub currentBlock: Block,
    pub nextBlock: Block,
    pub keepingBlock: Option<Block>,
}

/// Held-piece slots with equal contents.
pub open spec fn opt_block_eq(a: Option<Block>, b: Option<Block>) -> bool {
    match (a, b) {
        (Option::Some(x), Option::Some(y)) => block_eq(x, y),
        (Option::None, Option::None) => true,
        _ => false,
    }
}

impl Board {
    /// Well-formedness: the fixed dimensions, a well-formed grid, well-formed
    /// pieces, and an in-grid active origin.
    pub open spec fn wf(self) -> bool {
        &&& self.width == BOARD_WIDTH
        &&& self.height == BOARD_HEIGHT
        &&& grid_wf(self.cells@)
        &&& self.currentBlock.wf()
        &&& self.nextBlock.wf()
        &&& match self.keepingBlock {
            Option::Some(b) => b.wf(),
            Option::None => true,
        }
        &&& self.currentBlockPos.0 < BOARD_HEIGHT
        &&& self.currentBlockPos.1 < BOARD_WIDTH
    }

    /// The active piece, at its current origin, sits entirely on empty cells.
    pub open spec fn active_fits(self) -> bool {
        shape_fits(
            self.cells@,
            self.currentBlock.shape@,
            self.currentBlockPos.0 as int,
            self.currentBlockPos.1 as int,
        )
    }

    /// The active piece, at its current origin, lies strictly inside the
    /// playable area.
    pub open spec fn active_inside(self) -> bool {
        shape_inside(
            self.currentBlock.shape@,
            self.currentBlockPos.0 as int,
            self.currentBlockPos.1 as int,
        )
    }

    pub fn getWidth(&self) -> (w: u32)
        ensures
            w == self.width,
    {
        self.width
    }

    pub fn getHeight(&self) -> (h: u32)
        ensures
            h == self.height,
    {
        self.height
    }

    /// An independent copy of the active piece.
    pub fn getCurrentBlock(&self) -> (b: Block)
        ensures
            block_eq(b, self.currentBlock),
    {
        self.currentBlock.duplicate()
    }

    pub fn getCurrentBlockPos(&self) -> (p: Point)
        ensures
            p == self.currentBlockPos,
    {
        self.currentBlockPos
    }

    /// An independent copy of the queued piece.
    pub fn getNextBlock(&self) -> (b: Block)
        ensures
            block_eq(b, self.nextBlock),
    {
        self.nextBlock.duplicate()
    }

    /// An independent copy of the held piece, if any.
    pub fn getKeepingBlock(&self) -> (b: Option<Block>)
        ensures
            opt_block_eq(b, self.keepingBlock),
    {
        match &self.keepingBlock {
            Option::Some(b) => Option::Some(b.duplicate()),
            Option::None => Option::None,
        }
    }

    /// Read-only view of the whole grid, row-major.
    pub fn getCells(&self) -> (cells: &Vec<Cell>)
        ensures
            cells@ == self.cells@,
    {
        &self.cells
    }

    /// Index of an in-bounds coordinate; out-of-bounds coordinates are a
    /// contract violation and excluded up front.
    fn getIndex(&self, row: u32, col: u32) -> (i: usize)
        requires
            self.wf(),
            row < BOARD_HEIGHT,
            col < BOARD_WIDTH,
        ensures
            i == grid_index(row as int, col as int),
            i < GRID_LEN,
    {
        (row * self.width + col) as usize
    }

    /// The cell at an in-bounds coordinate; out-of-bounds coordinates are a
    /// contract violation and excluded up front.
    pub fn getCell(&self, row: u32, col: u32) -> (cell: Cell)
        requires
            self.wf(),
            row < BOARD_HEIGHT,
            col < BOARD_WIDTH,
        ensures
            cell == self.cells@[grid_index(row as int, col as int)],
    {
        let i = self.getIndex(row, col);
        self.cells[i]
    }

    /// The occupancy check: every translated cell of the block must land on
    /// an empty in-grid cell. A translated cell off the grid fails the check
    /// rather than being indexed.
    fn enableBlockPos(&self, block: &Block, newRow: u32, newCol: u32) -> (ok: bool)
        requires
            self.wf(),
            block.wf(),
            newRow <= BOARD_HEIGHT,
            newCol <= BOARD_WIDTH,
        ensures
            ok == shape_fits(self.cells@, block.shape@, newRow as int, newCol as int),
    {
        let mut i: usize = 0;
        while i < block.shape.len()
            invariant
                self.wf(),
                block.wf(),
                newRow <= BOARD_HEIGHT,
                newCol <= BOARD_WIDTH,
                i <= block.shape@.len(),
                forall|j: int|
                    0 <= j < i ==> #[trigger] cell_free(
                        self.cells@,
                        block.shape@,
                        newRow as int,
                        newCol as int,
                        j,
                    ),
            decreases block.shape@.len() - i,
        {
            let p = block.shape[i];
            let r = newRow + p.0;
            let c = newCol + p.1;
            if !(r < self.height && c < self.width) {
                proof {
                    assert(!cell_free(self.cells@, block.shape@, newRow as int, newCol as int, i as int));
                }
                return false;
            }
            let k = self.getIndex(r, c);
            if self.cells[k] != Cell::Empty {
                proof {
                    assert(!cell_free(self.cells@, block.shape@, newRow as int, newCol as int, i as int));
                }
                return false;
            }
            i += 1;
        }
        true
    }

    /// Whether the active block, at its current origin, lies strictly inside
    /// the playable area: the guard that `tick`, `dropCurrentBlock` and
    /// `next` ask of their callers.
    pub fn currentBlockInside(&self) -> (ok: bool)
        requires
            self.wf(),
        ensures
            ok == self.active_inside(),
    {
        let row = self.currentBlockPos.0;
        let col = self.currentBlockPos.1;
        let mut i: usize = 0;
        while i < self.currentBlock.shape.len()
            invariant
                self.wf(),
                row == self.currentBlockPos.0,
                col == self.currentBlockPos.1,
                i <= self.currentBlock.shape@.len(),
                forall|j: int|
                    0 <= j < i ==> #[trigger] cell_inside(
                        self.currentBlock.shape@,
                        row as int,
                        col as int,
                        j,
                    ),
            decreases self.currentBlock.shape@.len() - i,
        {
            let p = self.currentBlock.shape[i];
            let r = row + p.0;
            let c = col + p.1;
            if !(1 <= c && c < self.width - 1 && r < self.height - 1) {
                proof {
                    assert(!cell_inside(self.currentBlock.shape@, row as int, col as int, i as int));
                }
                return false;
            }
            i += 1;
        }
        true
    }

    /// The candidate origin one step in direction `dir`, as a pair of
    /// (possibly negative) mathematical coordinates.
    pub open spec fn step_target(self, dir: Dir) -> (int, int) {
        match dir {
            Dir::Up => (self.currentBlockPos.0 - 1, self.currentBlockPos.1 as int),
            Dir::Down => (self.currentBlockPos.0 + 1, self.currentBlockPos.1 as int),
            Dir::Left => (self.currentBlockPos.0 as int, self.currentBlockPos.1 - 1),
            Dir::Right => (self.currentBlockPos.0 as int, self.currentBlockPos.1 + 1),
        }
    }

    /// A move in direction `dir` is allowed when the candidate origin stays
    /// non-negative and the active block fits there on empty cells.
    pub open spec fn move_allowed(self, dir: Dir) -> bool {
        &&& self.step_target(dir).0 >= 0
        &&& self.step_target(dir).1 >= 0
        &&& shape_fits(
            self.cells@,
            self.currentBlock.shape@,
            self.step_target(dir).0,
            self.step_target(dir).1,
        )
    }

    /// Move the active block one step. On success the origin is committed
    /// and the block provably sits on empty cells; on failure the board is
    /// exactly as before. A step off the top or left edge is rejected, never
    /// indexed.
    pub fn moveCurrentBlock(&mut self, dir: Dir) -> (moved: bool)
        requires
            old(self).wf(),
        ensures
            final(self).wf(),
            moved == old(self).move_allowed(dir),
            moved ==> final(self).currentBlockPos.0 as int == old(self).step_target(dir).0
                && final(self).currentBlockPos.1 as int == old(self).step_target(dir).1,
            final(self).cells@ == old(self).cells@,
            final(self).currentBlock == old(self).currentBlock,
            final(self).nextBlock == old(self).nextBlock,
            final(self).keepingBlock == old(self).keepingBlock,
            moved ==> final(self).active_fits() && final(self).active_inside(),
            !moved ==> *final(self) == *old(self),
    {
        let row = self.currentBlockPos.0;
        let col = self.currentBlockPos.1;
        let (ok, new_row, new_col): (bool, u32, u32) = match dir {
            Dir::Up => {
                if row == 0 {
                    (false, 0, 0)
                } else {
                    (true, row - 1, col)
                }
            },
            Dir::Down => (true, row + 1, col),
            Dir::Left => {
                if col == 0 {
                    (false, 0, 0)
                } else {
                    (true, row, col - 1)
                }
            },
            Dir::Right => (true, row, col + 1),
        };
        if !ok {
            return false;
        }
        if self.enableBlockPos(&self.currentBlock, new_row, new_col) {
            proof {
                assert(cell_free(self.cells@, self.currentBlock.shape@, new_row as int, new_col as int, 0));
                lemma_fits_is_inside(
                    self.cells@,
                    self.currentBlock.shape@,
                    new_row as int,
                    new_col as int,
                );
            }
            self.currentBlockPos = Point(new_row, new_col);
            true
        } else {
            false
        }
    }

    /// Rotate the active block in place. On success the rotated block
    /// provably sits on empty cells; on failure the board is exactly as
    /// before. No kick or offset search is attempted.
    pub fn turnCurrentBlock(&mut self) -> (turned: bool)
        requires
            old(self).wf(),
        ensures
            final(self).wf(),
            turned == shape_fits(
                old(self).cells@,
                crate::piece::turned_shape(old(self).currentBlock.shape@),
                old(self).currentBlockPos.0 as int,
                old(self).currentBlockPos.1 as int,
            ),
            final(self).cells@ == old(self).cells@,
            final(self).currentBlockPos == old(self).currentBlockPos,
            final(self).nextBlock == old(self).nextBlock,
            final(self).keepingBlock == old(self).keepingBlock,
            turned ==> final(self).currentBlock.size == old(self).currentBlock.size
                && final(self).currentBlock.color == old(self).currentBlock.color
                && final(self).currentBlock.shape@ == crate::piece::turned_shape(
                old(self).currentBlock.shape@,
            ),
            turned ==> final(self).active_fits() && final(self).active_inside(),
            !turned ==> *final(self) == *old(self),
    {
        let row = self.currentBlockPos.0;
        let col = self.currentBlockPos.1;
        let turned_block = self.currentBlock.turn();
        if self.enableBlockPos(&turned_block, row, col) {
            proof {
                lemma_fits_is_inside(self.cells@, turned_block.shape@, row as int, col as int);
            }
            self.currentBlock = turned_block;
            true
        } else {
            false
        }
    }

    /// Swap the active block with the held one. With nothing held yet, the
    /// queued block is promoted and a fresh random block is queued; the
    /// active origin is left untouched either way.
    pub fn keepCurrentBlock(&mut self)
        requires
            old(self).wf(),
        ensures
            final(self).wf(),
            final(self).cells@ == old(self).cells@,
            final(self).currentBlockPos == old(self).currentBlockPos,
            opt_block_eq(final(self).keepingBlock, Option::Some(old(self).currentBlock)),
            old(self).keepingBlock is Some ==> block_eq(
                final(self).currentBlock,
                old(self).keepingBlock->Some_0,
            ) && final(self).nextBlock == old(self).nextBlock,
            old(self).keepingBlock is None ==> block_eq(
                final(self).currentBlock,
                old(self).nextBlock,
            ) && final(self).nextBlock.wf(),
    {
        let next_block: Block = match &self.keepingBlock {
            Option::Some(b) => b.duplicate(),
            Option::None => {
                let promoted = self.nextBlock.duplicate();
                self.nextBlock = Block::new_rand();
                promoted
            },
        };
        self.keepingBlock = Option::Some(self.currentBlock.duplicate());
        self.currentBlock = next_block;
    }

    /// Return the active origin to the spawn point.
    pub fn resetCurrentBlockPos(&mut self)
        requires
            old(self).wf(),
        ensures
            final(self).wf(),
            final(self).currentBlockPos == spawn_pos(),
            final(self).cells@ == old(self).cells@,
            final(self).currentBlock == old(self).currentBlock,
            final(self).nextBlock == old(self).nextBlock,
            final(self).keepingBlock == old(self).keepingBlock,
    {
        self.currentBlockPos = Point(0, self.width / 2 - 2);
    }

    /// Whether every interior cell of row `row` is non-empty.
    fn rowFilled(&self, row: u32) -> (filled: bool)
        requires
            self.wf(),
            row < BOARD_HEIGHT - 1,
        ensures
            filled == row_filled(self.cells@, row as int),
    {
        let mut c: u32 = 1;
        while c < BOARD_WIDTH - 1
            invariant
                self.wf(),
                row < BOARD_HEIGHT - 1,
                1 <= c <= BOARD_WIDTH - 1,
                forall|j: int|
                    1 <= j < c ==> #[trigger] self.cells@[grid_index(row as int, j)]
                        != Cell::Empty,
            decreases BOARD_WIDTH - c,
        {
            let k = self.getIndex(row, c);
            if self.cells[k] == Cell::Empty {
                return false;
            }
            c += 1;
        }
        true
    }

    /// Clear-and-compact: drop every filled row, sink the remaining rows to
    /// the bottom in their old order, and leave freshly cleared rows on top.
    /// Reports whether any row was cleared.
    fn clearFilledLine(&mut self) -> (cleared: bool)
        requires
            old(self).wf(),
        ensures
            final(self).wf(),
            final(self).cells@ == compacted(old(self).cells@),
            cleared == (cleared_count(old(self).cells@) > 0),
            final(self).currentBlock == old(self).currentBlock,
            final(self).currentBlockPos == old(self).currentBlockPos,
            final(self).nextBlock == old(self).nextBlock,
            final(self).keepingBlock == old(self).keepingBlock,
    {
        let ghost g = self.cells@;
        let mut filled: u32 = 0;
        let mut r: u32 = 0;
        while r < BOARD_HEIGHT - 1
            invariant
                self.wf(),
                g == self.cells@,
                r <= BOARD_HEIGHT - 1,
                filled <= r,
                filled as int == r - unfilled_upto(g, r as int).len(),
            decreases BOARD_HEIGHT - 1 - r,
        {
            proof {
                lemma_unfilled_upto_props(g, r as int);
            }
            if self.rowFilled(r) {
                filled += 1;
            }
            r += 1;
        }
        let mut nc: Vec<Cell> = Vec::new();
        let mut i: u32 = 0;
        proof {
            assert(nc@ =~= empty_rows(0));
        }
        while i < filled
            invariant
                i <= filled,
                nc@ == empty_rows(i as int),
            decreases filled - i,
        {
            push_empty_row(&mut nc);
            i += 1;
        }
        let mut r2: u32 = 0;
        proof {
            assert(copied_rows(g, unfilled_upto(g, 0)) =~= Seq::<Cell>::empty());
            assert(nc@ + copied_rows(g, unfilled_upto(g, 0)) =~= nc@);
        }
        let ghost e = nc@;
        while r2 < BOARD_HEIGHT - 1
            invariant
                self.wf(),
                g == self.cells@,
                r2 <= BOARD_HEIGHT - 1,
                e == empty_rows(filled as int),
                nc@ == e + copied_rows(g, unfilled_upto(g, r2 as int)),
            decreases BOARD_HEIGHT - 1 - r2,
        {
            if !self.rowFilled(r2) {
                push_grid_row(&mut nc, &self.cells, r2);
                proof {
                    let u = unfilled_upto(g, r2 as int);
                    assert(u.push(r2 as int).drop_last() =~= u);
                    assert(copied_rows(g, u.push(r2 as int)) == copied_rows(g, u) + row_seq(
                        g,
                        r2 as int,
                    ));
                    assert((e + copied_rows(g, u)) + row_seq(g, r2 as int) =~= e + (copied_rows(
                        g,
                        u,
                    ) + row_seq(g, r2 as int)));
                }
            }
            r2 += 1;
        }
        push_wall_row(&mut nc);
        proof {
            lemma_unfilled_upto_props(g, BOARD_HEIGHT as int - 1);
            assert(filled as int == cleared_count(g));
            lemma_compacted_wf(g);
            assert(nc@ =~= compacted(g));
        }
        self.cells = nc;
        filled > 0
    }

    /// Lock, clear, and advance, with `incoming` as the newly queued block:
    /// stamp the active block into the grid, clear-and-compact, reset the
    /// origin to spawn, promote the queued block, and queue `incoming`.
    /// Stamping indexes the grid, so the active block must lie strictly
    /// inside the playable area; anything else is a contract violation.
    pub fn next_with(&mut self, incoming: Block)
        requires
            old(self).wf(),
            incoming.wf(),
            old(self).active_inside(),
        ensures
            final(self).wf(),
            final(self).cells@ == compacted(
                stamped(
                    old(self).cells@,
                    old(self).currentBlock,
                    old(self).currentBlockPos.0 as int,
                    old(self).currentBlockPos.1 as int,
                ),
            ),
            final(self).currentBlockPos == spawn_pos(),
            block_eq(final(self).currentBlock, old(self).nextBlock),
            final(self).nextBlock == incoming,
            final(self).keepingBlock == old(self).keepingBlock,
            final(self).active_inside(),
    {
        let row = self.currentBlockPos.0;
        let col = self.currentBlockPos.1;
        let color = self.currentBlock.getColor();
        let ghost g0 = self.cells@;
        let ghost s = self.currentBlock.shape@;
        let mut i: usize = 0;
        while i < self.currentBlock.shape.len()
            invariant
                self.width == BOARD_WIDTH,
                self.height == BOARD_HEIGHT,
                self.currentBlock == old(self).currentBlock,
                self.nextBlock == old(self).nextBlock,
                self.keepingBlock == old(self).keepingBlock,
                self.currentBlockPos == old(self).currentBlockPos,
                self.currentBlock.wf(),
                self.nextBlock.wf(),
                match self.keepingBlock {
                    Option::Some(b) => b.wf(),
                    Option::None => true,
                },
                row == self.currentBlockPos.0,
                col == self.currentBlockPos.1,
                row < BOARD_HEIGHT,
                col < BOARD_WIDTH,
                s == self.currentBlock.shape@,
                color == self.currentBlock.color,
                shape_inside(s, row as int, col as int),
                i <= s.len(),
                self.cells@.len() == GRID_LEN as int,
                self.cells@ == stamp_prefix(g0, s, color, row as int, col as int, i as int),
            decreases s.len() - i,
        {
            let p = self.currentBlock.shape[i];
            proof {
                assert(cell_inside(s, row as int, col as int, i as int));
            }
            let k = ((row + p.0) * BOARD_WIDTH + (col + p.1)) as usize;
            self.cells[k] = color;
            i += 1;
        }
        proof {
            lemma_stamped_wf(g0, old(self).currentBlock, row as int, col as int);
        }
        self.clearFilledLine();
        self.resetCurrentBlockPos();
        self.currentBlock = self.nextBlock.duplicate();
        self.nextBlock = incoming;
        proof {
            assert forall|j: int|
                0 <= j < self.currentBlock.shape@.len() implies #[trigger] cell_inside(
                self.currentBlock.shape@,
                self.currentBlockPos.0 as int,
                self.currentBlockPos.1 as int,
                j,
            ) by {
                assert(self.currentBlock.shape@[j].0 < BLOCK_SIZE);
            }
        }
    }

    /// Lock, clear, and advance, queueing a fresh random block.
    pub fn next(&mut self)
        requires
            old(self).wf(),
            old(self).active_inside(),
        ensures
            final(self).wf(),
            final(self).cells@ == compacted(
                stamped(
                    old(self).cells@,
                    old(self).currentBlock,
                    old(self).currentBlockPos.0 as int,
                    old(self).currentBlockPos.1 as int,
                ),
            ),
            final(self).currentBlockPos == spawn_pos(),
            block_eq(final(self).currentBlock, old(self).nextBlock),
            final(self).nextBlock.wf(),
            final(self).keepingBlock == old(self).keepingBlock,
            final(self).active_inside(),
    {
        let b = Block::new_rand();
        self.next_with(b);
    }

    /// One gravity step: try to move the active block down; when that fails
    /// the block has landed, so lock, clear, and advance.
    pub fn tick(&mut self)
        requires
            old(self).wf(),
            old(self).active_inside(),
        ensures
            final(self).wf(),
            final(self).active_inside(),
            old(self).move_allowed(Dir::Down) ==> final(self).cells@ == old(self).cells@
                && final(self).currentBlock == old(self).currentBlock
                && final(self).nextBlock == old(self).nextBlock
                && final(self).keepingBlock == old(self).keepingBlock
                && final(self).currentBlockPos.0 == old(self).currentBlockPos.0 + 1
                && final(self).currentBlockPos.1 == old(self).currentBlockPos.1
                && final(self).active_fits(),
            !old(self).move_allowed(Dir::Down) ==> final(self).cells@ == compacted(
                stamped(
                    old(self).cells@,
                    old(self).currentBlock,
                    old(self).currentBlockPos.0 as int,
                    old(self).currentBlockPos.1 as int,
                ),
            ) && final(self).currentBlockPos == spawn_pos() && block_eq(
                final(self).currentBlock,
                old(self).nextBlock,
            ) && final(self).nextBlock.wf() && final(self).keepingBlock == old(
                self,
            ).keepingBlock,
    {
        if !self.moveCurrentBlock(Dir::Down) {
            self.next();
        }
    }

    /// Hard drop: move the active block down as far as it goes (at most the
    /// board height, so this terminates), then lock, clear, and advance.
    pub fn dropCurrentBlock(&mut self)
        requires
            old(self).wf(),
            old(self).active_inside(),
        ensures
            final(self).wf(),
            final(self).active_inside(),
            final(self).currentBlockPos == spawn_pos(),
            block_eq(final(self).currentBlock, old(self).nextBlock),
            final(self).nextBlock.wf(),
            final(self).keepingBlock == old(self).keepingBlock,
            exists|r: int| #[trigger] drop_landing(*old(self), final(self).cells@, r),
    {
        while self.moveCurrentBlock(Dir::Down)
            invariant
                self.wf(),
                self.active_inside(),
                self.cells@ == old(self).cells@,
                self.currentBlock == old(self).currentBlock,
                self.nextBlock == old(self).nextBlock,
                self.keepingBlock == old(self).keepingBlock,
                self.currentBlockPos.1 == old(self).currentBlockPos.1,
                old(self).currentBlockPos.0 <= self.currentBlockPos.0 < BOARD_HEIGHT,
                self.currentBlockPos.0 > old(self).currentBlockPos.0 ==> shape_fits(
                    self.cells@,
                    self.currentBlock.shape@,
                    self.currentBlockPos.0 as int,
                    self.currentBlockPos.1 as int,
                ),
            decreases BOARD_HEIGHT - self.currentBlockPos.0,
        {
        }
        let ghost rfin = self.currentBlockPos.0 as int;
        self.next();
        proof {
            assert(drop_landing(*old(self), self.cells@, rfin));
        }
    }

    /// A fresh board with the given active and queued blocks: the default
    /// dimensions, a walled ring around an empty interior, the active origin
    /// at spawn, and nothing held.
    pub fn new_with(current: Block, next: Block) -> (board: Board)
        requires
            current.wf(),
            next.wf(),
        ensures
            board.wf(),
            forall|r: int, c: int|
                is_interior(r, c) ==> #[trigger] board.cells@[grid_index(r, c)] == Cell::Empty,
            board.currentBlockPos == spawn_pos(),
            board.currentBlock == current,
            board.nextBlock == next,
            board.keepingBlock is None,
            board.active_inside(),
    {
        let mut cells: Vec<Cell> = Vec::new();
        let mut r: u32 = 0;
        proof {
            assert(cells@ =~= empty_rows(0));
        }
        while r < BOARD_HEIGHT - 1
            invariant
                r <= BOARD_HEIGHT - 1,
                cells@ == empty_rows(r as int),
            decreases BOARD_HEIGHT - 1 - r,
        {
            push_empty_row(&mut cells);
            r += 1;
        }
        push_wall_row(&mut cells);
        let board = Board {
            width: BOARD_WIDTH,
            height: BOARD_HEIGHT,
            cells,
            currentBlockPos: Point(0, BOARD_WIDTH / 2 - 2),
            currentBlock: current,
            nextBlock: next,
            keepingBlock: Option::None,
        };
        proof {
            lemma_initial_grid(board.cells@);
            assert forall|j: int|
                0 <= j < board.currentBlock.shape@.len() implies #[trigger] cell_inside(
                board.currentBlock.shape@,
                board.currentBlockPos.0 as int,
                board.currentBlockPos.1 as int,
                j,
            ) by {
                assert(board.currentBlock.shape@[j].0 < BLOCK_SIZE);
            }
        }
        board
    }

    /// A fresh board with two random blocks drawn from the catalogue.
    pub fn new() -> (board: Board)
        ensures
            board.wf(),
            forall|r: int, c: int|
                is_interior(r, c) ==> #[trigger] board.cells@[grid_index(r, c)] == Cell::Empty,
            board.currentBlockPos == spawn_pos(),
            board.keepingBlock is None,
            board.active_inside(),
            exists|kind: int| 0 <= kind < 7 && board.currentBlock.is_kind(kind),
            exists|kind: int| 0 <= kind < 7 && board.nextBlock.is_kind(kind),
    {
        let current = Block::new_rand();
        let next = Block::new_rand();
        Board::new_with(current, next)
    }
}

/// The freshly built grid of 29 cleared rows over the wall row is
/// well-formed and has an entirely empty interior.
proof fn lemma_initial_grid(g: Seq<Cell>)
    requires
        g == empty_rows(BOARD_HEIGHT as int - 1) + wall_row(),
    ensures
        grid_wf(g),
        forall|r: int, c: int|
            is_interior(r, c) ==> #[trigger] g[grid_index(r, c)] == Cell::Empty,
{
    let w = BOARD_WIDTH as int;
    let h = BOARD_HEIGHT as int;
    lemma_empty_rows_props(h - 1);
    let e = empty_rows(h - 1);
    assert forall|r: int, c: int| in_grid(r, c) implies #[trigger] g[grid_index(r, c)] == (
    if is_border(r, c) {
        Cell::Wall
    } else {
        Cell::Empty
    }) by {
        if r < h - 1 {
            assert(e.subrange(r * w, r * w + w) =~= empty_row());
            assert(e[r * w + c] == empty_row()[c]);
            assert(g[grid_index(r, c)] == e[r * w + c]);
        } else {
            assert(g[grid_index(r, c)] == wall_row()[grid_index(r, c) - e.len()]);
        }
    }
}

} // verus!
