//! Positions, board sizes, cell states and the mathematical description of
//! a consistent minefield.
use vstd::prelude::*;

verus! {

/// A cell coordinate: `x` is the row, `y` the column.
#[derive(Debug, Clone, Copy, PartialEq, Eq, Structural)]
pub struct Position {
    pub x: i32,
    pub y: i32,
}

/// Board bounds: `size_x` rows of `size_y` columns.
#[derive(Debug, Clone, Copy, PartialEq, Eq, Structural)]
pub struct Size {
    pub size_x: i32,
    pub size_y: i32,
}

/// What a cell truly holds.
#[derive(Debug, Clone, Copy, PartialEq, Eq, Structural)]
pub enum Cell {
    Mine,
    Number(u8),
    Nothing,
}

/// What the player sees of a cell.
#[derive(Debug, Clone, Copy, PartialEq, Eq, Structural)]
pub enum Visibility {
    Hidden,
    Revealed,
    Flagged,
}

/// The player's logical actions.
#[derive(Debug, Clone, Copy, PartialEq, Eq, Structural)]
pub enum Action {
    Up,
    Down,
    Left,
    Right,
    Mark,
    Reveal,
}

/// Where the cursor goes: one step in the action's direction, kept on the board's
/// rows and columns; marking and revealing leave it in place.
pub open spec fn cursor_after(size: Size, pos: Position, action: Action) -> Position {
    match action {
        Action::Up => Position { x: if pos.x - 1 < 0 { 0 } else { (pos.x - 1) as i32 }, y: pos.y },
        Action::Down => Position {
            x: if pos.x + 1 == size.size_x { (size.size_x - 1) as i32 } else { (pos.x + 1) as i32 },
            y: pos.y,
        },
        Action::Left => Position { x: pos.x, y: if pos.y - 1 < 0 { 0 } else { (pos.y - 1) as i32 } },
        Action::Right => Position {
            x: pos.x,
            y: if pos.y + 1 == size.size_y { (size.size_y - 1) as i32 } else { (pos.y + 1) as i32 },
        },
        Action::Mark | Action::Reveal => pos,
    }
}

/// Moves the cursor (see `cursor_after`).
pub fn move_cursor(size: Size, pos: Position, action: Action) -> (r: Position)
    requires
        i32::MIN < pos.x < i32::MAX,
        i32::MIN < pos.y < i32::MAX,
    ensures
        r == cursor_after(size, pos, action),
{
    match action {
        Action::Up => {
            let x = pos.x - 1;
            Position { x: if x < 0 { 0 } else { x }, y: pos.y }
        },
        Action::Down => {
            let x = pos.x + 1;
            Position { x: if x == size.size_x { size.size_x - 1 } else { x }, y: pos.y }
        },
        Action::Left => {
            let y = pos.y - 1;
            Position { x: pos.x, y: if y < 0 { 0 } else { y } }
        },
        Action::Right => {
            let y = pos.y + 1;
            Position { x: pos.x, y: if y == size.size_y { size.size_y - 1 } else { y } }
        },
        Action::Mark | Action::Reveal => pos,
    }
}

/// Sizes that the engine accepts: non-negative, with a cell count that fits an `i32`.
pub open spec fn size_ok(size: Size) -> bool {
    &&& size.size_x >= 0
    &&& size.size_y >= 0
    &&& size.size_x * size.size_y <= i32::MAX
}

pub open spec fn cell_total(size: Size) -> int {
    size.size_x * size.size_y
}

pub open spec fn in_bounds(size: Size, x: int, y: int) -> bool {
    0 <= x < size.size_x && 0 <= y < size.size_y
}

/// Row-major index of a cell.
pub open spec fn index_of(size: Size, x: int, y: int) -> int {
    x * size.size_y + y
}

/// Two distinct cells of each other's Moore neighbourhood.
pub open spec fn touching(x1: int, y1: int, x2: int, y2: int) -> bool {
    &&& !(x1 == x2 && y1 == y2)
    &&& -1 <= x1 - x2 <= 1
    &&& -1 <= y1 - y2 <= 1
}

pub open spec fn is_mine(c: Cell) -> bool {
    c == Cell::Mine
}

/// 1 where an in-bounds cell holds a mine, else 0.
pub open spec fn mine_at(truth: Seq<Cell>, size: Size, x: int, y: int) -> int {
    if in_bounds(size, x, y) && is_mine(truth[index_of(size, x, y)]) {
        1
    } else {
        0
    }
}

/// The number of mines among the up to eight neighbours of `(x, y)`.
pub open spec fn adjacent_mines(truth: Seq<Cell>, size: Size, x: int, y: int) -> int {
    mine_at(truth, size, x - 1, y - 1) + mine_at(truth, size, x - 1, y) + mine_at(
        truth,
        size,
        x - 1,
        y + 1,
    ) + mine_at(truth, size, x, y - 1) + mine_at(truth, size, x, y + 1) + mine_at(
        truth,
        size,
        x + 1,
        y - 1,
    ) + mine_at(truth, size, x + 1, y) + mine_at(truth, size, x + 1, y + 1)
}

/// The cell that shows `n` adjacent mines.
pub open spec fn count_cell(n: int) -> Cell {
    if n == 0 {
        Cell::Nothing
    } else {
        Cell::Number(n as u8)
    }
}

/// Every non-mine cell holds the exact count of its neighbouring mines.
pub open spec fn adjacency_exact(truth: Seq<Cell>, size: Size) -> bool {
    forall|x: int, y: int|
        in_bounds(size, x, y) && !is_mine(#[trigger] truth[index_of(size, x, y)]) ==> truth[index_of(
            size,
            x,
            y,
        )] == count_cell(adjacent_mines(truth, size, x, y))
}

/// The number of mines in a grid.
pub open spec fn mine_total(s: Seq<Cell>) -> nat
    decreases s.len(),
{
    if s.len() == 0 {
        0
    } else {
        mine_total(s.drop_last()) + if is_mine(s.last()) {
            1nat
        } else {
            0nat
        }
    }
}

/// The number of flagged cells.
pub open spec fn flag_total(s: Seq<Visibility>) -> nat
    decreases s.len(),
{
    if s.len() == 0 {
        0
    } else {
        flag_total(s.drop_last()) + if s.last() == Visibility::Flagged {
            1nat
        } else {
            0nat
        }
    }
}

/// An in-bounds cell has an index inside the grid.
pub proof fn lemma_index_in_range(size: Size, x: int, y: int)
    requires
        in_bounds(size, x, y),
    ensures
        0 <= index_of(size, x, y) < cell_total(size),
{
    assert(0 <= x * size.size_y) by (nonlinear_arith)
        requires
            0 <= x,
            0 <= size.size_y,
    ;
    assert(x * size.size_y + y < size.size_x * size.size_y) by (nonlinear_arith)
        requires
            0 <= x < size.size_x,
            0 <= y < size.size_y,
    ;
}

/// Distinct in-bounds cells have distinct indices.
pub proof fn lemma_index_distinct(size: Size, x1: int, y1: int, x2: int, y2: int)
    requires
        in_bounds(size, x1, y1),
        in_bounds(size, x2, y2),
        !(x1 == x2 && y1 == y2),
    ensures
        index_of(size, x1, y1) != index_of(size, x2, y2),
{
    let sy = size.size_y as int;
    if x1 < x2 {
        assert(x1 * sy + y1 < x2 * sy + y2) by (nonlinear_arith)
            requires
                x1 < x2,
                0 <= y1 < sy,
                0 <= y2,
        ;
    } else if x2 < x1 {
        assert(x2 * sy + y2 < x1 * sy + y1) by (nonlinear_arith)
            requires
                x2 < x1,
                0 <= y2 < sy,
                0 <= y1,
        ;
    }
}

/// Index facts for every pair of in-bounds cells of a board.
pub proof fn lemma_indices(size: Size)
    ensures
        forall|x: int, y: int|
            in_bounds(size, x, y) ==> 0 <= #[trigger] index_of(size, x, y) < cell_total(size),
        forall|x1: int, y1: int, x2: int, y2: int|
            in_bounds(size, x1, y1) && in_bounds(size, x2, y2) && !(x1 == x2 && y1 == y2)
                ==> #[trigger] index_of(size, x1, y1) != #[trigger] index_of(size, x2, y2),
{
    assert forall|x: int, y: int| in_bounds(size, x, y) implies 0 <= #[trigger] index_of(
        size,
        x,
        y,
    ) < cell_total(size) by {
        lemma_index_in_range(size, x, y);
    }
    assert forall|x1: int, y1: int, x2: int, y2: int|
        in_bounds(size, x1, y1) && in_bounds(size, x2, y2) && !(x1 == x2 && y1
            == y2) implies #[trigger] index_of(size, x1, y1) != #[trigger] index_of(
        size,
        x2,
        y2,
    ) by {
        lemma_index_distinct(size, x1, y1, x2, y2);
    }
}

/// Every index of the grid names the cell `(i / size_y, i % size_y)`.
pub proof fn lemma_index_position(size: Size, i: int)
    requires
        size_ok(size),
        0 <= i < cell_total(size),
    ensures
        in_bounds(size, i / (size.size_y as int), i % (size.size_y as int)),
        index_of(size, i / (size.size_y as int), i % (size.size_y as int)) == i,
{
    let sy = size.size_y as int;
    let sx = size.size_x as int;
    assert(sy > 0) by (nonlinear_arith)
        requires
            0 <= i < sx * sy,
            sx >= 0,
            sy >= 0,
    ;
    vstd::arithmetic::div_mod::lemma_fundamental_div_mod(i, sy);
    vstd::arithmetic::div_mod::lemma_mod_bound(i, sy);
    vstd::arithmetic::div_mod::lemma_div_pos_is_pos(i, sy);
    let q = i / sy;
    let r = i % sy;
    assert(q < sx) by (nonlinear_arith)
        requires
            i == sy * q + r,
            0 <= r < sy,
            i < sx * sy,
    ;
}

/// Replacing a non-mine cell by a mine adds one mine.
pub proof fn lemma_mine_total_place(s: Seq<Cell>, i: int)
    requires
        0 <= i < s.len(),
        !is_mine(s[i]),
    ensures
        mine_total(s.update(i, Cell::Mine)) == mine_total(s) + 1,
    decreases s.len(),
{
    let t = s.update(i, Cell::Mine);
    if i == s.len() - 1 {
        assert(t.drop_last() =~= s.drop_last());
    } else {
        assert(t.drop_last() =~= s.drop_last().update(i, Cell::Mine));
        lemma_mine_total_place(s.drop_last(), i);
    }
}

/// Grids with mines in the same places have the same number of mines.
pub proof fn lemma_mine_total_same_mines(s: Seq<Cell>, t: Seq<Cell>)
    requires
        s.len() == t.len(),
        forall|i: int| 0 <= i < s.len() ==> (is_mine(#[trigger] s[i]) <==> is_mine(t[i])),
    ensures
        mine_total(s) == mine_total(t),
    decreases s.len(),
{
    if s.len() > 0 {
        lemma_mine_total_same_mines(s.drop_last(), t.drop_last());
    }
}


/// A chain of touching in-bounds cells along which a reveal spreads: every cell of it
/// but the last is empty, and no cell after the first is one of the `listed` indices.
pub open spec fn flood_path(truth: Seq<Cell>, size: Size, listed: Seq<usize>, path: Seq<(int, int)>) -> bool {
    &&& path.len() >= 1
    &&& forall|k: int| 0 <= k < path.len() ==> in_bounds(size, #[trigger] path[k].0, path[k].1)
    &&& forall|k: int|
        0 <= k < path.len() - 1 ==> truth[index_of(size, #[trigger] path[k].0, path[k].1)]
            == Cell::Nothing && touching(path[k].0, path[k].1, path[k + 1].0, path[k + 1].1)
    &&& forall|k: int|
        1 <= k < path.len() ==> !listed.contains(index_of(size, #[trigger] path[k].0, path[k].1) as usize)
}

/// Revealing `(x0, y0)` opens `(x, y)`: the connected empty region around the start and
/// the numbered cells that border it, without entering the `listed` cells.
pub open spec fn flood_reaches(
    truth: Seq<Cell>,
    size: Size,
    listed: Seq<usize>,
    x0: int,
    y0: int,
    x: int,
    y: int,
) -> bool {
    exists|path: Seq<(int, int)>|
        #[trigger] flood_path(truth, size, listed, path) && path[0] == (x0, y0) && path.last() == (x, y)
}

/// Every in-bounds cell reaches itself.
pub proof fn lemma_reach_self(truth: Seq<Cell>, size: Size, listed: Seq<usize>, x: int, y: int)
    requires
        in_bounds(size, x, y),
    ensures
        flood_reaches(truth, size, listed, x, y, x, y),
{
    let path = seq![(x, y)];
    assert(flood_path(truth, size, listed, path));
}

/// A reached empty cell passes the reveal on to each neighbour that is not listed.
pub proof fn lemma_reach_extend(
    truth: Seq<Cell>,
    size: Size,
    listed: Seq<usize>,
    x0: int,
    y0: int,
    x: int,
    y: int,
    a: int,
    b: int,
)
    requires
        flood_reaches(truth, size, listed, x0, y0, x, y),
        truth[index_of(size, x, y)] == Cell::Nothing,
        touching(x, y, a, b),
        in_bounds(size, a, b),
        !listed.contains(index_of(size, a, b) as usize),
    ensures
        flood_reaches(truth, size, listed, x0, y0, a, b),
{
    let path = choose|path: Seq<(int, int)>|
        #[trigger] flood_path(truth, size, listed, path) && path[0] == (x0, y0) && path.last() == (x, y);
    let longer = path.push((a, b));
    assert(longer[longer.len() - 2] == (x, y));
    assert(flood_path(truth, size, listed, longer));
    assert(longer[0] == (x0, y0));
}

/// From a cell that is not empty the reveal reaches that cell alone.
pub proof fn lemma_reach_stops(
    truth: Seq<Cell>,
    size: Size,
    listed: Seq<usize>,
    x0: int,
    y0: int,
    x: int,
    y: int,
)
    requires
        truth[index_of(size, x0, y0)] != Cell::Nothing,
        flood_reaches(truth, size, listed, x0, y0, x, y),
    ensures
        x == x0 && y == y0,
{
    let path = choose|path: Seq<(int, int)>|
        #[trigger] flood_path(truth, size, listed, path) && path[0] == (x0, y0) && path.last() == (x, y);
    if path.len() > 1 {
        assert(path[0].0 == x0);
    }
}

/// A set of cells that holds the start and every unlisted neighbour of each empty cell
/// in it holds every cell that the start reaches.
pub proof fn lemma_reach_closed(
    truth: Seq<Cell>,
    size: Size,
    listed: Seq<usize>,
    seen: spec_fn(int, int) -> bool,
    x0: int,
    y0: int,
    x: int,
    y: int,
)
    requires
        seen(x0, y0),
        forall|p: int, q: int, a: int, b: int|
            in_bounds(size, p, q) && in_bounds(size, a, b) && #[trigger] touching(p, q, a, b)
                && seen(p, q) && truth[index_of(size, p, q)] == Cell::Nothing && !listed.contains(
                index_of(size, a, b) as usize,
            ) ==> seen(a, b),
        flood_reaches(truth, size, listed, x0, y0, x, y),
    ensures
        seen(x, y),
{
    let path = choose|path: Seq<(int, int)>|
        #[trigger] flood_path(truth, size, listed, path) && path[0] == (x0, y0) && path.last() == (x, y);
    lemma_path_seen(truth, size, listed, seen, path, path.len() - 1);
}

proof fn lemma_path_seen(
    truth: Seq<Cell>,
    size: Size,
    listed: Seq<usize>,
    seen: spec_fn(int, int) -> bool,
    path: Seq<(int, int)>,
    k: int,
)
    requires
        flood_path(truth, size, listed, path),
        0 <= k < path.len(),
        seen(path[0].0, path[0].1),
        forall|p: int, q: int, a: int, b: int|
            in_bounds(size, p, q) && in_bounds(size, a, b) && #[trigger] touching(p, q, a, b)
                && seen(p, q) && truth[index_of(size, p, q)] == Cell::Nothing && !listed.contains(
                index_of(size, a, b) as usize,
            ) ==> seen(a, b),
    ensures
        seen(path[k].0, path[k].1),
    decreases k,
{
    if k > 0 {
        lemma_path_seen(truth, size, listed, seen, path, k - 1);
        assert(in_bounds(size, path[k - 1].0, path[k - 1].1));
        assert(in_bounds(size, path[k].0, path[k].1));
        assert(touching(path[k - 1].0, path[k - 1].1, path[k].0, path[k].1));
        assert(!listed.contains(index_of(size, path[k].0, path[k].1) as usize));
    }
}

} // verus!
