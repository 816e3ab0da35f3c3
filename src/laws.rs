//! Laws of the engine, stated over the field model and proved.
use crate::board::{
    adjacency_exact, adjacent_mines, cell_total, count_cell, flood_path, flood_reaches, in_bounds,
    index_of, is_mine, lemma_index_in_range, lemma_index_position, lemma_reach_self,
    lemma_reach_stops, mine_at, mine_total, size_ok, touching, Cell, Position, Size, Visibility,
};
use crate::field::FieldView;
use crate::render::{digit_char, repeated, row_cells, row_text, token};
use vstd::prelude::*;

verus! {

/// An empty cell has no mine among its neighbours.
proof fn lemma_empty_has_no_mine_neighbour(v: FieldView, x: int, y: int, a: int, b: int)
    requires
        v.wf(),
        in_bounds(v.size, x, y),
        v.truth_at(x, y) == Cell::Nothing,
        in_bounds(v.size, a, b),
        touching(x, y, a, b),
    ensures
        !is_mine(v.truth_at(a, b)),
{
    assert(v.truth[index_of(v.size, x, y)] == count_cell(adjacent_mines(v.truth, v.size, x, y)));
    assert(adjacent_mines(v.truth, v.size, x, y) == 0);
    assert(mine_at(v.truth, v.size, a, b) == 0);
}

/// A reveal that starts on an empty cell opens no mine: every cell it reaches is
/// empty or numbered.
pub proof fn flood_opens_no_mine(
    v: FieldView,
    listed: Seq<usize>,
    x0: int,
    y0: int,
    x: int,
    y: int,
)
    requires
        v.wf(),
        in_bounds(v.size, x0, y0),
        v.truth_at(x0, y0) == Cell::Nothing,
        flood_reaches(v.truth, v.size, listed, x0, y0, x, y),
    ensures
        !is_mine(v.truth_at(x, y)),
{
    let path = choose|path: Seq<(int, int)>|
        #[trigger] flood_path(v.truth, v.size, listed, path) && path[0] == (x0, y0) && path.last() == (x, y);
    if path.len() > 1 {
        let k = path.len() - 2;
        assert(in_bounds(v.size, path[k].0, path[k].1));
        assert(in_bounds(v.size, path[k + 1].0, path[k + 1].1));
        lemma_empty_has_no_mine_neighbour(v, path[k].0, path[k].1, x, y);
    }
}

/// Revealing a cell that is not empty (a mine in particular) opens that cell and no other.
pub proof fn reveal_of_filled_cell_is_single(
    v: FieldView,
    listed: Seq<usize>,
    x0: int,
    y0: int,
    x: int,
    y: int,
)
    requires
        v.wf(),
        in_bounds(v.size, x0, y0),
        in_bounds(v.size, x, y),
        v.truth_at(x0, y0) != Cell::Nothing,
    ensures
        flood_reaches(v.truth, v.size, listed, x0, y0, x, y) <==> (x == x0 && y == y0),
{
    lemma_reach_self(v.truth, v.size, listed, x0, y0);
    if flood_reaches(v.truth, v.size, listed, x0, y0, x, y) {
        lemma_reach_stops(v.truth, v.size, listed, x0, y0, x, y);
    }
}

/// Toggling the mark on a position twice gives back the field as it was.
pub proof fn mark_twice_restores(v: FieldView, x: int, y: int)
    requires
        v.wf(),
    ensures
        v.marked(x, y).marked(x, y) == v,
{
    if in_bounds(v.size, x, y) {
        lemma_index_in_range(v.size, x, y);
        assert(v.marked(x, y).marked(x, y).shown =~= v.shown);
    }
}

/// A hidden cell is drawn as `-`.
pub proof fn hidden_cell_drawn_as_dash(v: FieldView, x: int, y: int)
    requires
        v.shown_at(x, y) == Visibility::Hidden,
    ensures
        token(v, x, y) == '-',
{
}

/// A revealed cell that is no mine is drawn as the count of its neighbouring mines,
/// or blank where there are none.
pub proof fn revealed_cell_drawn_as_count(v: FieldView, x: int, y: int)
    requires
        v.wf(),
        in_bounds(v.size, x, y),
        v.shown_at(x, y) == Visibility::Revealed,
        !is_mine(v.truth_at(x, y)),
    ensures
        token(v, x, y) == if adjacent_mines(v.truth, v.size, x, y) == 0 {
            ' '
        } else {
            digit_char(adjacent_mines(v.truth, v.size, x, y))
        },
{
    assert(v.truth[index_of(v.size, x, y)] == count_cell(adjacent_mines(v.truth, v.size, x, y)));
    assert(0 <= adjacent_mines(v.truth, v.size, x, y) <= 8);
}

/// A grid with exact adjacency counts is determined by where its mines lie: two such
/// grids with mines in the same places are equal, whatever order the mines were placed in.
pub proof fn grid_determined_by_mines(t1: Seq<Cell>, t2: Seq<Cell>, size: Size)
    requires
        size_ok(size),
        t1.len() == cell_total(size),
        t2.len() == cell_total(size),
        adjacency_exact(t1, size),
        adjacency_exact(t2, size),
        forall|i: int| 0 <= i < t1.len() ==> (is_mine(#[trigger] t1[i]) <==> is_mine(t2[i])),
    ensures
        t1 == t2,
{
    assert forall|x: int, y: int| #[trigger] mine_at(t1, size, x, y) == mine_at(t2, size, x, y) by {
        if in_bounds(size, x, y) {
            lemma_index_in_range(size, x, y);
        }
    }
    assert forall|i: int| 0 <= i < t1.len() implies #[trigger] t1[i] == t2[i] by {
        lemma_index_position(size, i);
        let x = i / (size.size_y as int);
        let y = i % (size.size_y as int);
        if !is_mine(t1[i]) {
            assert(t1[index_of(size, x, y)] == count_cell(adjacent_mines(t1, size, x, y)));
            assert(t2[index_of(size, x, y)] == count_cell(adjacent_mines(t2, size, x, y)));
        }
    }
    assert(t1 =~= t2);
}

/// A row whose cells all show `t`, away from the cursor, is written as `t` between
/// blanks.
proof fn lemma_uniform_row(v: FieldView, cursor: Position, x: int, t: char, k: int)
    requires
        0 <= k <= v.size.size_y,
        cursor.x != x,
        forall|y: int| 0 <= y < v.size.size_y ==> #[trigger] token(v, x, y) == t,
    ensures
        row_cells(v, cursor, x, k) == seq![' '] + repeated(seq![t, ' '], k),
    decreases k,
{
    if k > 0 {
        lemma_uniform_row(v, cursor, x, t, k - 1);
        assert(row_cells(v, cursor, x, k) =~= seq![' '] + repeated(seq![t, ' '], k));
    } else {
        assert(row_cells(v, cursor, x, 0) =~= seq![' '] + repeated(seq![t, ' '], 0));
    }
}

proof fn lemma_no_mines(s: Seq<Cell>, i: int)
    requires
        mine_total(s) == 0,
        0 <= i < s.len(),
    ensures
        !is_mine(s[i]),
    decreases s.len(),
{
    if i < s.len() - 1 {
        lemma_no_mines(s.drop_last(), i);
    }
}

/// On a board where every cell is hidden, each row away from the cursor is drawn as
/// `| - - ... - |`: one `-` per cell and nothing else.
pub proof fn hidden_board_rows_are_dashes(v: FieldView, cursor: Position, x: int)
    requires
        v.wf(),
        0 <= x < v.size.size_x,
        v.size.size_y > 0,
        cursor.x != x,
        forall|i: int| 0 <= i < v.shown.len() ==> v.shown[i] == Visibility::Hidden,
    ensures
        row_text(v, cursor, x) == seq!['|', ' '] + repeated(seq!['-', ' '], v.size.size_y as int)
            + seq!['|', '\n'],
{
    assert forall|y: int| 0 <= y < v.size.size_y implies #[trigger] token(v, x, y) == '-' by {
        lemma_index_in_range(v.size, x, y);
    }
    lemma_uniform_row(v, cursor, x, '-', v.size.size_y as int);
    assert(row_text(v, cursor, x) =~= seq!['|', ' '] + repeated(
        seq!['-', ' '],
        v.size.size_y as int,
    ) + seq!['|', '\n']);
}

/// On a board without mines where every cell is revealed, each row away from the
/// cursor is drawn blank between its side borders.
pub proof fn revealed_mine_free_rows_are_blank(v: FieldView, cursor: Position, x: int)
    requires
        v.wf(),
        v.mines == 0,
        0 <= x < v.size.size_x,
        v.size.size_y > 0,
        cursor.x != x,
        forall|i: int| 0 <= i < v.shown.len() ==> v.shown[i] == Visibility::Revealed,
    ensures
        row_text(v, cursor, x) == seq!['|', ' '] + repeated(seq![' ', ' '], v.size.size_y as int)
            + seq!['|', '\n'],
{
    assert forall|y: int| 0 <= y < v.size.size_y implies #[trigger] token(v, x, y) == ' ' by {
        lemma_index_in_range(v.size, x, y);
        let i = index_of(v.size, x, y);
        lemma_no_mines(v.truth, i);
        assert(v.truth[i] == count_cell(adjacent_mines(v.truth, v.size, x, y)));
        assert forall|a: int, b: int| #[trigger] mine_at(v.truth, v.size, a, b) == 0 by {
            if in_bounds(v.size, a, b) {
                lemma_index_in_range(v.size, a, b);
                lemma_no_mines(v.truth, index_of(v.size, a, b));
            }
        }
    }
    lemma_uniform_row(v, cursor, x, ' ', v.size.size_y as int);
    assert(row_text(v, cursor, x) =~= seq!['|', ' '] + repeated(
        seq![' ', ' '],
        v.size.size_y as int,
    ) + seq!['|', '\n']);
}

} // verus!
