//! The field engine: generation, reveal, marking and win detection.
use crate::board::{
    flag_total,
    adjacency_exact, adjacent_mines, cell_total, count_cell, in_bounds, index_of, is_mine,
    lemma_index_distinct, lemma_index_in_range, lemma_index_position, lemma_indices,
    lemma_mine_total_place, lemma_mine_total_same_mines, mine_at, mine_total, size_ok, Cell,
    flood_reaches, lemma_reach_closed, lemma_reach_extend, lemma_reach_self, lemma_reach_stops,
    touching,
    Position, Size, Visibility,
};
use crate::outside::{draw_below, entropy_draws, seeded_draw, seeded_draws, Draws};
use crate::render::{
    border, digit_str, gap, picture, push_decimal, repeated, row_cells, row_text, rows_text,
    status_text, string_repeat, token,
};
use vstd::prelude::*;

verus! {

/// How often a mine position is drawn before the first free cell is taken instead.
pub const DRAW_LIMIT: u32 = 4096;

/// A minefield: the truth grid, what the player sees of it, and the game's settings.
pub struct Field {
    pub seed: u64,
    squares: Vec<Cell>,
    shown_squares: Vec<Visibility>,
    size: Size,
    time: std::time::Instant,
    mines: i32,
}

/// The mathematical content of a field.
pub struct FieldView {
    pub size: Size,
    pub mines: int,
    pub seed: u64,
    pub truth: Seq<Cell>,
    pub shown: Seq<Visibility>,
}

impl FieldView {
    /// The invariant of every field: grids of the board's size, exact adjacency
    /// counts, and as many mines as the field was made with.
    pub open spec fn wf(self) -> bool {
        &&& size_ok(self.size)
        &&& self.truth.len() == cell_total(self.size)
        &&& self.shown.len() == cell_total(self.size)
        &&& adjacency_exact(self.truth, self.size)
        &&& mine_total(self.truth) == self.mines
        &&& 0 <= self.mines
        &&& (self.mines == 0 || self.mines < cell_total(self.size))
    }

    /// The player has won: as many flags as mines, and a mine under every flag.
    pub open spec fn won(self) -> bool {
        &&& flag_total(self.shown) == self.mines
        &&& forall|i: int|
            0 <= i < self.shown.len() && #[trigger] self.shown[i] == Visibility::Flagged ==> is_mine(
                self.truth[i],
            )
    }

    /// The field after the mark on `(x, y)` is toggled: a hidden cell is flagged, a
    /// flagged one hidden again, and a revealed one, or a position off the board, is left
    /// as it is.
    pub open spec fn marked(self, x: int, y: int) -> FieldView {
        if in_bounds(self.size, x, y) {
            FieldView {
                size: self.size,
                mines: self.mines,
                seed: self.seed,
                truth: self.truth,
                shown: self.shown.update(index_of(self.size, x, y), toggled(self.shown_at(x, y))),
            }
        } else {
            self
        }
    }

    pub open spec fn truth_at(self, x: int, y: int) -> Cell {
        self.truth[index_of(self.size, x, y)]
    }

    pub open spec fn shown_at(self, x: int, y: int) -> Visibility {
        self.shown[index_of(self.size, x, y)]
    }
}


/// A flag set or taken away; a revealed cell cannot be marked.
pub open spec fn toggled(v: Visibility) -> Visibility {
    match v {
        Visibility::Hidden => Visibility::Flagged,
        Visibility::Flagged => Visibility::Hidden,
        Visibility::Revealed => Visibility::Revealed,
    }
}

impl View for Field {
    type V = FieldView;

    closed spec fn view(&self) -> FieldView {
        FieldView {
            size: self.size,
            mines: self.mines as int,
            seed: self.seed,
            truth: self.squares@,
            shown: self.shown_squares@,
        }
    }
}

/// The number of mines that a field made with `requested` mines on `cells` cells holds:
/// negative requests give none, and at least one cell stays free.
pub open spec fn mine_goal(requested: int, cells: int) -> int {
    if requested <= 0 || cells == 0 {
        0
    } else if requested >= cells {
        cells - 1
    } else {
        requested
    }
}

/// One more adjacent mine.
pub open spec fn bumped(c: Cell) -> Cell {
    match c {
        Cell::Nothing => Cell::Number(1),
        Cell::Number(n) => if n < 255 {
            Cell::Number((n + 1) as u8)
        } else {
            Cell::Number(n)
        },
        Cell::Mine => Cell::Mine,
    }
}

/// The cells of the 3x3 block centred on `p`.
pub open spec fn near(p: Position, x: int, y: int) -> bool {
    -1 <= x - p.x <= 1 && -1 <= y - p.y <= 1
}

/// Replaces the element at `i`, returning the one that stood there.
pub fn replace<T>(vec: &mut Vec<T>, i: usize, e: T) -> (r: T)
    requires
        i < old(vec)@.len(),
    ensures
        r == old(vec)@[i as int],
        final(vec)@ == old(vec)@.update(i as int, e),
{
    vec.push(e);
    vec.swap_remove(i)
}

/// Row-major index of an in-bounds position.
fn flat_index(size: Size, pos: Position) -> (r: usize)
    requires
        size_ok(size),
        in_bounds(size, pos.x as int, pos.y as int),
    ensures
        r as int == index_of(size, pos.x as int, pos.y as int),
        r < cell_total(size),
{
    proof {
        lemma_index_in_range(size, pos.x as int, pos.y as int);
        assert(0 <= pos.x * size.size_y) by (nonlinear_arith)
            requires
                0 <= pos.x,
                0 <= size.size_y,
        ;
    }
    (pos.x * size.size_y + pos.y) as usize
}

proof fn lemma_mine_total_none(s: Seq<Cell>)
    requires
        forall|i: int| 0 <= i < s.len() ==> !is_mine(#[trigger] s[i]),
    ensures
        mine_total(s) == 0,
    decreases s.len(),
{
    if s.len() > 0 {
        lemma_mine_total_none(s.drop_last());
    }
}

/// Mine counts after a mine is placed at `p` and its neighbours are bumped.
proof fn lemma_mine_at_step(
    old: Seq<Cell>,
    mid: Seq<Cell>,
    new: Seq<Cell>,
    size: Size,
    p: Position,
    x: int,
    y: int,
)
    requires
        size_ok(size),
        old.len() == cell_total(size),
        in_bounds(size, p.x as int, p.y as int),
        mid == old.update(index_of(size, p.x as int, p.y as int), Cell::Mine),
        new.len() == mid.len(),
        forall|i: int| 0 <= i < new.len() ==> (is_mine(#[trigger] new[i]) <==> is_mine(mid[i])),
    ensures
        mine_at(new, size, x, y) == mine_at(old, size, x, y) + if x == p.x && y == p.y
            && !is_mine(old[index_of(size, x, y)]) {
            1int
        } else {
            0int
        },
{
    lemma_index_in_range(size, p.x as int, p.y as int);
    if in_bounds(size, x, y) {
        let i = index_of(size, x, y);
        lemma_index_in_range(size, x, y);
        assert(is_mine(new[i]) <==> is_mine(mid[i]));
        if !(x == p.x && y == p.y) {
            lemma_index_distinct(size, x, y, p.x as int, p.y as int);
            assert(mid[i] == old[i]);
        } else {
            assert(mid[i] == Cell::Mine);
        }
    }
}

/// Placing a mine on a free cell of an exact grid and bumping its neighbours keeps the
/// grid exact and adds one mine.
proof fn lemma_place_mine(old: Seq<Cell>, mid: Seq<Cell>, new: Seq<Cell>, size: Size, p: Position)
    requires
        size_ok(size),
        old.len() == cell_total(size),
        adjacency_exact(old, size),
        in_bounds(size, p.x as int, p.y as int),
        !is_mine(old[index_of(size, p.x as int, p.y as int)]),
        mid == old.update(index_of(size, p.x as int, p.y as int), Cell::Mine),
        new.len() == mid.len(),
        forall|i: int| 0 <= i < new.len() ==> (is_mine(#[trigger] new[i]) <==> is_mine(mid[i])),
        forall|x: int, y: int|
            in_bounds(size, x, y) ==> #[trigger] new[index_of(size, x, y)] == if near(p, x, y)
                && !is_mine(mid[index_of(size, x, y)]) {
                bumped(mid[index_of(size, x, y)])
            } else {
                mid[index_of(size, x, y)]
            },
    ensures
        adjacency_exact(new, size),
        mine_total(new) == mine_total(old) + 1,
{
    lemma_index_in_range(size, p.x as int, p.y as int);
    lemma_mine_total_place(old, index_of(size, p.x as int, p.y as int));
    lemma_mine_total_same_mines(mid, new);
    assert forall|x: int, y: int|
        in_bounds(size, x, y) && !is_mine(#[trigger] new[index_of(size, x, y)]) implies new[index_of(
            size,
            x,
            y,
        )] == count_cell(adjacent_mines(new, size, x, y)) by {
        lemma_index_in_range(size, x, y);
        let px = p.x as int;
        let py = p.y as int;
        if !(x == px && y == py) {
            lemma_index_distinct(size, x, y, px, py);
        }
        assert(mid[index_of(size, x, y)] == old[index_of(size, x, y)]);
        lemma_mine_at_step(old, mid, new, size, p, x - 1, y - 1);
        lemma_mine_at_step(old, mid, new, size, p, x - 1, y);
        lemma_mine_at_step(old, mid, new, size, p, x - 1, y + 1);
        lemma_mine_at_step(old, mid, new, size, p, x, y - 1);
        lemma_mine_at_step(old, mid, new, size, p, x, y + 1);
        lemma_mine_at_step(old, mid, new, size, p, x + 1, y - 1);
        lemma_mine_at_step(old, mid, new, size, p, x + 1, y);
        lemma_mine_at_step(old, mid, new, size, p, x + 1, y + 1);
        assert(0 <= adjacent_mines(old, size, x, y) <= 8);
    }
}


/// The number of cells that a reveal has not visited yet.
spec fn unvisited(s: Seq<bool>) -> nat
    decreases s.len(),
{
    if s.len() == 0 {
        0
    } else {
        unvisited(s.drop_last()) + if s.last() {
            0nat
        } else {
            1nat
        }
    }
}

proof fn lemma_unvisited_visit(s: Seq<bool>, i: int)
    requires
        0 <= i < s.len(),
        !s[i],
    ensures
        unvisited(s.update(i, true)) + 1 == unvisited(s),
    decreases s.len(),
{
    let t = s.update(i, true);
    if i == s.len() - 1 {
        assert(t.drop_last() =~= s.drop_last());
    } else {
        assert(t.drop_last() =~= s.drop_last().update(i, true));
        lemma_unvisited_visit(s.drop_last(), i);
    }
}

/// The grid after a mine is placed at index `m` of a grid of `size` and each non-mine
/// cell of the 3x3 block around it gains one adjacent mine.
pub open spec fn with_mine(grid: Seq<Cell>, size: Size, m: int) -> Seq<Cell> {
    Seq::new(
        grid.len(),
        |i: int|
            if i == m {
                Cell::Mine
            } else if near(
                Position { x: (m / (size.size_y as int)) as i32, y: (m % (size.size_y as int)) as i32 },
                i / (size.size_y as int),
                i % (size.size_y as int),
            ) && !is_mine(grid[i]) {
                bumped(grid[i])
            } else {
                grid[i]
            },
    )
}

/// The first index from `i` on that holds no mine.
pub open spec fn first_free(grid: Seq<Cell>, i: int) -> int
    decreases grid.len() - i,
{
    if i >= grid.len() || i < 0 || !is_mine(grid[i]) {
        i
    } else {
        first_free(grid, i + 1)
    }
}

/// Where the next mine goes, and the bounds of all draws after it: up to `tries` pairs
/// of draws (row, then column) from a generator seeded with `seed` whose past draws had
/// `bounds`, until one names a cell without a mine; failing that, the first such cell.
pub open spec fn pick(seed: u64, bounds: Seq<int>, grid: Seq<Cell>, size: Size, tries: nat) -> (
    int,
    Seq<int>,
)
    decreases tries,
{
    if tries == 0 {
        (first_free(grid, 0), bounds)
    } else {
        let b1 = bounds.push(size.size_x as int);
        let b2 = b1.push(size.size_y as int);
        let m = index_of(size, seeded_draw(seed, b1), seeded_draw(seed, b2));
        if !is_mine(grid[m]) {
            (m, b2)
        } else {
            pick(seed, b2, grid, size, (tries - 1) as nat)
        }
    }
}

/// The grid after `remaining` more mines are placed, one `pick` each.
pub open spec fn layout_from(
    seed: u64,
    bounds: Seq<int>,
    grid: Seq<Cell>,
    size: Size,
    remaining: nat,
) -> Seq<Cell>
    decreases remaining,
{
    if remaining == 0 {
        grid
    } else {
        let (m, after) = pick(seed, bounds, grid, size, DRAW_LIMIT as nat);
        layout_from(seed, after, with_mine(grid, size, m), size, (remaining - 1) as nat)
    }
}

/// The truth grid that a generator seeded with `seed` gives to a board of `size` with
/// `mines` mines.
pub open spec fn layout(size: Size, mines: int, seed: u64) -> Seq<Cell> {
    layout_from(
        seed,
        Seq::empty(),
        Seq::new(cell_total(size) as nat, |i: int| Cell::Nothing),
        size,
        mines as nat,
    )
}

/// The grid that placing a mine and bumping its block leaves is `with_mine`.
proof fn lemma_with_mine(old: Seq<Cell>, mid: Seq<Cell>, new: Seq<Cell>, size: Size, p: Position)
    requires
        size_ok(size),
        old.len() == cell_total(size),
        in_bounds(size, p.x as int, p.y as int),
        mid == old.update(index_of(size, p.x as int, p.y as int), Cell::Mine),
        new.len() == mid.len(),
        forall|x: int, y: int|
            in_bounds(size, x, y) ==> #[trigger] new[index_of(size, x, y)] == if near(p, x, y)
                && !is_mine(mid[index_of(size, x, y)]) {
                bumped(mid[index_of(size, x, y)])
            } else {
                mid[index_of(size, x, y)]
            },
    ensures
        new == with_mine(old, size, index_of(size, p.x as int, p.y as int)),
{
    let m = index_of(size, p.x as int, p.y as int);
    let sy = size.size_y as int;
    lemma_index_in_range(size, p.x as int, p.y as int);
    lemma_index_position(size, m);
    if !(m / sy == p.x && m % sy == p.y) {
        lemma_index_distinct(size, m / sy, m % sy, p.x as int, p.y as int);
    }
    assert forall|i: int| 0 <= i < new.len() implies #[trigger] new[i] == with_mine(old, size, m)[i] by {
        lemma_index_position(size, i);
        let x = i / sy;
        let y = i % sy;
        assert(new[index_of(size, x, y)] == if near(p, x, y) && !is_mine(mid[index_of(size, x, y)]) {
            bumped(mid[index_of(size, x, y)])
        } else {
            mid[index_of(size, x, y)]
        });
    }
    assert(new =~= with_mine(old, size, m));
}

/// What holds throughout a flood fill started at `(x0, y0)`: the visited cells are
/// revealed, every visited cell is reached from the start without entering a listed
/// cell, the cells newly recorded after the caller's list are the visited unlisted
/// ones, each once, and the pending cells are visited empty cells.
spec fn flood_inv(
    truth: Seq<Cell>,
    size: Size,
    shown: Seq<Visibility>,
    before: Seq<Visibility>,
    seen: Seq<bool>,
    listed: Seq<bool>,
    old_list: Seq<usize>,
    added: Seq<usize>,
    searched: Seq<usize>,
    stack: Seq<Position>,
    x0: int,
    y0: int,
) -> bool {
    &&& size_ok(size)
    &&& truth.len() == cell_total(size)
    &&& shown.len() == cell_total(size)
    &&& before.len() == cell_total(size)
    &&& seen.len() == cell_total(size)
    &&& listed.len() == cell_total(size)
    &&& forall|i: int|
        0 <= i < cell_total(size) ==> (#[trigger] listed[i] <==> old_list.contains(i as usize))
    &&& searched == old_list + added
    &&& forall|i: int|
        0 <= i < cell_total(size) ==> #[trigger] shown[i] == if seen[i] {
            Visibility::Revealed
        } else {
            before[i]
        }
    &&& forall|i: int|
        0 <= i < cell_total(size) ==> (#[trigger] seen[i] && !listed[i] <==> added.contains(
            i as usize,
        ))
    &&& forall|k: int|
        0 <= k < added.len() ==> (#[trigger] added[k]) < cell_total(size) && !listed[added[k] as int]
    &&& added.no_duplicates()
    &&& forall|x: int, y: int|
        in_bounds(size, x, y) && #[trigger] seen[index_of(size, x, y)] ==> flood_reaches(
            truth,
            size,
            old_list,
            x0,
            y0,
            x,
            y,
        )
    &&& forall|k: int|
        0 <= k < stack.len() ==> in_bounds(size, (#[trigger] stack[k]).x as int, stack[k].y as int)
            && seen[index_of(size, stack[k].x as int, stack[k].y as int)] && truth[index_of(
            size,
            stack[k].x as int,
            stack[k].y as int,
        )] == Cell::Nothing
}

/// Every visited empty cell that is neither pending nor `(cx, cy)` has all its
/// unlisted neighbours visited.
spec fn closed_except(
    truth: Seq<Cell>,
    size: Size,
    seen: Seq<bool>,
    listed: Seq<bool>,
    stack: Seq<Position>,
    cx: int,
    cy: int,
) -> bool {
    forall|p: int, q: int, a: int, b: int|
        in_bounds(size, p, q) && in_bounds(size, a, b) && #[trigger] touching(p, q, a, b)
            && seen[index_of(size, p, q)] && truth[index_of(size, p, q)] == Cell::Nothing
            && !stack.contains(Position { x: p as i32, y: q as i32 }) && !(p == cx && q == cy)
            && !listed[index_of(size, a, b)] ==> seen[index_of(size, a, b)]
}

/// The entries that a call appended after the list it was given.
pub open spec fn appended(before: Seq<usize>, after: Seq<usize>) -> Seq<usize> {
    after.skip(before.len() as int)
}

/// For each cell index below `cells`, whether `list` holds it.
fn listed_cells(list: &Vec<usize>, cells: usize) -> (r: Vec<bool>)
    ensures
        r@.len() == cells,
        forall|i: int| 0 <= i < cells ==> (#[trigger] r@[i] <==> list@.contains(i as usize)),
{
    let mut r: Vec<bool> = Vec::new();
    let mut i: usize = 0;
    while i < cells
        invariant
            i <= cells,
            r@ == Seq::new(i as nat, |k: int| false),
        decreases cells - i,
    {
        r.push(false);
        i = i + 1;
        assert(r@ =~= Seq::new(i as nat, |k: int| false));
    }
    let n = list.len();
    let mut k: usize = 0;
    while k < n
        invariant
            n == list@.len(),
            k <= n,
            r@.len() == cells,
            forall|i: int|
                0 <= i < cells ==> (#[trigger] r@[i] <==> list@.take(k as int).contains(i as usize)),
        decreases n - k,
    {
        let e = list[k];
        let ghost r0 = r@;
        if e < cells {
            replace(&mut r, e, true);
        }
        proof {
            let t0 = list@.take(k as int);
            let t1 = list@.take(k + 1);
            assert(t1 =~= t0.push(e));
            assert forall|i: int| 0 <= i < cells implies (#[trigger] r@[i] <==> t1.contains(
                i as usize,
            )) by {
                if t0.contains(i as usize) {
                    let w = choose|w: int| 0 <= w < t0.len() && t0[w] == i as usize;
                    assert(t1[w] == i as usize);
                }
                if i as usize == e {
                    assert(t1[k as int] == e);
                }
                if t1.contains(i as usize) {
                    let w = choose|w: int| 0 <= w < t1.len() && t1[w] == i as usize;
                    if w < k {
                        assert(t0[w] == i as usize);
                    }
                }
            }
        }
        k = k + 1;
    }
    proof {
        assert(list@.take(n as int) =~= list@);
    }
    r
}

impl Field {
    pub open spec fn wf(&self) -> bool {
        self@.wf()
    }

    /// A field of `size` with `mines` mines (see `mine_goal`), placed by a generator
    /// seeded with `seed`, or from the operating system's entropy where `seed` is 0 (and
    /// with seed 0 where the operating system gives none). Each mine goes to the first
    /// drawn cell without one; after `DRAW_LIMIT` occupied draws it goes to the first free
    /// cell in row-major order instead, so that generation always ends. With a nonzero
    /// seed the truth grid is `layout(size, mines, seed)`: the same seed gives the same
    /// board. Every cell starts hidden.
    pub fn new(size: Size, mines: i32, seed: u64) -> (r: Field)
        requires
            size_ok(size),
        ensures
            r.wf(),
            r@.size == size,
            r@.seed == seed,
            r@.mines == mine_goal(mines as int, cell_total(size)),
            mine_total(r@.truth) == mine_goal(mines as int, cell_total(size)),
            adjacency_exact(r@.truth, size),
            seed != 0 ==> r@.truth == layout(size, mine_goal(mines as int, cell_total(size)), seed),
            forall|i: int| 0 <= i < r@.shown.len() ==> r@.shown[i] == Visibility::Hidden,
    {
        let cells = size.size_x * size.size_y;
        let goal = if mines <= 0 || cells == 0 {
            0
        } else if mines >= cells {
            cells - 1
        } else {
            mines
        };
        let mut field = Field {
            seed,
            squares: Vec::new(),
            shown_squares: Vec::new(),
            size,
            time: std::time::Instant::now(),
            mines: goal,
        };
        field.init();
        field
    }

    /// Index of an in-bounds position: `x * size_y + y`.
    pub fn pos_to_index(&self, pos: Position) -> (r: usize)
        requires
            self.wf(),
            in_bounds(self@.size, pos.x as int, pos.y as int),
        ensures
            r as int == index_of(self@.size, pos.x as int, pos.y as int),
            r < cell_total(self@.size),
    {
        flat_index(self.size, pos)
    }

    /// Fills the grids and places the mines, each where `pick` says.
    fn init(&mut self)
        requires
            old(self).squares@.len() == 0,
            old(self).shown_squares@.len() == 0,
            size_ok(old(self).size),
            0 <= old(self).mines,
            old(self).mines == 0 || old(self).mines < cell_total(old(self).size),
        ensures
            final(self).wf(),
            final(self).size == old(self).size,
            final(self).seed == old(self).seed,
            final(self).mines == old(self).mines,
            old(self).seed != 0 ==> final(self).squares@ == layout(
                old(self).size,
                old(self).mines as int,
                old(self).seed,
            ),
            forall|i: int|
                0 <= i < final(self).shown_squares@.len() ==> final(self).shown_squares@[i]
                    == Visibility::Hidden,
    {
        let cells = self.size.size_x * self.size.size_y;
        let mut i: i32 = 0;
        while i < cells
            invariant
                0 <= i <= cells,
                cells == cell_total(self.size),
                size_ok(self.size),
                self.size == old(self).size,
                self.seed == old(self).seed,
                self.mines == old(self).mines,
                0 <= self.mines,
                self.mines == 0 || self.mines < cell_total(self.size),
                self.squares@ == Seq::new(i as nat, |k: int| Cell::Nothing),
                self.shown_squares@ == Seq::new(i as nat, |k: int| Visibility::Hidden),
            decreases cells - i,
        {
            self.squares.push(Cell::Nothing);
            self.shown_squares.push(Visibility::Hidden);
            i = i + 1;
            assert(self.squares@ =~= Seq::new(i as nat, |k: int| Cell::Nothing));
            assert(self.shown_squares@ =~= Seq::new(i as nat, |k: int| Visibility::Hidden));
        }
        proof {
            lemma_indices(self.size);
            lemma_mine_total_none(self.squares@);
        }
        let mut draws = if self.seed == 0 {
            match entropy_draws() {
                Some(d) => d,
                None => seeded_draws(0),
            }
        } else {
            seeded_draws(self.seed)
        };
        let mut placed: i32 = 0;
        while placed < self.mines
            invariant
                size_ok(self.size),
                self.size == old(self).size,
                self.seed == old(self).seed,
                self.mines == old(self).mines,
                0 <= placed <= self.mines,
                self.mines == 0 || self.mines < cell_total(self.size),
                self.squares@.len() == cell_total(self.size),
                self.shown_squares@ == Seq::new(cell_total(self.size) as nat, |k: int| Visibility::Hidden),
                adjacency_exact(self.squares@, self.size),
                mine_total(self.squares@) == placed,
                draws.seed() == self.seed,
                self.seed != 0 ==> layout(self.size, self.mines as int, self.seed) == layout_from(
                    self.seed,
                    draws.bounds(),
                    self.squares@,
                    self.size,
                    (self.mines - placed) as nat,
                ),
            decreases self.mines - placed,
        {
            let ghost bounds0 = draws.bounds();
            let pos = self.free_position(&mut draws);
            let idx = flat_index(self.size, pos);
            let ghost before = self.squares@;
            replace(&mut self.squares, idx, Cell::Mine);
            let ghost mid = self.squares@;
            self.generate_numbers_around_mine(pos);
            proof {
                lemma_place_mine(before, mid, self.squares@, self.size, pos);
                lemma_with_mine(before, mid, self.squares@, self.size, pos);
            }
            placed = placed + 1;
        }
        proof {
            if self.seed != 0 {
                assert(layout_from(self.seed, draws.bounds(), self.squares@, self.size, 0)
                    == self.squares@);
            }
        }
    }

    /// A free cell: drawn at random until one is free, and after `DRAW_LIMIT` pairs of
    /// draws the first free cell in row-major order (see `pick`).
    fn free_position(&self, draws: &mut Draws) -> (p: Position)
        requires
            size_ok(self.size),
            self.squares@.len() == cell_total(self.size),
            mine_total(self.squares@) < cell_total(self.size),
        ensures
            in_bounds(self.size, p.x as int, p.y as int),
            !is_mine(self.squares@[index_of(self.size, p.x as int, p.y as int)]),
            final(draws).seed() == old(draws).seed(),
            old(draws).seed() != 0 ==> pick(
                old(draws).seed(),
                old(draws).bounds(),
                self.squares@,
                self.size,
                DRAW_LIMIT as nat,
            ) == (index_of(self.size, p.x as int, p.y as int), final(draws).bounds()),
    {
        let cells = self.size.size_x * self.size.size_y;
        proof {
            assert(self.size.size_x > 0 && self.size.size_y > 0) by (nonlinear_arith)
                requires
                    self.size.size_x >= 0,
                    self.size.size_y >= 0,
                    0 < self.size.size_x * self.size.size_y,
            ;
        }
        let ghost seed = draws.seed();
        let ghost goal = pick(seed, draws.bounds(), self.squares@, self.size, DRAW_LIMIT as nat);
        let mut tries: u32 = 0;
        while tries < DRAW_LIMIT
            invariant
                size_ok(self.size),
                self.size.size_x > 0 && self.size.size_y > 0,
                self.squares@.len() == cell_total(self.size),
                tries <= DRAW_LIMIT,
                draws.seed() == seed,
                seed == old(draws).seed(),
                goal == pick(seed, old(draws).bounds(), self.squares@, self.size, DRAW_LIMIT as nat),
                seed != 0 ==> goal == pick(
                    seed,
                    draws.bounds(),
                    self.squares@,
                    self.size,
                    (DRAW_LIMIT - tries) as nat,
                ),
            decreases DRAW_LIMIT - tries,
        {
            let x = draw_below(draws, self.size.size_x);
            let y = draw_below(draws, self.size.size_y);
            let p = Position { x, y };
            let idx = flat_index(self.size, p);
            if self.squares[idx] != Cell::Mine {
                return p;
            }
            tries = tries + 1;
        }
        let mut i: i32 = 0;
        while i < cells
            invariant
                0 <= i <= cells,
                cells == cell_total(self.size),
                size_ok(self.size),
                self.size.size_y > 0,
                self.squares@.len() == cells,
                mine_total(self.squares@.take(i as int)) == i,
                first_free(self.squares@, 0) == first_free(self.squares@, i as int),
                draws.seed() == seed,
                seed == old(draws).seed(),
                goal == pick(seed, old(draws).bounds(), self.squares@, self.size, DRAW_LIMIT as nat),
                seed != 0 ==> goal == (first_free(self.squares@, 0), draws.bounds()),
            decreases cells - i,
        {
            if self.squares[i as usize] != Cell::Mine {
                let p = Position { x: i / self.size.size_y, y: i % self.size.size_y };
                proof {
                    lemma_index_position(self.size, i as int);
                }
                return p;
            }
            proof {
                assert(self.squares@.take(i + 1).drop_last() =~= self.squares@.take(i as int));
            }
            i = i + 1;
        }
        proof {
            assert(self.squares@.take(cells as int) =~= self.squares@);
        }
        Position { x: 0, y: 0 }
    }

    /// Reveals `pos`. A mine is revealed alone and the call returns `true`: the player
    /// lost. A numbered cell is revealed alone. An empty cell opens the connected empty
    /// region around it and the numbered cells that border it; mines stay hidden.
    /// Cells whose index `searched_positions` already holds count as visited: the
    /// reveal does not enter them. The index of each cell that the call opens, and
    /// that the list did not hold, is appended once. Every other cell keeps its state.
    /// A position off the board changes nothing.
    pub fn reveal_on_pos(&mut self, pos: Position, searched_positions: &mut Vec<usize>) -> (lost:
        bool)
        requires
            old(self).wf(),
        ensures
            final(self).wf(),
            final(self)@.size == old(self)@.size,
            final(self)@.mines == old(self)@.mines,
            final(self)@.seed == old(self)@.seed,
            final(self)@.truth == old(self)@.truth,
            lost == (in_bounds(old(self)@.size, pos.x as int, pos.y as int) && is_mine(
                old(self)@.truth_at(pos.x as int, pos.y as int),
            )),
            !in_bounds(old(self)@.size, pos.x as int, pos.y as int) ==> final(self)@.shown
                == old(self)@.shown && final(searched_positions)@ == old(searched_positions)@,
            final(searched_positions)@ == old(searched_positions)@ + appended(
                old(searched_positions)@,
                final(searched_positions)@,
            ),
            forall|x: int, y: int|
                in_bounds(old(self)@.size, x, y) ==> #[trigger] final(self)@.shown_at(x, y) == if in_bounds(
                    old(self)@.size,
                    pos.x as int,
                    pos.y as int,
                ) && flood_reaches(
                    old(self)@.truth,
                    old(self)@.size,
                    old(searched_positions)@,
                    pos.x as int,
                    pos.y as int,
                    x,
                    y,
                ) {
                    Visibility::Revealed
                } else {
                    old(self)@.shown_at(x, y)
                },
            forall|x: int, y: int|
                in_bounds(old(self)@.size, x, y) ==> (appended(
                    old(searched_positions)@,
                    final(searched_positions)@,
                ).contains(#[trigger] index_of(old(self)@.size, x, y) as usize) <==> in_bounds(
                    old(self)@.size,
                    pos.x as int,
                    pos.y as int,
                ) && flood_reaches(
                    old(self)@.truth,
                    old(self)@.size,
                    old(searched_positions)@,
                    pos.x as int,
                    pos.y as int,
                    x,
                    y,
                ) && !old(searched_positions)@.contains(index_of(old(self)@.size, x, y) as usize)),
            forall|k: int|
                0 <= k < appended(old(searched_positions)@, final(searched_positions)@).len() ==> (
                #[trigger] appended(old(searched_positions)@, final(searched_positions)@)[k])
                    < cell_total(old(self)@.size) && !old(searched_positions)@.contains(
                    appended(old(searched_positions)@, final(searched_positions)@)[k],
                ),
            appended(old(searched_positions)@, final(searched_positions)@).no_duplicates(),
    {
        let ghost old_list = searched_positions@;
        if self.is_out_of_bounds(pos) {
            proof {
                assert(old_list + appended(old_list, old_list) =~= old_list);
            }
            return false;
        }
        let cells = (self.size.size_x * self.size.size_y) as usize;
        let listed = listed_cells(searched_positions, cells);
        let index = flat_index(self.size, pos);
        let reveal = self.squares[index];
        proof {
            lemma_indices(self.size);
            lemma_reach_self(self.squares@, self.size, old_list, pos.x as int, pos.y as int);
            assert forall|x: int, y: int|
                in_bounds(self.size, x, y) && flood_reaches(
                    self.squares@,
                    self.size,
                    old_list,
                    pos.x as int,
                    pos.y as int,
                    x,
                    y,
                ) && reveal != Cell::Nothing implies x == pos.x && y == pos.y by {
                lemma_reach_stops(self.squares@, self.size, old_list, pos.x as int, pos.y as int, x, y);
            }
        }
        match reveal {
            Cell::Nothing => {
                self.flood(pos, index, &listed, searched_positions);
                false
            },
            _ => {
                replace(&mut self.shown_squares, index, Visibility::Revealed);
                if !listed[index] {
                    searched_positions.push(index);
                }
                proof {
                    let added = appended(old_list, searched_positions@);
                    if !listed@[index as int] {
                        assert(added =~= seq![index]);
                    } else {
                        assert(added =~= Seq::<usize>::empty());
                    }
                    assert(searched_positions@ =~= old_list + added);
                    assert forall|x: int, y: int| in_bounds(self.size, x, y) implies (
                    added.contains(#[trigger] index_of(self.size, x, y) as usize) <==> x == pos.x
                        && y == pos.y && !old_list.contains(index_of(self.size, x, y) as usize)) by {
                        if added.contains(index_of(self.size, x, y) as usize) {
                            assert(added[0] == index);
                        }
                        if x == pos.x && y == pos.y && !old_list.contains(index as usize) {
                            assert(added[0] == index);
                        }
                    }
                }
                (reveal == Cell::Mine)
            },
        }
    }

    /// Opens the region around the empty cell `pos`, with a work list of pending cells,
    /// entering no cell that `listed` marks.
    fn flood(&mut self, pos: Position, index: usize, listed: &Vec<bool>, searched: &mut Vec<usize>)
        requires
            old(self).wf(),
            in_bounds(old(self).size, pos.x as int, pos.y as int),
            index == index_of(old(self).size, pos.x as int, pos.y as int),
            old(self).squares@[index as int] == Cell::Nothing,
            listed@.len() == cell_total(old(self).size),
            forall|i: int|
                0 <= i < cell_total(old(self).size) ==> (#[trigger] listed@[i] <==> old(
                    searched,
                )@.contains(i as usize)),
        ensures
            final(self).size == old(self).size,
            final(self).mines == old(self).mines,
            final(self).seed == old(self).seed,
            final(self).squares == old(self).squares,
            final(self).shown_squares@.len() == old(self).shown_squares@.len(),
            final(searched)@ == old(searched)@ + appended(old(searched)@, final(searched)@),
            forall|x: int, y: int|
                in_bounds(old(self).size, x, y) ==> #[trigger] final(self).shown_squares@[index_of(
                    old(self).size,
                    x,
                    y,
                )] == if flood_reaches(
                    old(self).squares@,
                    old(self).size,
                    old(searched)@,
                    pos.x as int,
                    pos.y as int,
                    x,
                    y,
                ) {
                    Visibility::Revealed
                } else {
                    old(self).shown_squares@[index_of(old(self).size, x, y)]
                },
            forall|x: int, y: int|
                in_bounds(old(self).size, x, y) ==> (appended(old(searched)@, final(searched)@).contains(
                    #[trigger] index_of(old(self).size, x, y) as usize,
                ) <==> flood_reaches(
                    old(self).squares@,
                    old(self).size,
                    old(searched)@,
                    pos.x as int,
                    pos.y as int,
                    x,
                    y,
                ) && !old(searched)@.contains(index_of(old(self).size, x, y) as usize)),
            forall|k: int|
                0 <= k < appended(old(searched)@, final(searched)@).len() ==> (#[trigger] appended(
                    old(searched)@,
                    final(searched)@,
                )[k]) < cell_total(old(self).size) && !old(searched)@.contains(
                    appended(old(searched)@, final(searched)@)[k],
                ),
            appended(old(searched)@, final(searched)@).no_duplicates(),
    {
        let ghost size = self.size;
        let ghost truth = self.squares@;
        let ghost before = self.shown_squares@;
        let ghost old_list = searched@;
        let ghost x0 = pos.x as int;
        let ghost y0 = pos.y as int;
        let ghost mut added: Seq<usize> = Seq::empty();
        let cells = self.size.size_x * self.size.size_y;
        let mut seen: Vec<bool> = Vec::new();
        let mut i: i32 = 0;
        while i < cells
            invariant
                0 <= i <= cells,
                cells == cell_total(size),
                seen@ == Seq::new(i as nat, |k: int| false),
            decreases cells - i,
        {
            seen.push(false);
            i = i + 1;
            assert(seen@ =~= Seq::new(i as nat, |k: int| false));
        }
        proof {
            lemma_indices(size);
            lemma_reach_self(truth, size, old_list, x0, y0);
        }
        replace(&mut seen, index, true);
        replace(&mut self.shown_squares, index, Visibility::Revealed);
        if !listed[index] {
            searched.push(index);
            proof {
                added = seq![index];
            }
        }
        let mut stack: Vec<Position> = Vec::new();
        stack.push(pos);
        proof {
            assert(searched@ =~= old_list + added);
            assert forall|i: int| 0 <= i < cell_total(size) implies (#[trigger] seen@[i]
                && !listed@[i] <==> added.contains(i as usize)) by {
                if added.contains(i as usize) {
                    assert(added[0] == index);
                }
                if seen@[i] && !listed@[i] {
                    assert(added[0] == index);
                }
            }
            assert forall|x: int, y: int|
                in_bounds(size, x, y) && #[trigger] seen@[index_of(size, x, y)] implies flood_reaches(
                truth,
                size,
                old_list,
                x0,
                y0,
                x,
                y,
            ) by {
                if !(x == x0 && y == y0) {
                    lemma_index_distinct(size, x, y, x0, y0);
                }
            }
            assert forall|p: int, q: int, a: int, b: int|
                in_bounds(size, p, q) && in_bounds(size, a, b) && #[trigger] touching(p, q, a, b)
                    && seen@[index_of(size, p, q)] && truth[index_of(size, p, q)] == Cell::Nothing
                    && !stack@.contains(Position { x: p as i32, y: q as i32 }) && !(p == -1 && q
                    == -1) && !listed@[index_of(size, a, b)] implies seen@[index_of(size, a, b)] by {
                if !(p == x0 && q == y0) {
                    lemma_index_distinct(size, p, q, x0, y0);
                } else {
                    assert(stack@[0] == Position { x: p as i32, y: q as i32 });
                }
            }
        }
        while stack.len() > 0
            invariant
                self.size == size,
                size == old(self).size,
                self.mines == old(self).mines,
                self.seed == old(self).seed,
                self.squares == old(self).squares,
                truth == self.squares@,
                before == old(self).shown_squares@,
                old_list == old(searched)@,
                x0 == pos.x as int,
                y0 == pos.y as int,
                in_bounds(size, x0, y0),
                flood_inv(
                    truth,
                    size,
                    self.shown_squares@,
                    before,
                    seen@,
                    listed@,
                    old_list,
                    added,
                    searched@,
                    stack@,
                    x0,
                    y0,
                ),
                closed_except(truth, size, seen@, listed@, stack@, -1, -1),
                seen@[index_of(size, x0, y0)],
            decreases 2 * unvisited(seen@) + stack@.len(),
        {
            let ghost m0 = 2 * unvisited(seen@) + stack@.len();
            let ghost full = stack@;
            let c = stack.pop().unwrap();
            proof {
                assert(full =~= stack@.push(c));
                assert forall|p: int, q: int, a: int, b: int|
                    in_bounds(size, p, q) && in_bounds(size, a, b) && #[trigger] touching(p, q, a, b)
                        && seen@[index_of(size, p, q)] && truth[index_of(size, p, q)]
                        == Cell::Nothing && !stack@.contains(Position { x: p as i32, y: q as i32 })
                        && !(p == c.x && q == c.y) && !listed@[index_of(size, a, b)] implies seen@[index_of(
                    size,
                    a,
                    b,
                )] by {
                    if full.contains(Position { x: p as i32, y: q as i32 }) {
                        let k = choose|k: int|
                            0 <= k < full.len() && full[k] == Position { x: p as i32, y: q as i32 };
                        if k < stack@.len() {
                            assert(stack@[k] == full[k]);
                        }
                    }
                }
                assert(full[full.len() - 1] == c);
            }
            let mut dx: i32 = -1;
            while dx <= 1
                invariant
                    -1 <= dx <= 2,
                    self.size == size,
                    size == old(self).size,
                    self.mines == old(self).mines,
                    self.seed == old(self).seed,
                    self.squares == old(self).squares,
                    truth == self.squares@,
                    before == old(self).shown_squares@,
                    old_list == old(searched)@,
                    x0 == pos.x as int,
                    y0 == pos.y as int,
                    in_bounds(size, x0, y0),
                    in_bounds(size, c.x as int, c.y as int),
                    seen@[index_of(size, c.x as int, c.y as int)],
                    truth[index_of(size, c.x as int, c.y as int)] == Cell::Nothing,
                    flood_inv(
                        truth,
                        size,
                        self.shown_squares@,
                        before,
                        seen@,
                        listed@,
                        old_list,
                        added,
                        searched@,
                        stack@,
                        x0,
                        y0,
                    ),
                    closed_except(truth, size, seen@, listed@, stack@, c.x as int, c.y as int),
                    seen@[index_of(size, x0, y0)],
                    2 * unvisited(seen@) + stack@.len() < m0,
                    forall|a: int, b: int|
                        in_bounds(size, a, b) && #[trigger] touching(c.x as int, c.y as int, a, b) && a
                            - c.x < dx && !listed@[index_of(size, a, b)] ==> seen@[index_of(size, a, b)],
                decreases 2 - dx,
            {
                let mut dy: i32 = -1;
                while dy <= 1
                    invariant
                        -1 <= dx <= 1,
                        -1 <= dy <= 2,
                        self.size == size,
                        size == old(self).size,
                        self.mines == old(self).mines,
                        self.seed == old(self).seed,
                        self.squares == old(self).squares,
                        truth == self.squares@,
                        before == old(self).shown_squares@,
                        old_list == old(searched)@,
                        x0 == pos.x as int,
                        y0 == pos.y as int,
                        in_bounds(size, x0, y0),
                        in_bounds(size, c.x as int, c.y as int),
                        seen@[index_of(size, c.x as int, c.y as int)],
                        truth[index_of(size, c.x as int, c.y as int)] == Cell::Nothing,
                        flood_inv(
                            truth,
                            size,
                            self.shown_squares@,
                            before,
                            seen@,
                            listed@,
                            old_list,
                            added,
                            searched@,
                            stack@,
                            x0,
                            y0,
                        ),
                        closed_except(truth, size, seen@, listed@, stack@, c.x as int, c.y as int),
                        seen@[index_of(size, x0, y0)],
                        2 * unvisited(seen@) + stack@.len() < m0,
                        forall|a: int, b: int|
                            in_bounds(size, a, b) && #[trigger] touching(c.x as int, c.y as int, a, b)
                                && (a - c.x < dx || (a - c.x == dx && b - c.y < dy)) && !listed@[index_of(
                                size,
                                a,
                                b,
                            )] ==> seen@[index_of(size, a, b)],
                    decreases 2 - dy,
                {
                    let a = c.x + dx;
                    let b = c.y + dy;
                    if !(dx == 0 && dy == 0) && !self.is_out_of_bounds(Position { x: a, y: b }) {
                        let j = flat_index(self.size, Position { x: a, y: b });
                        if !seen[j] && !listed[j] {
                            let ghost seen0 = seen@;
                            let ghost added0 = added;
                            let ghost stack0 = stack@;
                            proof {
                                lemma_indices(size);
                                lemma_unvisited_visit(seen@, j as int);
                                assert(!old_list.contains(j));
                                lemma_reach_extend(
                                    truth,
                                    size,
                                    old_list,
                                    x0,
                                    y0,
                                    c.x as int,
                                    c.y as int,
                                    a as int,
                                    b as int,
                                );
                            }
                            replace(&mut seen, j, true);
                            replace(&mut self.shown_squares, j, Visibility::Revealed);
                            searched.push(j);
                            proof {
                                added = added.push(j);
                            }
                            if self.squares[j] == Cell::Nothing {
                                stack.push(Position { x: a, y: b });
                            }
                            proof {
                                assert(searched@ =~= old_list + added);
                                assert forall|i: int| 0 <= i < cell_total(size) implies (
                                #[trigger] seen@[i] && !listed@[i] <==> added.contains(i as usize)) by {
                                    if i == j as int {
                                        assert(added[added.len() - 1] == j);
                                    } else {
                                        if added.contains(i as usize) {
                                            let k = choose|k: int|
                                                0 <= k < added.len() && added[k] == i as usize;
                                            assert(k < added0.len());
                                            assert(added0[k] == i as usize);
                                        }
                                        if added0.contains(i as usize) {
                                            let k = choose|k: int|
                                                0 <= k < added0.len() && added0[k] == i as usize;
                                            assert(added[k] == i as usize);
                                        }
                                    }
                                }
                                assert(!added0.contains(j));
                                assert(added.no_duplicates()) by {
                                    assert forall|k1: int, k2: int|
                                        0 <= k1 < added.len() && 0 <= k2 < added.len() && k1 != k2 implies added[k1]
                                            != added[k2] by {
                                        if k1 < added0.len() && k2 < added0.len() {
                                        } else if k1 < added0.len() {
                                            assert(added0.contains(added0[k1]));
                                        } else {
                                            assert(added0.contains(added0[k2]));
                                        }
                                    }
                                }
                                assert forall|k: int| 0 <= k < added.len() implies (
                                #[trigger] added[k]) < cell_total(size) && !listed@[added[k] as int] by {
                                    if k < added0.len() {
                                        assert(added[k] == added0[k]);
                                    }
                                }
                                assert forall|x: int, y: int|
                                    in_bounds(size, x, y) && #[trigger] seen@[index_of(
                                        size,
                                        x,
                                        y,
                                    )] implies flood_reaches(truth, size, old_list, x0, y0, x, y) by {
                                    if !(x == a && y == b) {
                                        assert(seen0[index_of(size, x, y)]);
                                    }
                                }
                                assert forall|k: int| 0 <= k < stack@.len() implies in_bounds(
                                    size,
                                    (#[trigger] stack@[k]).x as int,
                                    stack@[k].y as int,
                                ) && seen@[index_of(size, stack@[k].x as int, stack@[k].y as int)]
                                    && truth[index_of(size, stack@[k].x as int, stack@[k].y as int)]
                                    == Cell::Nothing by {
                                    if k < stack0.len() {
                                        assert(stack@[k] == stack0[k]);
                                    }
                                }
                                assert forall|p: int, q: int, a2: int, b2: int|
                                    in_bounds(size, p, q) && in_bounds(size, a2, b2)
                                        && #[trigger] touching(p, q, a2, b2) && seen@[index_of(
                                        size,
                                        p,
                                        q,
                                    )] && truth[index_of(size, p, q)] == Cell::Nothing
                                        && !stack@.contains(Position { x: p as i32, y: q as i32 })
                                        && !(p == c.x && q == c.y) && !listed@[index_of(size, a2, b2)]
                                        implies seen@[index_of(size, a2, b2)] by {
                                    if p == a && q == b {
                                        assert(stack@[stack@.len() - 1] == Position {
                                            x: p as i32,
                                            y: q as i32,
                                        });
                                    } else {
                                        if stack0.contains(Position { x: p as i32, y: q as i32 }) {
                                            let k = choose|k: int|
                                                0 <= k < stack0.len() && stack0[k] == Position {
                                                    x: p as i32,
                                                    y: q as i32,
                                                };
                                            assert(stack@[k] == stack0[k]);
                                        }
                                        assert(seen0[index_of(size, p, q)]);
                                    }
                                }
                            }
                        }
                    }
                    dy = dy + 1;
                }
                dx = dx + 1;
            }
        }
        proof {
            let visited = |x: int, y: int| in_bounds(size, x, y) && seen@[index_of(size, x, y)];
            assert forall|x: int, y: int|
                in_bounds(size, x, y) && flood_reaches(truth, size, old_list, x0, y0, x, y) implies seen@[index_of(
                size,
                x,
                y,
            )] by {
                assert forall|p: int, q: int, a: int, b: int|
                    in_bounds(size, p, q) && in_bounds(size, a, b) && #[trigger] touching(p, q, a, b)
                        && visited(p, q) && truth[index_of(size, p, q)] == Cell::Nothing
                        && !old_list.contains(index_of(size, a, b) as usize) implies visited(a, b) by {
                    assert(!stack@.contains(Position { x: p as i32, y: q as i32 }));
                    assert(!listed@[index_of(size, a, b)]);
                }
                lemma_reach_closed(truth, size, old_list, visited, x0, y0, x, y);
            }
            assert(appended(old_list, searched@) =~= added);
            assert forall|x: int, y: int| in_bounds(size, x, y) implies (added.contains(
                #[trigger] index_of(size, x, y) as usize,
            ) <==> flood_reaches(truth, size, old_list, x0, y0, x, y) && !old_list.contains(
                index_of(size, x, y) as usize,
            )) by {
                lemma_index_in_range(size, x, y);
                assert(seen@[index_of(size, x, y)] && !listed@[index_of(size, x, y)] <==> added.contains(
                    index_of(size, x, y) as usize,
                ));
            }
            assert forall|k: int| 0 <= k < added.len() implies !old_list.contains(added[k]) by {
                assert(!listed@[added[k] as int]);
            }
        }
    }

    /// Whether the player has won.
    pub fn player_won(&self) -> (r: bool)
        requires
            self.wf(),
        ensures
            r == self@.won(),
    {
        if self.count_marked() != self.mines {
            return false;
        }
        let n = self.shown_squares.len();
        let mut i: usize = 0;
        while i < n
            invariant
                n == self.shown_squares@.len(),
                self.wf(),
                i <= n,
                forall|k: int|
                    0 <= k < i && #[trigger] self.shown_squares@[k] == Visibility::Flagged ==> is_mine(
                        self.squares@[k],
                    ),
            decreases n - i,
        {
            if self.shown_squares[i] == Visibility::Flagged && self.squares[i] != Cell::Mine {
                return false;
            }
            i = i + 1;
        }
        true
    }

    /// The number of flagged cells.
    pub fn count_marked(&self) -> (r: i32)
        requires
            self.wf(),
        ensures
            r == flag_total(self@.shown),
    {
        let n = self.shown_squares.len();
        let mut counter: i32 = 0;
        let mut i: usize = 0;
        while i < n
            invariant
                n == self.shown_squares@.len(),
                n <= i32::MAX,
                i <= n,
                counter == flag_total(self.shown_squares@.take(i as int)),
                counter <= i,
            decreases n - i,
        {
            proof {
                assert(self.shown_squares@.take(i + 1).drop_last() =~= self.shown_squares@.take(
                    i as int,
                ));
            }
            if self.shown_squares[i] == Visibility::Flagged {
                counter = counter + 1;
            }
            i = i + 1;
        }
        proof {
            assert(self.shown_squares@.take(n as int) =~= self.shown_squares@);
        }
        counter
    }

    /// The status line for a game that has run `elapsed_secs` seconds: flags placed,
    /// mines, and the seconds.
    pub fn status_bar_at(&self, elapsed_secs: u64) -> (r: String)
        requires
            self.wf(),
        ensures
            r@ == status_text(flag_total(self@.shown), self@.mines as nat, elapsed_secs as nat),
    {
        let marked = self.count_marked();
        let mut output = String::new();
        push_decimal(&mut output, marked as u64);
        proof {
            reveal_strlit("/");
            reveal_strlit(" ");
        }
        output.append("/");
        push_decimal(&mut output, self.mines as u64);
        output.append(" ");
        push_decimal(&mut output, elapsed_secs);
        proof {
            assert(output@ =~= status_text(
                flag_total(self@.shown),
                self@.mines as nat,
                elapsed_secs as nat,
            ));
        }
        output
    }

    /// The status line, timed from the field's creation.
    pub fn status_bar(&self) -> (r: String)
        requires
            self.wf(),
        ensures
            exists|secs: u64|
                r@ == #[trigger] status_text(flag_total(self@.shown), self@.mines as nat, secs as nat),
    {
        let secs = self.time.elapsed().as_secs();
        self.status_bar_at(secs)
    }

    /// Toggles the mark on `pos` (see `FieldView::marked`).
    pub fn toggle_mark(&mut self, pos: Position)
        requires
            old(self).wf(),
        ensures
            final(self).wf(),
            final(self)@ == old(self)@.marked(pos.x as int, pos.y as int),
    {
        if self.is_out_of_bounds(pos) {
            return ;
        }
        let index = flat_index(self.size, pos);
        match self.shown_squares[index] {
            Visibility::Flagged => {
                replace(&mut self.shown_squares, index, Visibility::Hidden);
            },
            Visibility::Hidden => {
                replace(&mut self.shown_squares, index, Visibility::Flagged);
            },
            Visibility::Revealed => {
                assert(self.shown_squares@.update(index as int, Visibility::Revealed)
                    =~= self.shown_squares@);
            },
        }
    }

    /// The text of one gap of row `x` (see `gap`).
    fn gap_str(cursor: Position, cols: i32, x: i32, k: i32) -> (r: &'static str)
        requires
            k >= 0,
        ensures
            r@ == seq![gap(cursor, cols as int, x as int, k as int)],
    {
        proof {
            reveal_strlit("[");
            reveal_strlit("]");
            reveal_strlit(" ");
        }
        if cursor.x == x && cursor.y == k && k < cols {
            "["
        } else if cursor.x == x && k >= 1 && cursor.y == k - 1 {
            "]"
        } else {
            " "
        }
    }

    /// The text of what the cell at `pos` shows (see `token`).
    fn token_str(&self, pos: Position) -> (r: &'static str)
        requires
            self.wf(),
            in_bounds(self@.size, pos.x as int, pos.y as int),
        ensures
            r@ == seq![token(self@, pos.x as int, pos.y as int)],
    {
        proof {
            reveal_strlit("-");
            reveal_strlit("*");
            reveal_strlit(" ");
            reveal_strlit("M");
        }
        let index = flat_index(self.size, pos);
        match self.shown_squares[index] {
            Visibility::Hidden => "-",
            Visibility::Flagged => "*",
            Visibility::Revealed => match self.squares[index] {
                Cell::Nothing => " ",
                Cell::Mine => "M",
                Cell::Number(n) => {
                    proof {
                        let x = pos.x as int;
                        let y = pos.y as int;
                        assert(self.squares@[index_of(self.size, x, y)] == count_cell(
                            adjacent_mines(self.squares@, self.size, x, y),
                        ));
                        assert(adjacent_mines(self.squares@, self.size, x, y) <= 8);
                    }
                    digit_str(n as u64)
                },
            },
        }
    }

    /// The grid as text: a border of `=`, one line per row between `|` sides with the
    /// token of each cell (see `token`), the cursor's cell in brackets, and a border.
    pub fn draw(&self, position_on_field: Position) -> (r: String)
        requires
            self.wf(),
        ensures
            r@ == picture(self@, position_on_field),
    {
        let ghost v = self@;
        let cursor = position_on_field;
        let sy = self.size.size_y;
        let sx = self.size.size_x;
        proof {
            reveal_strlit("==");
            reveal_strlit("===");
            reveal_strlit("\n");
            reveal_strlit("|");
            reveal_strlit("|\n");
        }
        let mut output = string_repeat("==", sy);
        output.append("===");
        proof {
            assert("=="@ =~= seq!['=', '=']);
            assert("==="@ =~= seq!['=', '='] + seq!['=']);
            assert(repeated("=="@, sy + 1) == repeated("=="@, sy as int) + "=="@);
            assert(output@ =~= border(sy as int));
        }
        output.append("\n");
        let mut x: i32 = 0;
        while x < sx
            invariant
                self.wf(),
                v == self@,
                sx == v.size.size_x,
                sy == v.size.size_y,
                0 <= x <= sx,
                output@ == border(sy as int) + seq!['\n'] + rows_text(v, cursor, x as int),
            decreases sx - x,
        {
            let ghost head = output@;
            proof {
                reveal_strlit("|");
                reveal_strlit("|\n");
            }
            output.append("|");
            if sy > 0 {
                output.append(Self::gap_str(cursor, sy, x, 0));
                proof {
                    assert(output@ =~= head + seq!['|'] + row_cells(v, cursor, x as int, 0));
                }
                let mut y: i32 = 0;
                while y < sy
                    invariant
                        self.wf(),
                        v == self@,
                        sx == v.size.size_x,
                        sy == v.size.size_y,
                        0 <= x < sx,
                        0 <= y <= sy,
                        output@ == head + seq!['|'] + row_cells(v, cursor, x as int, y as int),
                    decreases sy - y,
                {
                    output.append(self.token_str(Position { x, y }));
                    output.append(Self::gap_str(cursor, sy, x, y + 1));
                    proof {
                        assert(output@ =~= head + seq!['|'] + row_cells(
                            v,
                            cursor,
                            x as int,
                            y + 1,
                        ));
                    }
                    y = y + 1;
                }
            }
            output.append("|\n");
            proof {
                assert("|\n"@ =~= seq!['|', '\n']);
                assert("|"@ =~= seq!['|']);
                assert(output@ =~= head + row_text(v, cursor, x as int));
                assert(rows_text(v, cursor, x + 1) == rows_text(v, cursor, x as int) + row_text(
                    v,
                    cursor,
                    x as int,
                ));
            }
            x = x + 1;
        }
        let bottom = string_repeat("==", sy);
        output.append(bottom.as_str());
        output.append("===");
        proof {
            assert("=="@ =~= seq!['=', '=']);
            assert("==="@ =~= seq!['=', '='] + seq!['=']);
            assert(repeated("=="@, sy + 1) == repeated("=="@, sy as int) + "=="@);
            assert(output@ =~= picture(v, cursor));
        }
        output
    }

    /// What the cell at `pos` holds; `None` off the board.
    pub fn cell_at(&self, pos: Position) -> (r: Option<Cell>)
        requires
            self.wf(),
        ensures
            r == if in_bounds(self@.size, pos.x as int, pos.y as int) {
                Some(self@.truth_at(pos.x as int, pos.y as int))
            } else {
                None
            },
    {
        if self.is_out_of_bounds(pos) {
            return None;
        }
        Some(self.squares[flat_index(self.size, pos)])
    }

    /// What the player sees of the cell at `pos`; `None` off the board.
    pub fn visibility_at(&self, pos: Position) -> (r: Option<Visibility>)
        requires
            self.wf(),
        ensures
            r == if in_bounds(self@.size, pos.x as int, pos.y as int) {
                Some(self@.shown_at(pos.x as int, pos.y as int))
            } else {
                None
            },
    {
        if self.is_out_of_bounds(pos) {
            return None;
        }
        Some(self.shown_squares[flat_index(self.size, pos)])
    }

    /// The board's size.
    pub fn size(&self) -> (r: Size)
        ensures
            r == self@.size,
    {
        self.size
    }

    /// The number of mines on the board.
    pub fn mines(&self) -> (r: i32)
        ensures
            r == self@.mines,
    {
        self.mines
    }

    /// Whether `pos` lies outside the board.
    pub fn is_out_of_bounds(&self, pos: Position) -> (r: bool)
        ensures
            r == !in_bounds(self@.size, pos.x as int, pos.y as int),
    {
        pos.x < 0 || pos.y < 0 || pos.x >= self.size.size_x || pos.y >= self.size.size_y
    }

    /// Adds one adjacent mine to the cell at `(x, y)`, if it is on the board and no mine.
    fn bump_cell(&mut self, x: i32, y: i32)
        requires
            size_ok(old(self).size),
            old(self).squares@.len() == cell_total(old(self).size),
        ensures
            final(self).size == old(self).size,
            final(self).seed == old(self).seed,
            final(self).mines == old(self).mines,
            final(self).shown_squares == old(self).shown_squares,
            final(self).squares@ == if in_bounds(old(self).size, x as int, y as int) && !is_mine(
                old(self).squares@[index_of(old(self).size, x as int, y as int)],
            ) {
                old(self).squares@.update(
                    index_of(old(self).size, x as int, y as int),
                    bumped(old(self).squares@[index_of(old(self).size, x as int, y as int)]),
                )
            } else {
                old(self).squares@
            },
    {
        if x < 0 || y < 0 || x >= self.size.size_x || y >= self.size.size_y {
            return ;
        }
        let idx = flat_index(self.size, Position { x, y });
        match self.squares[idx] {
            Cell::Nothing => {
                replace(&mut self.squares, idx, Cell::Number(1));
            },
            Cell::Number(n) => {
                if n < 255 {
                    replace(&mut self.squares, idx, Cell::Number(n + 1));
                }
            },
            Cell::Mine => {},
        }
    }

    /// Adds one adjacent mine to every non-mine cell of the 3x3 block around `pos`.
    fn generate_numbers_around_mine(&mut self, pos: Position)
        requires
            size_ok(old(self).size),
            old(self).squares@.len() == cell_total(old(self).size),
            in_bounds(old(self).size, pos.x as int, pos.y as int),
        ensures
            final(self).size == old(self).size,
            final(self).seed == old(self).seed,
            final(self).mines == old(self).mines,
            final(self).shown_squares == old(self).shown_squares,
            final(self).squares@.len() == old(self).squares@.len(),
            forall|i: int|
                0 <= i < old(self).squares@.len() ==> (is_mine(#[trigger] final(self).squares@[i])
                    <==> is_mine(old(self).squares@[i])),
            forall|x: int, y: int|
                in_bounds(old(self).size, x, y) ==> #[trigger] final(self).squares@[index_of(
                    old(self).size,
                    x,
                    y,
                )] == if near(pos, x, y) && !is_mine(
                    old(self).squares@[index_of(old(self).size, x, y)],
                ) {
                    bumped(old(self).squares@[index_of(old(self).size, x, y)])
                } else {
                    old(self).squares@[index_of(old(self).size, x, y)]
                },
    {
        let ghost start = self.squares@;
        let ghost size = self.size;
        proof {
            lemma_indices(size);
        }
        let mut dx: i32 = -1;
        while dx <= 1
            invariant
                -1 <= dx <= 2,
                self.size == size,
                size == old(self).size,
                self.seed == old(self).seed,
                self.mines == old(self).mines,
                self.shown_squares == old(self).shown_squares,
                start == old(self).squares@,
                size_ok(size),
                in_bounds(size, pos.x as int, pos.y as int),
                self.squares@.len() == start.len(),
                start.len() == cell_total(size),
                forall|i: int|
                    0 <= i < start.len() ==> (is_mine(#[trigger] self.squares@[i]) <==> is_mine(
                        start[i],
                    )),
                forall|x: int, y: int|
                    in_bounds(size, x, y) ==> #[trigger] self.squares@[index_of(size, x, y)] == if near(
                        pos,
                        x,
                        y,
                    ) && x - pos.x < dx && !is_mine(start[index_of(size, x, y)]) {
                        bumped(start[index_of(size, x, y)])
                    } else {
                        start[index_of(size, x, y)]
                    },
            decreases 2 - dx,
        {
            let mut dy: i32 = -1;
            while dy <= 1
                invariant
                    -1 <= dx <= 1,
                    -1 <= dy <= 2,
                    self.size == size,
                    size == old(self).size,
                    self.seed == old(self).seed,
                    self.mines == old(self).mines,
                    self.shown_squares == old(self).shown_squares,
                    start == old(self).squares@,
                    size_ok(size),
                    in_bounds(size, pos.x as int, pos.y as int),
                    self.squares@.len() == start.len(),
                    start.len() == cell_total(size),
                    forall|i: int|
                        0 <= i < start.len() ==> (is_mine(#[trigger] self.squares@[i])
                            <==> is_mine(start[i])),
                    forall|x: int, y: int|
                        in_bounds(size, x, y) ==> #[trigger] self.squares@[index_of(size, x, y)]
                            == if near(pos, x, y) && (x - pos.x < dx || (x - pos.x == dx && y
                            - pos.y < dy)) && !is_mine(start[index_of(size, x, y)]) {
                            bumped(start[index_of(size, x, y)])
                        } else {
                            start[index_of(size, x, y)]
                        },
                decreases 2 - dy,
            {
                self.bump_cell(pos.x + dx, pos.y + dy);
                proof {
                    lemma_indices(size);
                }
                dy = dy + 1;
            }
            dx = dx + 1;
        }
    }
}

} // verus!
