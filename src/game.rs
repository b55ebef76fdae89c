//! The generation engine: neighbour counting, the B3/S23 classification and
//! the step from one generation to the next.
use vstd::prelude::*;

use crate::grid::{
    dense_of, grid_view, in_bounds, marked, rectangular, to_dense, to_sparse, valid_input,
    OutOfBounds,
};

verus! {

/// What becomes of a cell in the next generation.
#[derive(Debug, Clone, Copy, PartialEq, Eq, Structural)]
pub enum State {
    Alive,
    Dead,
    Underpopulation,
    Overpopulation,
    Reproduction,
}

/// The label of each outcome.
pub open spec fn state_label(s: State) -> Seq<char> {
    match s {
        State::Alive => "Alive"@,
        State::Dead => "Dead"@,
        State::Underpopulation => "Underpopulation"@,
        State::Overpopulation => "Overpopulation"@,
        State::Reproduction => "Reproduction"@,
    }
}

impl State {
    /// The outcome's name, for diagnostics.
    pub fn label(&self) -> (r: &'static str)
        ensures
            r@ == state_label(*self),
    {
        match self {
            State::Alive => "Alive",
            State::Dead => "Dead",
            State::Underpopulation => "Underpopulation",
            State::Overpopulation => "Overpopulation",
            State::Reproduction => "Reproduction",
        }
    }
}

/// The cell at 0-indexed `(i, j)` exists in `g` and is alive. Indices off
/// the grid are simply not alive: there is no wrap-around.
pub open spec fn occupied(g: Seq<Seq<bool>>, i: int, j: int) -> bool {
    0 <= i < g.len() && 0 <= j < g[i].len() && g[i][j]
}

/// 1 when `(i, j)` is an alive cell other than the centre `(x, y)`, else 0.
pub open spec fn counted(g: Seq<Seq<bool>>, x: int, y: int, i: int, j: int) -> int {
    if (i != x || j != y) && occupied(g, i, j) {
        1
    } else {
        0
    }
}

/// Alive cells other than `(x, y)` in row `i`, columns `lo..hi`.
pub open spec fn row_count(g: Seq<Seq<bool>>, x: int, y: int, i: int, lo: int, hi: int) -> int
    decreases hi - lo,
{
    if hi <= lo {
        0
    } else {
        row_count(g, x, y, i, lo, hi - 1) + counted(g, x, y, i, hi - 1)
    }
}

/// Alive cells other than `(x, y)` in rows `ilo..ihi`, columns `jlo..jhi`.
pub open spec fn window_count(
    g: Seq<Seq<bool>>,
    x: int,
    y: int,
    ilo: int,
    ihi: int,
    jlo: int,
    jhi: int,
) -> int
    decreases ihi - ilo,
{
    if ihi <= ilo {
        0
    } else {
        window_count(g, x, y, ilo, ihi - 1, jlo, jhi) + row_count(g, x, y, ihi - 1, jlo, jhi)
    }
}

/// The number of alive neighbours of `(x, y)`: the alive cells of the 3x3
/// window centred on it, the centre excluded, cells off the grid counting
/// for nothing.
pub open spec fn neighbours(g: Seq<Seq<bool>>, x: int, y: int) -> int {
    window_count(g, x, y, x - 1, x + 2, y - 1, y + 2)
}

/// The B3/S23 rule for a cell that is alive or not and has `n` alive
/// neighbours.
pub open spec fn classify(alive: bool, n: int) -> State {
    if alive && n < 2 {
        State::Underpopulation
    } else if alive && n <= 3 {
        State::Alive
    } else if alive {
        State::Overpopulation
    } else if n == 3 {
        State::Reproduction
    } else {
        State::Dead
    }
}

/// The outcome puts the cell in the next generation's alive set.
pub open spec fn lives(s: State) -> bool {
    s == State::Alive || s == State::Reproduction
}

/// Whether the 0-indexed cell `(i, j)` of `g` is alive in the next generation.
pub open spec fn next_cell(g: Seq<Seq<bool>>, i: int, j: int) -> bool {
    lives(classify(g[i][j], neighbours(g, i, j)))
}

/// The alive set that follows `alive` on a `height x width` grid.
pub open spec fn next_generation(height: int, width: int, alive: Set<(usize, usize)>) -> Set<
    (usize, usize),
> {
    Set::new(
        |p: (usize, usize)|
            in_bounds(height, width, p) && next_cell(dense_of(height, width, alive), p.0 - 1, p.1 - 1),
    )
}

/// `r` is what a step from `cells` on a `height x width` grid gives: an
/// error exactly on invalid input, else each cell of the next generation
/// listed once.
pub open spec fn steps_to(
    height: int,
    width: int,
    cells: Seq<(usize, usize)>,
    r: Result<Vec<(usize, usize)>, OutOfBounds>,
) -> bool {
    &&& r is Err <==> !valid_input(height, width, cells)
    &&& r matches Ok(next) ==> next@.no_duplicates() && next@.to_set() == next_generation(
        height,
        width,
        cells.to_set(),
    )
}

/// The neighbour window around `(x, y)` written out as its eight terms.
proof fn lemma_neighbours_terms(g: Seq<Seq<bool>>, x: int, y: int)
    ensures
        neighbours(g, x, y) == counted(g, x, y, x - 1, y - 1) + counted(g, x, y, x - 1, y)
            + counted(g, x, y, x - 1, y + 1) + counted(g, x, y, x, y - 1) + counted(g, x, y, x, y + 1)
            + counted(g, x, y, x + 1, y - 1) + counted(g, x, y, x + 1, y) + counted(g, x, y, x + 1, y + 1),
{
    reveal_with_fuel(window_count, 4);
    reveal_with_fuel(row_count, 4);
}

/// Counting over the window clipped to the grid gives the neighbour count.
proof fn lemma_clipped_window(g: Seq<Seq<bool>>, x: int, y: int, sx: int, ex: int, sy: int, ey: int)
    requires
        0 <= x < g.len(),
        sx == if x == 0 { 0 } else { x - 1 },
        ex == if x + 1 < g.len() { x + 2 } else { g.len() as int },
        0 <= y < g[x].len(),
        forall|i: int| 0 <= i < g.len() ==> (#[trigger] g[i]).len() == g[x].len(),
        sy == if y == 0 { 0 } else { y - 1 },
        ey == if y + 1 < g[x].len() { y + 2 } else { g[x].len() as int },
    ensures
        window_count(g, x, y, sx, ex, sy, ey) == neighbours(g, x, y),
{
    lemma_neighbours_terms(g, x, y);
    reveal_with_fuel(window_count, 4);
    reveal_with_fuel(row_count, 4);
    assert forall|i: int| sx <= i < ex implies #[trigger] row_count(g, x, y, i, sy, ey)
        == counted(g, x, y, i, y - 1) + counted(g, x, y, i, y) + counted(g, x, y, i, y + 1) by {
        assert(g[i].len() == g[x].len());
    }
}

/// Classifies the cell at 0-indexed `(x, y)` of a rectangular grid, given
/// whether the cell is alive, by the number of alive cells in the 3x3 window
/// around it clipped to the grid.
pub fn scan(is_alive: &bool, x: &usize, y: &usize, grid: &Vec<Vec<bool>>) -> (r: State)
    requires
        *x < grid@.len(),
        *y < grid@[*x as int]@.len(),
        rectangular(grid_view(*grid), grid@[*x as int]@.len() as int),
    ensures
        r == classify(*is_alive, neighbours(grid_view(*grid), *x as int, *y as int)),
{
    let ghost g = grid_view(*grid);
    let x = *x;
    let y = *y;
    let height = grid.len();
    let width = grid[x].len();
    assert(g[x as int].len() == width);
    let s_x: usize = if x == 0 { 0 } else { x - 1 };
    let e_x: usize = if x + 1 < height { x + 2 } else { height };
    let s_y: usize = if y == 0 { 0 } else { y - 1 };
    let e_y: usize = if y + 1 < width { y + 2 } else { width };
    let mut alive_neighbours: usize = 0;
    let mut i_x: usize = s_x;
    while i_x < e_x
        invariant
            s_x <= i_x <= e_x <= height,
            e_x - s_x <= 3,
            s_y <= e_y <= width,
            e_y - s_y <= 3,
            height == grid@.len(),
            g == grid_view(*grid),
            rectangular(g, width as int),
            alive_neighbours <= 3 * (i_x - s_x),
            alive_neighbours == window_count(g, x as int, y as int, s_x as int, i_x as int, s_y as int, e_y as int),
        decreases e_x - i_x,
    {
        let row = &grid[i_x];
        assert(g[i_x as int] == row@);
        let mut i_y: usize = s_y;
        while i_y < e_y
            invariant
                s_x <= i_x < e_x <= height,
                e_x - s_x <= 3,
                s_y <= i_y <= e_y <= width,
                e_y - s_y <= 3,
                row@ == g[i_x as int],
                row@.len() == width,
                height == grid@.len(),
                g == grid_view(*grid),
                alive_neighbours <= 3 * (i_x - s_x) + (i_y - s_y),
                alive_neighbours == window_count(g, x as int, y as int, s_x as int, i_x as int, s_y as int, e_y as int)
                    + row_count(g, x as int, y as int, i_x as int, s_y as int, i_y as int),
            decreases e_y - i_y,
        {
            if (i_x != x || i_y != y) && row[i_y] {
                alive_neighbours = alive_neighbours + 1;
            }
            i_y = i_y + 1;
        }
        i_x = i_x + 1;
    }
    proof {
        lemma_clipped_window(g, x as int, y as int, s_x as int, e_x as int, s_y as int, e_y as int);
    }
    if *is_alive && alive_neighbours < 2 {
        State::Underpopulation
    } else if *is_alive && 2 <= alive_neighbours && alive_neighbours <= 3 {
        State::Alive
    } else if *is_alive && alive_neighbours > 3 {
        State::Overpopulation
    } else if !*is_alive && alive_neighbours == 3 {
        State::Reproduction
    } else {
        State::Dead
    }
}

/// Whether a cell with this outcome is alive in the next generation.
pub fn survives(s: State) -> (r: bool)
    ensures
        r == lives(s),
{
    match s {
        State::Alive | State::Reproduction => true,
        _ => false,
    }
}

/// Computes the generation that follows the 1-indexed alive cells `cells`
/// on a `height x width` grid. Duplicate cells count once and their order
/// does not matter; the result lists each alive cell once. Fails when a
/// dimension is zero or a cell lies off the grid.
pub fn play(height: &usize, width: &usize, cells: &Vec<(usize, usize)>) -> (r: Result<
    Vec<(usize, usize)>,
    OutOfBounds,
>)
    ensures
        steps_to(*height as int, *width as int, cells@, r),
{
    let grid = match to_dense(*height, *width, cells) {
        Ok(grid) => grid,
        Err(e) => {
            return Err(e);
        },
    };
    let ghost g = grid_view(grid);
    assert(g.len() == *height);
    assert(forall|i: int| 0 <= i < *height ==> #[trigger] g[i] == grid@[i]@);
    assert(rectangular(g, *width as int));
    let mut next: Vec<Vec<bool>> = Vec::new();
    let mut x: usize = 0;
    while x < *height
        invariant
            g == grid_view(grid),
            g == dense_of(*height as int, *width as int, cells@.to_set()),
            grid@.len() == *height,
            rectangular(g, *width as int),
            0 <= x <= *height,
            next@.len() == x,
            forall|i: int| 0 <= i < x ==> (#[trigger] next@[i])@.len() == *width,
            forall|i: int, j: int|
                0 <= i < x && 0 <= j < *width ==> next@[i]@[j] == next_cell(g, i, j),
        decreases *height - x,
    {
        let mut row: Vec<bool> = Vec::new();
        let mut y: usize = 0;
        while y < *width
            invariant
                g == grid_view(grid),
                g == dense_of(*height as int, *width as int, cells@.to_set()),
                grid@.len() == *height,
                rectangular(g, *width as int),
                0 <= x < *height,
                0 <= y <= *width,
                row@.len() == y,
                forall|j: int| 0 <= j < y ==> #[trigger] row@[j] == next_cell(g, x as int, j),
            decreases *width - y,
        {
            assert(g[x as int] == grid@[x as int]@);
            let state = scan(&grid[x][y], &x, &y, &grid);
            row.push(survives(state));
            y = y + 1;
        }
        let ghost before = next@;
        next.push(row);
        assert forall|i: int, j: int|
            0 <= i <= x && 0 <= j < *width implies next@[i]@[j] == next_cell(g, i, j) by {
            if i < x {
                assert(next@[i] == before[i]);
            }
        }
        x = x + 1;
    }
    let cells_next = to_sparse(&next);
    let ghost want = next_generation(*height as int, *width as int, cells@.to_set());
    assert(cells_next@.to_set() =~= want) by {
        assert forall|p: (usize, usize)| #[trigger] want.contains(p) implies cells_next@.contains(p) by {
            assert(grid_view(next)[p.0 - 1] == next@[p.0 - 1]@);
        }
        assert forall|p: (usize, usize)| cells_next@.contains(p) implies #[trigger] want.contains(p) by {
            assert(grid_view(next)[p.0 - 1] == next@[p.0 - 1]@);
        }
    }
    Ok(cells_next)
}

/// An alive cell whose eight neighbours all exist and are alive dies of
/// overpopulation.
pub proof fn lemma_crowded_cell_overpopulated(g: Seq<Seq<bool>>, x: int, y: int)
    requires
        forall|i: int, j: int| x - 1 <= i <= x + 1 && y - 1 <= j <= y + 1 ==> #[trigger] occupied(g, i, j),
    ensures
        neighbours(g, x, y) == 8,
        classify(g[x][y], neighbours(g, x, y)) == State::Overpopulation,
{
    lemma_neighbours_terms(g, x, y);
    assert(occupied(g, x - 1, y - 1) && occupied(g, x - 1, y) && occupied(g, x - 1, y + 1));
    assert(occupied(g, x, y - 1) && occupied(g, x, y) && occupied(g, x, y + 1));
    assert(occupied(g, x + 1, y - 1) && occupied(g, x + 1, y) && occupied(g, x + 1, y + 1));
}

/// The corner cell at row 1, column 1 counts only the three neighbours that
/// lie on the grid; nothing wraps around to the opposite edges.
pub proof fn lemma_corner_counts_on_grid_only(g: Seq<Seq<bool>>, width: int)
    requires
        g.len() >= 2,
        width >= 2,
        rectangular(g, width),
    ensures
        neighbours(g, 0, 0) == (if g[0][1] { 1int } else { 0 }) + (if g[1][0] { 1int } else { 0 })
            + (if g[1][1] { 1int } else { 0 }),
{
    lemma_neighbours_terms(g, 0, 0);
    assert(g[0].len() == width && g[1].len() == width);
}

/// On any valid dimensions the generation after an empty alive set is empty.
pub proof fn lemma_empty_stays_empty(height: int, width: int)
    requires
        height >= 1,
        width >= 1,
    ensures
        next_generation(height, width, Set::empty()) == Set::<(usize, usize)>::empty(),
{
    let g = dense_of(height, width, Set::empty());
    assert forall|p: (usize, usize)| !(#[trigger] next_generation(height, width, Set::empty()).contains(p)) by {
        if in_bounds(height, width, p) {
            let (x, y) = (p.0 - 1, p.1 - 1);
            lemma_neighbours_terms(g, x, y);
            assert forall|i: int, j: int| !#[trigger] occupied(g, i, j) by {
                if occupied(g, i, j) {
                    assert(g[i][j] == Set::<(usize, usize)>::empty().contains(((i + 1) as usize, (j + 1) as usize)));
                }
            }
            assert(!g[x][y]);
        }
    }
    assert(next_generation(height, width, Set::empty()) =~= Set::<(usize, usize)>::empty());
}

/// Two steps from the same dimensions and cells agree: both fail, or both
/// give the same alive set.
pub proof fn lemma_step_is_pure(
    height: int,
    width: int,
    cells: Seq<(usize, usize)>,
    r1: Result<Vec<(usize, usize)>, OutOfBounds>,
    r2: Result<Vec<(usize, usize)>, OutOfBounds>,
)
    requires
        steps_to(height, width, cells, r1),
        steps_to(height, width, cells, r2),
    ensures
        r1 is Ok <==> r2 is Ok,
        r1 is Err ==> r1 == r2,
        r1 is Ok ==> r1->Ok_0@.to_set() == r2->Ok_0@.to_set(),
{
    if let (Err(e1), Err(e2)) = (r1, r2) {
        assert(e1 == OutOfBounds::OutOfBounds && e2 == OutOfBounds::OutOfBounds);
    }
}

/// An alive cell with fewer than two alive neighbours is not alive in the
/// next generation.
pub proof fn lemma_isolated_cell_dies(height: int, width: int, alive: Set<(usize, usize)>, p: (usize, usize))
    requires
        in_bounds(height, width, p),
        alive.contains(p),
        neighbours(dense_of(height, width, alive), p.0 - 1, p.1 - 1) < 2,
    ensures
        !next_generation(height, width, alive).contains(p),
{
    let g = dense_of(height, width, alive);
    assert(g[p.0 - 1][p.1 - 1]);
}

/// A dead cell with exactly three alive neighbours is alive in the next
/// generation.
pub proof fn lemma_three_neighbours_give_birth(
    height: int,
    width: int,
    alive: Set<(usize, usize)>,
    p: (usize, usize),
)
    requires
        in_bounds(height, width, p),
        !alive.contains(p),
        neighbours(dense_of(height, width, alive), p.0 - 1, p.1 - 1) == 3,
    ensures
        next_generation(height, width, alive).contains(p),
{
    let g = dense_of(height, width, alive);
    assert(!g[p.0 - 1][p.1 - 1]);
}

} // verus!
