//! The dense grid and the conversions between it and a list of alive cells.
use vstd::prelude::*;

verus! {

/// The only error the library reports: a dimension is zero, or a
/// coordinate lies outside `[1, height] x [1, width]`.
#[derive(Debug, Clone, Copy, PartialEq, Eq, Structural)]
pub enum OutOfBounds {
    OutOfBounds,
}

/// The mathematical view of a dense grid: one sequence per row.
pub open spec fn grid_view(g: Vec<Vec<bool>>) -> Seq<Seq<bool>> {
    Seq::new(g@.len(), |i: int| g@[i]@)
}

/// Every row of `g` has `width` cells.
pub open spec fn rectangular(g: Seq<Seq<bool>>, width: int) -> bool {
    forall|i: int| 0 <= i < g.len() ==> (#[trigger] g[i]).len() == width
}

/// A 1-indexed coordinate lies on a `height x width` grid.
pub open spec fn in_bounds(height: int, width: int, p: (usize, usize)) -> bool {
    1 <= p.0 <= height && 1 <= p.1 <= width
}

/// The 1-indexed cell `p` is alive in the dense grid `g`.
pub open spec fn marked(g: Seq<Seq<bool>>, p: (usize, usize)) -> bool {
    1 <= p.0 <= g.len() && 1 <= p.1 <= g[p.0 - 1].len() && g[p.0 - 1][p.1 - 1]
}

/// Dimensions are positive and every listed coordinate lies on the grid.
pub open spec fn valid_input(height: int, width: int, cells: Seq<(usize, usize)>) -> bool {
    &&& height >= 1
    &&& width >= 1
    &&& forall|k: int| 0 <= k < cells.len() ==> in_bounds(height, width, #[trigger] cells[k])
}

/// The dense `height x width` grid of an alive set of 1-indexed cells: row
/// `i`, column `j` holds whether `(i + 1, j + 1)` is alive.
pub open spec fn dense_of(height: int, width: int, alive: Set<(usize, usize)>) -> Seq<Seq<bool>> {
    Seq::new(
        height as nat,
        |i: int| Seq::new(width as nat, |j: int| alive.contains(((i + 1) as usize, (j + 1) as usize))),
    )
}

/// Builds the dense `height x width` grid in which exactly the listed cells
/// are alive. Fails when a dimension is zero or a coordinate is off the grid.
pub fn to_dense(height: usize, width: usize, cells: &Vec<(usize, usize)>) -> (r: Result<
    Vec<Vec<bool>>,
    OutOfBounds,
>)
    ensures
        r is Err <==> !valid_input(height as int, width as int, cells@),
        r matches Ok(grid) ==> grid_view(grid) == dense_of(height as int, width as int, cells@.to_set()),
{
    if height == 0 || width == 0 {
        return Err(OutOfBounds::OutOfBounds);
    }
    let mut k: usize = 0;
    while k < cells.len()
        invariant
            0 <= k <= cells@.len(),
            forall|m: int| 0 <= m < k ==> in_bounds(height as int, width as int, #[trigger] cells@[m]),
        decreases cells@.len() - k,
    {
        let (x, y) = cells[k];
        if x < 1 || x > height || y < 1 || y > width {
            assert(!in_bounds(height as int, width as int, cells@[k as int]));
            return Err(OutOfBounds::OutOfBounds);
        }
        k = k + 1;
    }
    let ghost alive = cells@.to_set();
    let mut grid: Vec<Vec<bool>> = Vec::new();
    let mut x: usize = 0;
    while x < height
        invariant
            0 <= x <= height,
            grid@.len() == x,
            alive == cells@.to_set(),
            forall|m: int| 0 <= m < cells@.len() ==> in_bounds(height as int, width as int, #[trigger] cells@[m]),
            forall|i: int| 0 <= i < x ==> (#[trigger] grid@[i])@.len() == width,
            forall|i: int, j: int|
                0 <= i < x && 0 <= j < width ==> grid@[i]@[j] == alive.contains(
                    ((i + 1) as usize, (j + 1) as usize),
                ),
        decreases height - x,
    {
        let mut row: Vec<bool> = Vec::new();
        let mut y: usize = 0;
        while y < width
            invariant
                0 <= y <= width,
                row@.len() == y,
                forall|j: int| 0 <= j < y ==> !(#[trigger] row@[j]),
            decreases width - y,
        {
            row.push(false);
            y = y + 1;
        }
        let mut k: usize = 0;
        while k < cells.len()
            invariant
                0 <= x < height,
                0 <= k <= cells@.len(),
                row@.len() == width,
                forall|m: int| 0 <= m < cells@.len() ==> in_bounds(height as int, width as int, #[trigger] cells@[m]),
                forall|j: int|
                    0 <= j < width ==> (#[trigger] row@[j] <==> cells@.subrange(0, k as int).contains(
                        ((x + 1) as usize, (j + 1) as usize),
                    )),
            decreases cells@.len() - k,
        {
            let (cx, cy) = cells[k];
            let ghost before = row@;
            if cx == x + 1 {
                row.set(cy - 1, true);
            }
            proof {
                let done = cells@.subrange(0, k as int);
                let next = cells@.subrange(0, k + 1);
                assert(next == done.push(cells@[k as int]));
                assert forall|j: int| 0 <= j < width implies (#[trigger] row@[j] <==> next.contains(
                    ((x + 1) as usize, (j + 1) as usize),
                )) by {
                    let p: (usize, usize) = ((x + 1) as usize, (j + 1) as usize);
                    if done.contains(p) {
                        let m = choose|m: int| 0 <= m < done.len() && done[m] == p;
                        assert(next[m] == p);
                    }
                    if next.contains(p) && !done.contains(p) {
                        let m = choose|m: int| 0 <= m < next.len() && next[m] == p;
                        if m < done.len() {
                            assert(done[m] == p);
                        }
                    }
                    if cells@[k as int] == p {
                        assert(next[k as int] == p);
                    }
                }
            }
            k = k + 1;
        }
        assert(cells@.subrange(0, cells@.len() as int) == cells@);
        let ghost old_grid = grid@;
        grid.push(row);
        proof {
            assert forall|i: int, j: int|
                0 <= i <= x && 0 <= j < width implies grid@[i]@[j] == alive.contains(
                ((i + 1) as usize, (j + 1) as usize),
            ) by {
                if i < x {
                    assert(grid@[i] == old_grid[i]);
                } else {
                    assert(grid@[i]@[j] == row@[j]);
                    assert(row@[j] == cells@.contains(((i + 1) as usize, (j + 1) as usize)));
                }
            }
        }
        x = x + 1;
    }
    let ghost want = dense_of(height as int, width as int, alive);
    assert(grid_view(grid) =~= want) by {
        assert forall|i: int| 0 <= i < height implies grid_view(grid)[i] =~= #[trigger] want[i] by {
            assert(grid@[i]@.len() == width);
        }
    }
    Ok(grid)
}

/// Lists the 1-indexed coordinates of the alive cells of `grid`, each once,
/// row by row.
pub fn to_sparse(grid: &Vec<Vec<bool>>) -> (cells: Vec<(usize, usize)>)
    ensures
        cells@.no_duplicates(),
        forall|p: (usize, usize)| cells@.contains(p) <==> marked(grid_view(*grid), p),
{
    let mut cells: Vec<(usize, usize)> = Vec::new();
    let mut x: usize = 0;
    while x < grid.len()
        invariant
            0 <= x <= grid@.len(),
            cells@.no_duplicates(),
            forall|p: (usize, usize)|
                cells@.contains(p) <==> (p.0 <= x && marked(grid_view(*grid), p)),
        decreases grid@.len() - x,
    {
        let row = &grid[x];
        let mut y: usize = 0;
        while y < row.len()
            invariant
                x < grid.len(),
                row == &grid@[x as int],
                0 <= y <= row@.len(),
                cells@.no_duplicates(),
                forall|p: (usize, usize)|
                    cells@.contains(p) <==> (marked(grid_view(*grid), p) && (p.0 <= x || (p.0
                        == x + 1 && p.1 <= y))),
            decreases row@.len() - y,
        {
            if row[y] {
                let cell: (usize, usize) = (x + 1, y + 1);
                let ghost before = cells@;
                assert(!before.contains(cell));
                cells.push(cell);
                proof {
                    assert(cells@ == before.push(cell));
                    assert(grid_view(*grid)[x as int] == row@);
                    assert forall|p: (usize, usize)|
                        cells@.contains(p) <==> (marked(grid_view(*grid), p) && (p.0 <= x || (
                        p.0 == x + 1 && p.1 <= y + 1))) by {
                        if p.0 == x + 1 && p.1 == y + 1 {
                            assert(cells@[before.len() as int] == p);
                            assert(marked(grid_view(*grid), p));
                        } else if cells@.contains(p) {
                            let k = choose|k: int| 0 <= k < cells@.len() && cells@[k] == p;
                            assert(k < before.len());
                            assert(before[k] == p);
                            assert(before.contains(p));
                        } else if before.contains(p) {
                            let k = choose|k: int| 0 <= k < before.len() && before[k] == p;
                            assert(cells@[k] == p);
                        }
                    }
                }
            }
            y = y + 1;
        }
        x = x + 1;
    }
    cells
}

} // verus!
