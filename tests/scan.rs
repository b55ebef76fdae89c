use cnys_game_of_life::game::{scan, State};

#[test]
fn find_underpopulation() {
    let cell_x = 1usize;
    let cell_y = 1usize;

    let mut grid = vec![vec![false; 5]; 5];
    grid[cell_x - 1][cell_y - 1] = true;
    grid[1][1] = true;

    let state = scan(&true, &cell_x, &cell_y, &grid);

    assert_eq!(state, State::Underpopulation, "State [{:?}] was expected to be [{:?}]", state, State::Underpopulation);
}

#[test]
fn find_alive() {
    let cell_x = 1usize;
    let cell_y = 1usize;

    let mut grid = vec![vec![false; 5]; 5];
    grid[cell_x - 1][cell_y - 1] = true;
    grid[0][1] = true;
    grid[1][1] = true;
    grid[1][0] = true;

    let state = scan(&true, &cell_x, &cell_y, &grid);

    assert_eq!(state, State::Alive, "State [{:?}] was expected to be [{:?}]", state, State::Alive);
}

#[test]
fn find_overpopulation() {
    let cell_x = 2usize;
    let cell_y = 2usize;

    let mut grid = vec![vec![false; 5]; 5];
    grid[cell_x - 1][cell_y - 1] = true;
    grid[0][0] = true;
    grid[1][0] = true;
    grid[2][0] = true;
    grid[2][1] = true;

    // The window around (2, 2) spans rows and columns 1..=3: of the cells
    // set above only (1, 1) and (2, 1) lie in it, so the cell survives.
    let state = scan(&true, &cell_x, &cell_y, &grid);
    assert_eq!(state, State::Alive, "State [{:?}] was expected to be [{:?}]", state, State::Alive);

    // Seen from (1, 1), the same cells are four neighbours.
    let state = scan(&true, &1usize, &1usize, &grid);
    assert_eq!(state, State::Overpopulation, "State [{:?}] was expected to be [{:?}]", state, State::Overpopulation);
}

#[test]
fn find_reproduction() {
    let cell_x = 1usize;
    let cell_y = 1usize;

    let mut grid = vec![vec![false; 5]; 5];
    grid[1][2] = true;
    grid[2][2] = true;
    grid[2][1] = true;

    let state = scan(&false, &cell_x, &cell_y, &grid);

    assert_eq!(state, State::Reproduction, "State [{:?}] was expected to be [{:?}]", state, State::Reproduction);
}

#[test]
fn find_dead() {
    let cell_x = 1usize;
    let cell_y = 1usize;

    let grid = vec![vec![false; 5]; 5];

    let state = scan(&false, &cell_x, &cell_y, &grid);

    assert_eq!(state, State::Dead, "State [{:?}] was expected to be [{:?}]", state, State::Dead);
}

#[test]
fn full_neighbourhood_is_overpopulated() {
    let grid = vec![vec![true; 3]; 3];
    assert_eq!(scan(&true, &1usize, &1usize, &grid), State::Overpopulation);
    assert_eq!(scan(&false, &1usize, &1usize, &grid), State::Dead);
}

#[test]
fn corner_does_not_wrap() {
    let mut grid = vec![vec![false; 5]; 5];
    grid[0][0] = true;
    grid[0][1] = true;
    grid[1][0] = true;
    // Cells on the opposite edges: neighbours only if the grid wrapped.
    grid[4][0] = true;
    grid[0][4] = true;
    grid[4][4] = true;
    grid[4][1] = true;
    assert_eq!(scan(&true, &0usize, &0usize, &grid), State::Alive);
    assert_eq!(scan(&false, &0usize, &0usize, &grid), State::Dead);
}

#[test]
fn corner_of_non_square_grid() {
    // 2 rows of 4 columns; the far corner (1, 3) has three neighbours.
    let grid = vec![vec![false, false, true, true], vec![false, false, true, true]];
    assert_eq!(scan(&true, &1usize, &3usize, &grid), State::Alive);
    assert_eq!(scan(&true, &0usize, &2usize, &grid), State::Alive);
    assert_eq!(scan(&false, &0usize, &1usize, &grid), State::Dead);
    assert_eq!(scan(&false, &1usize, &1usize, &grid), State::Dead);
}

#[test]
fn survival_and_death_counts() {
    // Centre of a 3x3 grid with n neighbours alive, for each n.
    let order = [(0usize, 0usize), (0, 1), (0, 2), (1, 0), (1, 2), (2, 0), (2, 1), (2, 2)];
    let mut grid = vec![vec![false; 3]; 3];
    let alive_expect = [
        State::Underpopulation,
        State::Underpopulation,
        State::Alive,
        State::Alive,
        State::Overpopulation,
        State::Overpopulation,
        State::Overpopulation,
        State::Overpopulation,
        State::Overpopulation,
    ];
    let dead_expect = [
        State::Dead,
        State::Dead,
        State::Dead,
        State::Reproduction,
        State::Dead,
        State::Dead,
        State::Dead,
        State::Dead,
        State::Dead,
    ];
    for n in 0..=8usize {
        if n > 0 {
            let (i, j) = order[n - 1];
            grid[i][j] = true;
        }
        assert_eq!(scan(&true, &1usize, &1usize, &grid), alive_expect[n], "alive with {} neighbours", n);
        assert_eq!(scan(&false, &1usize, &1usize, &grid), dead_expect[n], "dead with {} neighbours", n);
    }
}

#[test]
fn state_labels() {
    assert_eq!(State::Alive.label(), "Alive");
    assert_eq!(State::Dead.label(), "Dead");
    assert_eq!(State::Underpopulation.label(), "Underpopulation");
    assert_eq!(State::Overpopulation.label(), "Overpopulation");
    assert_eq!(State::Reproduction.label(), "Reproduction");
}
