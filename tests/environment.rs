use gridlearn::{
    coord_to_state, get_next_state_and_reward, grid_from_draws, random_grid, state_to_coord, Cell, Grid,
    GridError, Rewards, DOWN, LEFT, RIGHT, UP,
};
use rand::rngs::StdRng;
use rand::SeedableRng;

fn open_grid(size: usize) -> Grid {
    let mut cells = vec![Cell::Free; size * size];
    cells[0] = Cell::Start;
    cells[size * size - 1] = Cell::Goal;
    Grid::new(size, cells).unwrap()
}

#[test]
fn coordinates_round_trip() {
    for size in [1usize, 3, 32] {
        for r in 0..size {
            for c in 0..size {
                let s = coord_to_state(r, c, size);
                assert_eq!(s, r * size + c);
                assert_eq!(state_to_coord(s, size), (r, c));
            }
        }
    }
    assert_eq!(state_to_coord(33, 32), (1, 1));
    assert_eq!(coord_to_state(31, 31, 32), 1023);
}

#[test]
fn step_is_repeatable() {
    let g = open_grid(4);
    for s in 0..16 {
        for a in 0..4 {
            assert_eq!(
                get_next_state_and_reward(s, a, &g),
                get_next_state_and_reward(s, a, &g)
            );
        }
    }
}

#[test]
fn up_from_top_left_is_clamped() {
    let g = open_grid(3);
    assert_eq!(get_next_state_and_reward(0, UP, &g), (0, -1));
    assert_eq!(get_next_state_and_reward(0, LEFT, &g), (0, -1));
    assert_eq!(get_next_state_and_reward(1, UP, &g), (1, -1));
}

#[test]
fn moves_and_edge_clamps() {
    let g = open_grid(3);
    assert_eq!(get_next_state_and_reward(4, UP, &g).0, 1);
    assert_eq!(get_next_state_and_reward(4, DOWN, &g).0, 7);
    assert_eq!(get_next_state_and_reward(4, LEFT, &g).0, 3);
    assert_eq!(get_next_state_and_reward(4, RIGHT, &g).0, 5);
    assert_eq!(get_next_state_and_reward(6, DOWN, &g).0, 6);
    assert_eq!(get_next_state_and_reward(2, RIGHT, &g).0, 2);
}

#[test]
fn reward_policy() {
    // S O -
    // - - -
    // - - G
    let mut cells = vec![Cell::Free; 9];
    cells[0] = Cell::Start;
    cells[1] = Cell::Hazard;
    cells[8] = Cell::Goal;
    let g = Grid::new(3, cells).unwrap();
    assert_eq!(get_next_state_and_reward(0, RIGHT, &g), (1, -100));
    assert_eq!(get_next_state_and_reward(7, RIGHT, &g), (8, 100));
    assert_eq!(get_next_state_and_reward(5, DOWN, &g), (8, 100));
    assert_eq!(get_next_state_and_reward(0, DOWN, &g), (3, -1));
    assert_eq!(get_next_state_and_reward(3, UP, &g), (0, -1));
}

#[test]
fn custom_rewards() {
    let mut cells = vec![Cell::Free; 4];
    cells[0] = Cell::Start;
    cells[1] = Cell::Hazard;
    cells[3] = Cell::Goal;
    let rewards = Rewards { hazard: -7, goal: 9, step: -2 };
    let g = Grid::with_rewards(2, cells, rewards).unwrap();
    assert_eq!(get_next_state_and_reward(0, RIGHT, &g), (1, -7));
    assert_eq!(get_next_state_and_reward(1, DOWN, &g), (3, 9));
    assert_eq!(get_next_state_and_reward(0, DOWN, &g), (2, -2));
}

#[test]
fn grid_rejects_bad_shapes_and_counts() {
    assert_eq!(Grid::new(0, vec![]).unwrap_err(), GridError::BadShape);
    assert_eq!(
        Grid::new(2, vec![Cell::Start, Cell::Goal, Cell::Free]).unwrap_err(),
        GridError::BadShape
    );
    assert_eq!(
        Grid::new(2, vec![Cell::Free, Cell::Goal, Cell::Free, Cell::Free]).unwrap_err(),
        GridError::StartCount
    );
    assert_eq!(
        Grid::new(2, vec![Cell::Start, Cell::Goal, Cell::Start, Cell::Free]).unwrap_err(),
        GridError::StartCount
    );
    assert_eq!(
        Grid::new(2, vec![Cell::Start, Cell::Free, Cell::Free, Cell::Free]).unwrap_err(),
        GridError::GoalCount
    );
    assert_eq!(
        Grid::new(2, vec![Cell::Start, Cell::Goal, Cell::Goal, Cell::Free]).unwrap_err(),
        GridError::GoalCount
    );
    let g = Grid::new(2, vec![Cell::Free, Cell::Goal, Cell::Start, Cell::Hazard]).unwrap();
    assert_eq!(g.start, 2);
    assert_eq!(g.goal, 1);
}

#[test]
fn random_grid_layout() {
    let mut rng = StdRng::seed_from_u64(7);
    let g = random_grid(5, 0, 10, &mut rng);
    assert_eq!(g.cells[0], Cell::Start);
    assert_eq!(g.cells[24], Cell::Goal);
    assert!(g.cells[1..24].iter().all(|c| *c == Cell::Free));

    let g = random_grid(5, 3, 3, &mut rng);
    assert!(g.cells[1..24].iter().all(|c| *c == Cell::Hazard));
    assert_eq!((g.start, g.goal), (0, 24));

    let g = random_grid(32, 1, 10, &mut rng);
    assert!(g.cells[1..1023]
        .iter()
        .all(|c| *c == Cell::Free || *c == Cell::Hazard));
    let hazards = g.cells.iter().filter(|c| **c == Cell::Hazard).count();
    assert!(hazards > 20 && hazards < 250);
}

#[test]
fn grid_from_draws_places_each_draw() {
    let g = grid_from_draws(3, &vec![true, false, false, true, false, false, true]);
    assert_eq!(
        g.cells,
        vec![
            Cell::Start,
            Cell::Hazard,
            Cell::Free,
            Cell::Free,
            Cell::Hazard,
            Cell::Free,
            Cell::Free,
            Cell::Hazard,
            Cell::Goal
        ]
    );
    assert_eq!((g.start, g.goal), (0, 8));
    assert_eq!(get_next_state_and_reward(0, RIGHT, &g), (1, -100));
}
