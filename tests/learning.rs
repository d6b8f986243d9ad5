use gridlearn::{
    episode_step, extract_path, extract_path_within, learn_step, run_episode, td_update, train, Cell, Grid,
    PolicyError, TrainConfig, TrainError, ValueTable, DOWN, LEFT, RIGHT, SCALE, UP,
};
use rand::rngs::StdRng;
use rand::SeedableRng;

fn corner_grid(size: usize, hazards: &[usize]) -> Grid {
    let mut cells = vec![Cell::Free; size * size];
    for h in hazards {
        cells[*h] = Cell::Hazard;
    }
    cells[0] = Cell::Start;
    cells[size * size - 1] = Cell::Goal;
    Grid::new(size, cells).unwrap()
}

fn config(episodes: usize) -> TrainConfig {
    TrainConfig { episodes, ..TrainConfig::standard() }
}

#[test]
fn standard_config_values() {
    let c = TrainConfig::standard();
    assert!(c.is_valid());
    assert_eq!((c.alpha_num, c.alpha_den), (1, 10));
    assert_eq!((c.gamma_num, c.gamma_den), (99, 100));
    assert_eq!((c.epsilon_num, c.epsilon_den), (1, 10));
    assert!(!TrainConfig { alpha_num: 0, ..c }.is_valid());
    assert!(!TrainConfig { gamma_num: 101, ..c }.is_valid());
    assert!(!TrainConfig { epsilon_den: 0, ..c }.is_valid());
}

#[test]
fn td_update_exact_values() {
    let c = TrainConfig::standard();
    // target = -1 unit, alpha = 0.1
    assert_eq!(td_update(0, -1, 0, &c), -SCALE / 10);
    // target = 100 units
    assert_eq!(td_update(0, 100, 0, &c), 10 * SCALE);
    // target = -1 unit + 0.99 * 50 units = 48.5 units
    assert_eq!(td_update(0, -1, 50 * SCALE, &c), 4_850_000);
    // from 10 units toward 48.5: 10 + 3.85
    assert_eq!(td_update(10 * SCALE, -1, 50 * SCALE, &c), 13_850_000);
    // rounding toward zero: 0.99 * 7 = 6.93 -> 6, 0.1 * 6 -> 0
    assert_eq!(td_update(0, 0, 7, &c), 0);
    assert_eq!(td_update(0, 0, -7, &c), 0);
    assert_eq!(td_update(100, 0, 0, &c), 90);
    assert_eq!(td_update(-100, 0, 0, &c), -90);
}

#[test]
fn td_update_contracts_toward_target() {
    let c = TrainConfig::standard();
    let target = 100 * SCALE;
    for q_old in [-3 * SCALE, 0, 7 * SCALE, 250 * SCALE] {
        let q_new = td_update(q_old, 100, 0, &c);
        assert_eq!(10 * (q_new - target).abs(), 9 * (q_old - target).abs());
    }
}

#[test]
fn learn_step_updates_one_estimate() {
    let g = corner_grid(3, &[1]);
    let c = TrainConfig::standard();
    let mut t = ValueTable::new(9);
    let next = learn_step(&mut t, &g, &c, 0, RIGHT);
    assert_eq!(next, 1);
    assert_eq!(t.estimate(0, RIGHT), -10 * SCALE);
    assert_eq!(t.estimate(0, UP), 0);
    t.update(5, UP, 20 * SCALE);
    let next = learn_step(&mut t, &g, &c, 4, RIGHT);
    assert_eq!(next, 5);
    // -1 + 0.99 * 20 = 18.8 units; a tenth of that
    assert_eq!(t.estimate(4, RIGHT), 1_880_000);
}

#[test]
fn best_action_ties_go_to_lowest_index() {
    let mut t = ValueTable::new(2);
    assert_eq!(t.best_action(0), UP);
    assert_eq!(t.max_estimate(0), 0);
    t.update(1, LEFT, 5);
    t.update(1, RIGHT, 5);
    assert_eq!(t.best_action(1), LEFT);
    assert_eq!(t.max_estimate(1), 5);
    t.update(1, DOWN, 6);
    assert_eq!(t.best_action(1), DOWN);
    t.update(0, UP, -3);
    assert_eq!(t.best_action(0), DOWN);
    assert_eq!(t.max_estimate(0), 0);
}

#[test]
fn no_episodes_leaves_table_zero() {
    let g = corner_grid(3, &[]);
    let mut rng = StdRng::seed_from_u64(1);
    let t = train(&g, &config(0), &mut rng).unwrap();
    assert_eq!(t.values.len(), 36);
    assert!(t.values.iter().all(|v| *v == 0));
}

#[test]
fn episode_step_cap_is_reported() {
    let g = corner_grid(3, &[]);
    let mut rng = StdRng::seed_from_u64(2);
    let cfg = TrainConfig { max_episode_steps: 3, ..config(5) };
    assert_eq!(
        train(&g, &cfg, &mut rng).unwrap_err(),
        TrainError::EpisodeStepLimit { episode: 0 }
    );
    let mut t = ValueTable::new(9);
    assert_eq!(run_episode(&mut t, &g, &cfg, &mut rng), None);
}

#[test]
fn episode_counts_moves() {
    let g = corner_grid(3, &[]);
    let mut rng = StdRng::seed_from_u64(3);
    let mut t = ValueTable::new(9);
    let k = run_episode(&mut t, &g, &config(1), &mut rng).unwrap();
    assert!(k >= 4);
}

#[test]
fn open_grid_learns_shortest_path() {
    let g = corner_grid(3, &[]);
    for seed in 0..5u64 {
        let mut rng = StdRng::seed_from_u64(seed);
        let t = train(&g, &config(500), &mut rng).unwrap();
        let path = extract_path(&t, &g).unwrap();
        assert_eq!(path.len() - 1, 4);
        assert_eq!(path[0], (0, 0));
        assert_eq!(path[4], (2, 2));
        for w in path.windows(2) {
            let dr = w[0].0.abs_diff(w[1].0);
            let dc = w[0].1.abs_diff(w[1].1);
            assert_eq!(dr + dc, 1);
        }
    }
}

#[test]
fn learned_path_on_larger_grid_reaches_goal() {
    let g = corner_grid(6, &[1, 7, 14, 21, 28]);
    let mut rng = StdRng::seed_from_u64(11);
    let t = train(&g, &config(2000), &mut rng).unwrap();
    let path = extract_path(&t, &g).unwrap();
    assert_eq!(path[0], (0, 0));
    assert_eq!(*path.last().unwrap(), (5, 5));
    assert!(path.len() - 1 >= 10);
}

#[test]
fn walled_in_start_ends_by_budget() {
    // both neighbours of the start are hazards; the table is untrained
    let g = corner_grid(3, &[1, 3]);
    let t = ValueTable::new(9);
    assert_eq!(extract_path(&t, &g).unwrap_err(), PolicyError::NoPathWithinBudget);
    assert_eq!(
        extract_path_within(&t, &g, 1000).unwrap_err(),
        PolicyError::NoPathWithinBudget
    );
}

#[test]
fn hand_built_table_gives_its_path() {
    let g = corner_grid(3, &[]);
    let mut t = ValueTable::new(9);
    t.update(0, RIGHT, 1);
    t.update(1, DOWN, 1);
    t.update(4, DOWN, 1);
    t.update(7, RIGHT, 1);
    let path = extract_path(&t, &g).unwrap();
    assert_eq!(path, vec![(0, 0), (0, 1), (1, 1), (2, 1), (2, 2)]);
    assert_eq!(
        extract_path_within(&t, &g, 3).unwrap_err(),
        PolicyError::NoPathWithinBudget
    );
    assert_eq!(extract_path_within(&t, &g, 4).unwrap(), path);
}

#[test]
fn cycling_table_ends_by_budget() {
    let g = corner_grid(3, &[]);
    let mut t = ValueTable::new(9);
    t.update(0, RIGHT, 1);
    t.update(1, LEFT, 1);
    assert_eq!(extract_path(&t, &g).unwrap_err(), PolicyError::NoPathWithinBudget);
}

#[test]
fn episode_step_explores_or_exploits() {
    let g = corner_grid(3, &[]);
    let c = TrainConfig::standard();
    let mut t = ValueTable::new(9);
    t.update(4, LEFT, 3 * SCALE);
    // exploiting ignores the drawn action and takes the greedy one
    let next = episode_step(&mut t, &g, &c, 4, false, RIGHT);
    assert_eq!(next, 3);
    // 3 + 0.1 * (-1 - 3) = 2.6 units
    assert_eq!(t.estimate(4, LEFT), 2_600_000);
    assert_eq!(t.estimate(4, RIGHT), 0);
    // exploring takes the drawn action
    let next = episode_step(&mut t, &g, &c, 4, true, RIGHT);
    assert_eq!(next, 5);
    assert_eq!(t.estimate(4, RIGHT), -SCALE / 10);
    assert_eq!(t.estimate(4, LEFT), 2_600_000);
}

#[test]
fn greedy_training_is_repeatable() {
    let g = corner_grid(4, &[5, 6]);
    let cfg = TrainConfig { epsilon_num: 0, ..config(50) };
    let a = train(&g, &cfg, &mut StdRng::seed_from_u64(1)).unwrap();
    let b = train(&g, &cfg, &mut StdRng::seed_from_u64(99)).unwrap();
    assert_eq!(a.values, b.values);
}
