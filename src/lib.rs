//! Tabular Q-learning on a deterministic grid world: the environment model,
//! the value table, the training loop and greedy-path extraction.

pub mod grid;
pub mod policy;
mod random;
pub mod table;
pub mod trainer;

pub use grid::{
    coord_to_state, get_next_state_and_reward, grid_from_draws, random_grid, state_to_coord, Cell, Grid,
    GridError, Rewards, DOWN, LEFT, NUM_ACTIONS, RIGHT, UP,
};
pub use policy::{extract_path, extract_path_within, PolicyError};
pub use table::{ValueTable, Q_LIMIT, SCALE};
pub use trainer::{episode_step, learn_step, run_episode, td_update, train, TrainConfig, TrainError};
