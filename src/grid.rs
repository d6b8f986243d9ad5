use vstd::arithmetic::div_mod::{lemma_fundamental_div_mod, lemma_fundamental_div_mod_converse};
use crate::random::draw_ratio;
use rand::rngs::StdRng;
use vstd::prelude::*;

verus! {

/// Action indices, used to address a state's row of the value table.
pub const UP: usize = 0;
pub const DOWN: usize = 1;
pub const LEFT: usize = 2;
pub const RIGHT: usize = 3;
pub const NUM_ACTIONS: usize = 4;

/// Largest magnitude a reward may have.
pub const REWARD_LIMIT: i64 = 1_000_000;

#[derive(Clone, Copy, Debug, PartialEq, Eq, Structural)]
pub enum Cell {
    Free,
    Hazard,
    Start,
    Goal,
}

/// Reward for entering a cell, by the kind of that cell.
#[derive(Clone, Copy, Debug, PartialEq, Eq, Structural)]
pub struct Rewards {
    pub hazard: i64,
    pub goal: i64,
    pub step: i64,
}

#[derive(Clone, Copy, Debug, PartialEq, Eq, Structural)]
pub enum GridError {
    /// The side is zero, or the cell count is not side * side.
    BadShape,
    /// There is not exactly one Start cell.
    StartCount,
    /// There is not exactly one Goal cell.
    GoalCount,
}

/// A square grid, stored row by row; state `row * size + col` is the cell
/// at (row, col).
#[derive(Debug)]
pub struct Grid {
    pub size: usize,
    pub cells: Vec<Cell>,
    pub start: usize,
    pub goal: usize,
    pub rewards: Rewards,
}

pub open spec fn coord_of(n: nat, s: nat) -> (nat, nat) {
    (s / n, s % n)
}

pub open spec fn state_of(n: nat, r: nat, c: nat) -> nat {
    r * n + c
}

/// The coordinate reached by `action` from (r, c), clamped to the grid.
pub open spec fn moved(n: nat, r: nat, c: nat, action: nat) -> (nat, nat) {
    if action == UP {
        (if r == 0 { 0 } else { (r - 1) as nat }, c)
    } else if action == DOWN {
        (if r + 1 < n { r + 1 } else { r }, c)
    } else if action == LEFT {
        (r, if c == 0 { 0 } else { (c - 1) as nat })
    } else {
        (r, if c + 1 < n { c + 1 } else { c })
    }
}

/// Exactly one cell of `cells` is of kind `k`, and it is at `p`.
pub open spec fn only_at(cells: Seq<Cell>, k: Cell, p: int) -> bool {
    &&& 0 <= p < cells.len()
    &&& cells[p] == k
    &&& forall|j: int| 0 <= j < cells.len() && j != p ==> cells[j] != k
}

/// A positive side whose square fits in `usize` and equals the cell count.
pub open spec fn shape_ok(size: nat, len: nat) -> bool {
    0 < size && size * size <= usize::MAX && len == size * size
}

pub open spec fn has_exactly_one(cells: Seq<Cell>, k: Cell) -> bool {
    exists|p: int| only_at(cells, k, p)
}

/// -100 for entering a hazard, +100 for the goal, -1 for any other cell.
pub open spec fn standard_rewards() -> Rewards {
    Rewards { hazard: -100i64, goal: 100i64, step: -1i64 }
}

impl Rewards {
    pub open spec fn wf(&self) -> bool {
        &&& -REWARD_LIMIT <= self.hazard <= REWARD_LIMIT
        &&& -REWARD_LIMIT <= self.goal <= REWARD_LIMIT
        &&& -REWARD_LIMIT <= self.step <= REWARD_LIMIT
    }

    pub open spec fn of(&self, k: Cell) -> i64 {
        match k {
            Cell::Hazard => self.hazard,
            Cell::Goal => self.goal,
            _ => self.step,
        }
    }

    /// The default scheme: -100 for a hazard, +100 for the goal, -1 otherwise.
    pub fn standard() -> (r: Rewards)
        ensures
            r == standard_rewards(),
            r.wf(),
    {
        Rewards { hazard: -100, goal: 100, step: -1 }
    }
}

impl Grid {
    pub open spec fn n(&self) -> nat {
        self.size as nat
    }

    pub open spec fn num_states(&self) -> nat {
        self.n() * self.n()
    }

    pub open spec fn wf(&self) -> bool {
        &&& self.size > 0
        &&& self.size * self.size <= usize::MAX
        &&& self.cells@.len() == self.num_states()
        &&& only_at(self.cells@, Cell::Start, self.start as int)
        &&& only_at(self.cells@, Cell::Goal, self.goal as int)
        &&& self.rewards.wf()
    }

    pub open spec fn kind(&self, s: nat) -> Cell {
        self.cells@[s as int]
    }

    /// The state reached by taking `action` in state `s`.
    pub open spec fn next_state(&self, s: nat, action: nat) -> nat {
        let (r, c) = coord_of(self.n(), s);
        let (r2, c2) = moved(self.n(), r, c, action);
        state_of(self.n(), r2, c2)
    }

    /// The reward for entering state `s`.
    pub open spec fn reward_at(&self, s: nat) -> i64 {
        self.rewards.of(self.kind(s))
    }

    /// Builds a grid with the standard rewards from `size * size` cells given
    /// row by row.
    pub fn new(size: usize, cells: Vec<Cell>) -> (r: Result<Grid, GridError>)
        ensures
            r matches Ok(g) ==> g.wf() && g.size == size && g.cells@ == cells@
                && g.rewards == standard_rewards(),
            r is Ok <==> shape_ok(size as nat, cells@.len()) && has_exactly_one(cells@, Cell::Start)
                && has_exactly_one(cells@, Cell::Goal),
            r == Err::<Grid, GridError>(GridError::BadShape) <==> !shape_ok(
                size as nat,
                cells@.len(),
            ),
            r == Err::<Grid, GridError>(GridError::StartCount) <==> shape_ok(
                size as nat,
                cells@.len(),
            ) && !has_exactly_one(cells@, Cell::Start),
            r == Err::<Grid, GridError>(GridError::GoalCount) <==> shape_ok(
                size as nat,
                cells@.len(),
            ) && has_exactly_one(cells@, Cell::Start) && !has_exactly_one(cells@, Cell::Goal),
    {
        Grid::with_rewards(size, cells, Rewards::standard())
    }

    /// Builds a grid with the given reward scheme.
    pub fn with_rewards(size: usize, cells: Vec<Cell>, rewards: Rewards) -> (r: Result<Grid, GridError>)
        requires
            rewards.wf(),
        ensures
            r matches Ok(g) ==> g.wf() && g.size == size && g.cells@ == cells@ && g.rewards
                == rewards,
            r is Ok <==> shape_ok(size as nat, cells@.len()) && has_exactly_one(cells@, Cell::Start)
                && has_exactly_one(cells@, Cell::Goal),
            r == Err::<Grid, GridError>(GridError::BadShape) <==> !shape_ok(
                size as nat,
                cells@.len(),
            ),
            r == Err::<Grid, GridError>(GridError::StartCount) <==> shape_ok(
                size as nat,
                cells@.len(),
            ) && !has_exactly_one(cells@, Cell::Start),
            r == Err::<Grid, GridError>(GridError::GoalCount) <==> shape_ok(
                size as nat,
                cells@.len(),
            ) && has_exactly_one(cells@, Cell::Start) && !has_exactly_one(cells@, Cell::Goal),
    {
        if size == 0 {
            return Err(GridError::BadShape);
        }
        let area = match size.checked_mul(size) {
            Some(a) => a,
            None => return Err(GridError::BadShape),
        };
        if cells.len() != area {
            return Err(GridError::BadShape);
        }
        let start = match find_only(&cells, Cell::Start) {
            Some(p) => p,
            None => return Err(GridError::StartCount),
        };
        let goal = match find_only(&cells, Cell::Goal) {
            Some(p) => p,
            None => return Err(GridError::GoalCount),
        };
        Ok(Grid { size, cells, start, goal, rewards })
    }
}

/// The position of the one cell of kind `k`, or `None` where there is no such
/// cell or more than one.
fn find_only(cells: &Vec<Cell>, k: Cell) -> (r: Option<usize>)
    ensures
        r matches Some(p) ==> only_at(cells@, k, p as int),
        r is Some <==> has_exactly_one(cells@, k),
{
    let mut found: Option<usize> = None;
    let mut i: usize = 0;
    while i < cells.len()
        invariant
            i <= cells@.len(),
            found matches Some(p) ==> p < i && cells@[p as int] == k && forall|j: int|
                0 <= j < i && j != p ==> cells@[j] != k,
            found is None ==> forall|j: int| 0 <= j < i ==> cells@[j] != k,
        decreases cells@.len() - i,
    {
        if cells[i] == k {
            match found {
                Some(p) => {
                    assert(!has_exactly_one(cells@, k)) by {
                        if exists|q: int| only_at(cells@, k, q) {
                            let q = choose|q: int| only_at(cells@, k, q);
                            assert(cells@[p as int] == k);
                            assert(cells@[i as int] == k);
                        }
                    }
                    return None;
                },
                None => {
                    found = Some(i);
                },
            }
        }
        i = i + 1;
    }
    match found {
        Some(p) => {
            assert(only_at(cells@, k, p as int));
            Some(p)
        },
        None => {
            assert(!has_exactly_one(cells@, k));
            None
        },
    }
}

/// The (row, col) of a state on a grid of side `size`.
pub fn state_to_coord(state: usize, size: usize) -> (r: (usize, usize))
    requires
        size > 0,
        state < size * size,
    ensures
        r.0 == state / size,
        r.1 == state % size,
        (r.0 as nat, r.1 as nat) == coord_of(size as nat, state as nat),
{
    (state / size, state % size)
}

/// The state of the cell at (x, y) on a grid of side `size`.
pub fn coord_to_state(x: usize, y: usize, size: usize) -> (r: usize)
    requires
        x < size,
        y < size,
        size * size <= usize::MAX,
    ensures
        r == state_of(size as nat, x as nat, y as nat),
        r < size * size,
{
    proof {
        assert(x * size + y < size * size) by (nonlinear_arith)
            requires
                x < size,
                y < size,
        ;
    }
    x * size + y
}

/// The next state and the reward for taking `action` in `state`: movement is
/// clamped at the edges, and the reward is that of the cell entered.
pub fn get_next_state_and_reward(state: usize, action: usize, gridworld: &Grid) -> (r: (
    usize,
    i64,
))
    requires
        gridworld.wf(),
        state < gridworld.num_states(),
        action < NUM_ACTIONS,
    ensures
        r.0 == gridworld.next_state(state as nat, action as nat),
        r.0 < gridworld.num_states(),
        r.1 == gridworld.reward_at(r.0 as nat),
{
    let n = gridworld.size;
    let (mut x, mut y) = state_to_coord(state, n);
    proof {
        assert(x < n) by (nonlinear_arith)
            requires
                x == state / n,
                state < n * n,
                n > 0,
        ;
    }
    if action == UP {
        x = x.saturating_sub(1);
    } else if action == DOWN {
        if x + 1 < n {
            x = x + 1;
        }
    } else if action == LEFT {
        y = y.saturating_sub(1);
    } else {
        if y + 1 < n {
            y = y + 1;
        }
    }
    let next = coord_to_state(x, y, n);
    let reward = match gridworld.cells[next] {
        Cell::Hazard => gridworld.rewards.hazard,
        Cell::Goal => gridworld.rewards.goal,
        _ => gridworld.rewards.step,
    };
    (next, reward)
}

/// A grid of side `size` with the standard rewards, the start in the top-left
/// corner, the goal in the bottom-right one, and between them, in row order,
/// a hazard for each `true` of `hazards` and a free cell for each `false`.
pub fn grid_from_draws(size: usize, hazards: &Vec<bool>) -> (r: Grid)
    requires
        size >= 2,
        size * size <= usize::MAX,
        hazards@.len() == size * size - 2,
    ensures
        r.wf(),
        r.size == size,
        r.start == 0,
        r.goal == size * size - 1,
        r.rewards == standard_rewards(),
        forall|i: int|
            0 < i < size * size - 1 ==> #[trigger] r.cells@[i] == (if hazards@[i - 1] {
                Cell::Hazard
            } else {
                Cell::Free
            }),
{
    let area = size * size;
    assert(area >= 4) by (nonlinear_arith)
        requires
            size >= 2,
            area == size * size,
    ;
    let mut cells: Vec<Cell> = Vec::new();
    cells.push(Cell::Start);
    let mut i: usize = 1;
    while i < area - 1
        invariant
            1 <= i <= area - 1,
            area >= 4,
            hazards@.len() == area - 2,
            cells@.len() == i,
            cells@[0] == Cell::Start,
            forall|j: int|
                0 < j < i ==> #[trigger] cells@[j] == (if hazards@[j - 1] {
                    Cell::Hazard
                } else {
                    Cell::Free
                }),
        decreases area - 1 - i,
    {
        if hazards[i - 1] {
            cells.push(Cell::Hazard);
        } else {
            cells.push(Cell::Free);
        }
        i = i + 1;
    }
    cells.push(Cell::Goal);
    Grid { size, cells, start: 0, goal: area - 1, rewards: Rewards::standard() }
}

/// A grid as `grid_from_draws` builds it, each cell between the start and the
/// goal a hazard with chance `hazard_num / hazard_den`, else free.
pub fn random_grid(size: usize, hazard_num: u32, hazard_den: u32, rng: &mut StdRng) -> (r: Grid)
    requires
        size >= 2,
        size * size <= usize::MAX,
        0 < hazard_den,
        hazard_num <= hazard_den,
    ensures
        exists|hazards: Seq<bool>|
            hazards.len() == size * size - 2 && forall|i: int|
                0 < i < size * size - 1 ==> #[trigger] r.cells@[i] == (if hazards[i - 1] {
                    Cell::Hazard
                } else {
                    Cell::Free
                }),
        r.wf(),
        r.size == size,
        r.start == 0,
        r.goal == size * size - 1,
        r.rewards == standard_rewards(),
        hazard_num == 0 ==> forall|i: int|
            0 < i < size * size - 1 ==> #[trigger] r.cells@[i] == Cell::Free,
        hazard_num == hazard_den ==> forall|i: int|
            0 < i < size * size - 1 ==> #[trigger] r.cells@[i] == Cell::Hazard,
{
    let area = size * size;
    assert(area >= 4) by (nonlinear_arith)
        requires
            size >= 2,
            area == size * size,
    ;
    let mut hazards: Vec<bool> = Vec::new();
    let mut i: usize = 0;
    while i < area - 2
        invariant
            i <= area - 2,
            area >= 4,
            hazards@.len() == i,
            0 < hazard_den,
            hazard_num <= hazard_den,
            hazard_num == 0 ==> forall|j: int| 0 <= j < i ==> !#[trigger] hazards@[j],
            hazard_num == hazard_den ==> forall|j: int| 0 <= j < i ==> #[trigger] hazards@[j],
        decreases area - 2 - i,
    {
        hazards.push(draw_ratio(rng, hazard_num, hazard_den));
        i = i + 1;
    }
    let r = grid_from_draws(size, &hazards);
    proof {
        assert(forall|i: int|
            0 < i < size * size - 1 ==> #[trigger] r.cells@[i] == (if hazards@[i - 1] {
                Cell::Hazard
            } else {
                Cell::Free
            }));
    }
    r
}

/// Every coordinate inside the grid maps to a state that maps back to it.
pub proof fn lemma_coord_round_trip(n: nat, r: nat, c: nat)
    requires
        r < n,
        c < n,
    ensures
        coord_of(n, state_of(n, r, c)) == (r, c),
        state_of(n, r, c) < n * n,
{
    lemma_fundamental_div_mod_converse((r * n + c) as int, n as int, r as int, c as int);
    assert(r * n + c < n * n) by (nonlinear_arith)
        requires
            r < n,
            c < n,
    ;
}

/// Distinct cells of the grid never share a state.
pub proof fn lemma_state_of_injective(n: nat, r1: nat, c1: nat, r2: nat, c2: nat)
    requires
        r1 < n,
        c1 < n,
        r2 < n,
        c2 < n,
        (r1, c1) != (r2, c2),
    ensures
        state_of(n, r1, c1) != state_of(n, r2, c2),
{
    lemma_coord_round_trip(n, r1, c1);
    lemma_coord_round_trip(n, r2, c2);
}

/// Every state of the grid maps to a coordinate inside it that maps back to
/// the same state.
pub proof fn lemma_state_round_trip(n: nat, s: nat)
    requires
        n > 0,
        s < n * n,
    ensures
        coord_of(n, s).0 < n,
        coord_of(n, s).1 < n,
        state_of(n, coord_of(n, s).0, coord_of(n, s).1) == s,
{
    lemma_fundamental_div_mod(s as int, n as int);
    assert(s / n < n) by (nonlinear_arith)
        requires
            n > 0,
            s < n * n,
    ;
    assert((s / n) * n == n * (s / n)) by (nonlinear_arith);
}

/// Moving up from the top row leaves the row at zero and the column as it was:
/// the move is clamped, never wrapped.
pub proof fn lemma_up_clamped_at_top(g: Grid, s: nat)
    requires
        g.wf(),
        s < g.num_states(),
        coord_of(g.n(), s).0 == 0,
    ensures
        coord_of(g.n(), g.next_state(s, UP as nat)) == coord_of(g.n(), s),
        g.next_state(s, UP as nat) == s,
        g.next_state(0, UP as nat) == 0,
{
    lemma_state_round_trip(g.n(), s);
    lemma_coord_round_trip(g.n(), 0, 0);
}

/// Under the standard rewards, entering a hazard gives exactly -100, entering
/// the goal exactly +100, and entering any other cell exactly -1.
pub proof fn lemma_standard_reward_policy(g: Grid, s: nat)
    requires
        g.wf(),
        g.rewards == standard_rewards(),
        s < g.num_states(),
    ensures
        g.kind(s) == Cell::Hazard ==> g.reward_at(s) == -100,
        g.kind(s) == Cell::Goal ==> g.reward_at(s) == 100,
        g.kind(s) != Cell::Hazard && g.kind(s) != Cell::Goal ==> g.reward_at(s) == -1,
{
}

} // verus!
