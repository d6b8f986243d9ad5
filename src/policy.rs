use crate::grid::{
    coord_of, get_next_state_and_reward, lemma_up_clamped_at_top, state_to_coord, Cell, Grid, UP,
};
use crate::table::ValueTable;
use vstd::prelude::*;

verus! {

#[derive(Clone, Copy, Debug, PartialEq, Eq, Structural)]
pub enum PolicyError {
    /// The greedy walk did not enter the goal within the step budget.
    NoPathWithinBudget,
}

/// The state the greedy policy moves to from `s`.
pub open spec fn greedy_next(table: ValueTable, grid: Grid, s: nat) -> nat {
    grid.next_state(s, table.best(s))
}

/// The state reached after `k` greedy moves from `s`.
pub open spec fn greedy_walk(table: ValueTable, grid: Grid, s: nat, k: nat) -> nat
    decreases k,
{
    if k == 0 {
        s
    } else {
        greedy_next(table, grid, greedy_walk(table, grid, s, (k - 1) as nat))
    }
}

/// `p` is the greedy walk from the start state up to and including its first
/// goal state, as coordinates, taking at most `budget` moves.
pub open spec fn is_greedy_path(
    table: ValueTable,
    grid: Grid,
    budget: nat,
    p: Seq<(usize, usize)>,
) -> bool {
    &&& 1 <= p.len() <= budget + 1
    &&& forall|i: int|
        0 <= i < p.len() ==> (#[trigger] p[i].0 as nat, p[i].1 as nat) == coord_of(
            grid.n(),
            greedy_walk(table, grid, grid.start as nat, i as nat),
        )
    &&& grid.kind(greedy_walk(table, grid, grid.start as nat, (p.len() - 1) as nat)) == Cell::Goal
    &&& forall|i: nat|
        i < p.len() - 1 ==> grid.kind(#[trigger] greedy_walk(table, grid, grid.start as nat, i))
            != Cell::Goal
}

/// None of the first `budget + 1` states of the greedy walk from the start is
/// the goal.
pub open spec fn misses_goal(table: ValueTable, grid: Grid, budget: nat) -> bool {
    forall|k: nat|
        k <= budget ==> grid.kind(#[trigger] greedy_walk(table, grid, grid.start as nat, k))
            != Cell::Goal
}

/// Follows the greedy policy from the start state for at most `max_steps`
/// moves. On success the path holds the coordinate of every state visited,
/// the start first and the goal last; the walk stops at the first goal.
pub fn extract_path_within(table: &ValueTable, grid: &Grid, max_steps: usize) -> (r: Result<
    Vec<(usize, usize)>,
    PolicyError,
>)
    requires
        table.wf(),
        grid.wf(),
        table.num_states() == grid.num_states(),
    ensures
        r matches Ok(p) ==> is_greedy_path(*table, *grid, max_steps as nat, p@),
        r is Err <==> misses_goal(*table, *grid, max_steps as nat),
{
    let n = grid.size;
    let mut state = grid.start;
    let mut steps: usize = 0;
    let mut path: Vec<(usize, usize)> = Vec::new();
    while grid.cells[state] != Cell::Goal
        invariant
            table.wf(),
            grid.wf(),
            n == grid.size,
            table.num_states() == grid.num_states(),
            state < grid.num_states(),
            steps <= max_steps,
            state == greedy_walk(*table, *grid, grid.start as nat, steps as nat),
            path@.len() == steps,
            forall|i: int|
                0 <= i < steps ==> (#[trigger] path@[i].0 as nat, path@[i].1 as nat) == coord_of(
                    grid.n(),
                    greedy_walk(*table, *grid, grid.start as nat, i as nat),
                ),
            forall|i: nat|
                i < steps ==> grid.kind(
                    #[trigger] greedy_walk(*table, *grid, grid.start as nat, i),
                ) != Cell::Goal,
        decreases max_steps - steps,
    {
        if steps == max_steps {
            assert forall|k: nat| k <= max_steps as nat implies grid.kind(
                #[trigger] greedy_walk(*table, *grid, grid.start as nat, k),
            ) != Cell::Goal by {
                if k < steps {
                } else {
                    assert(k == steps);
                }
            }
            return Err(PolicyError::NoPathWithinBudget);
        }
        path.push(state_to_coord(state, n));
        let action = table.best_action(state);
        let (next, _) = get_next_state_and_reward(state, action, grid);
        state = next;
        steps = steps + 1;
    }
    path.push(state_to_coord(state, n));
    assert(grid.kind(greedy_walk(*table, *grid, grid.start as nat, steps as nat)) == Cell::Goal);
    Ok(path)
}

/// Greedy path extraction with a budget of one move per state of the grid.
pub fn extract_path(table: &ValueTable, grid: &Grid) -> (r: Result<
    Vec<(usize, usize)>,
    PolicyError,
>)
    requires
        table.wf(),
        grid.wf(),
        table.num_states() == grid.num_states(),
    ensures
        r matches Ok(p) ==> is_greedy_path(*table, *grid, grid.num_states(), p@),
        r is Err <==> misses_goal(*table, *grid, grid.num_states()),
{
    extract_path_within(table, grid, grid.size * grid.size)
}

proof fn lemma_walk_stays(table: ValueTable, grid: Grid, s: nat, k: nat)
    requires
        greedy_next(table, grid, s) == s,
    ensures
        greedy_walk(table, grid, s, k) == s,
    decreases k,
{
    if k > 0 {
        lemma_walk_stays(table, grid, s, (k - 1) as nat);
    }
}

/// Where the greedy move from the start state leads back to it, the walk never
/// leaves the start, so extraction ends by its budget, whatever the budget.
pub proof fn lemma_stuck_start_misses_goal(table: ValueTable, grid: Grid, budget: nat)
    requires
        grid.wf(),
        greedy_next(table, grid, grid.start as nat) == grid.start,
    ensures
        misses_goal(table, grid, budget),
{
    assert forall|k: nat| k <= budget implies grid.kind(
        #[trigger] greedy_walk(table, grid, grid.start as nat, k),
    ) != Cell::Goal by {
        lemma_walk_stays(table, grid, grid.start as nat, k);
    }
}

/// A start state in the top row whose four estimates are all equal (as in an
/// untrained table) picks Up, which the edge clamps: extraction ends by its
/// budget instead of looping.
pub proof fn lemma_flat_top_row_start_misses_goal(table: ValueTable, grid: Grid, budget: nat)
    requires
        table.wf(),
        grid.wf(),
        table.num_states() == grid.num_states(),
        coord_of(grid.n(), grid.start as nat).0 == 0,
        table.q(grid.start as nat, 0) == table.q(grid.start as nat, 1),
        table.q(grid.start as nat, 0) == table.q(grid.start as nat, 2),
        table.q(grid.start as nat, 0) == table.q(grid.start as nat, 3),
    ensures
        misses_goal(table, grid, budget),
{
    assert(table.best(grid.start as nat) == UP);
    lemma_up_clamped_at_top(grid, grid.start as nat);
    lemma_stuck_start_misses_goal(table, grid, budget);
}

} // verus!
