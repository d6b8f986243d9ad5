use crate::grid::{Cell, Grid, NUM_ACTIONS, REWARD_LIMIT};
use crate::random::{draw_below, draw_ratio};
use crate::table::{best_of, max_q_of, q_of, ValueTable, Q_LIMIT, SCALE};
use rand::rngs::StdRng;
use vstd::arithmetic::div_mod::{
    lemma_div_is_ordered, lemma_div_by_multiple, lemma_div_pos_is_pos, lemma_fundamental_div_mod,
    lemma_mod_pos_bound,
};
use vstd::prelude::*;

verus! {

/// Hyperparameters of a training run. The rates are fractions
/// `num / den`: the learning rate alpha, the discount gamma and the
/// exploration rate epsilon.
#[derive(Clone, Copy, Debug, PartialEq, Eq, Structural)]
pub struct TrainConfig {
    pub alpha_num: u32,
    pub alpha_den: u32,
    pub gamma_num: u32,
    pub gamma_den: u32,
    pub epsilon_num: u32,
    pub epsilon_den: u32,
    /// Number of episodes to run.
    pub episodes: usize,
    /// Moves allowed in one episode before training gives up on the grid.
    pub max_episode_steps: usize,
}

#[derive(Clone, Copy, Debug, PartialEq, Eq, Structural)]
pub enum TrainError {
    /// The given episode did not reach the goal within the step cap: training
    /// did not converge for this grid.
    EpisodeStepLimit { episode: usize },
}

/// `x * num / den`, rounded toward zero.
pub open spec fn shrink(x: int, num: nat, den: nat) -> int {
    if x >= 0 {
        x * (num as int) / (den as int)
    } else {
        -((-x) * (num as int) / (den as int))
    }
}

/// `x` held within the estimate range `[-Q_LIMIT, Q_LIMIT]`.
pub open spec fn clamp_q(x: int) -> int {
    if x > Q_LIMIT {
        Q_LIMIT as int
    } else if x < -Q_LIMIT {
        -Q_LIMIT
    } else {
        x
    }
}

impl TrainConfig {
    pub open spec fn wf(&self) -> bool {
        &&& 0 < self.alpha_num <= self.alpha_den
        &&& 0 < self.gamma_num <= self.gamma_den
        &&& 0 < self.epsilon_den
        &&& self.epsilon_num <= self.epsilon_den
    }

    /// alpha = 0.1, gamma = 0.99, epsilon = 0.1, ten thousand episodes.
    pub fn standard() -> (r: TrainConfig)
        ensures
            r.wf(),
            r.alpha_num == 1 && r.alpha_den == 10,
            r.gamma_num == 99 && r.gamma_den == 100,
            r.epsilon_num == 1 && r.epsilon_den == 10,
            r.episodes == 10_000,
            r.max_episode_steps == 1_000_000,
    {
        TrainConfig {
            alpha_num: 1,
            alpha_den: 10,
            gamma_num: 99,
            gamma_den: 100,
            epsilon_num: 1,
            epsilon_den: 10,
            episodes: 10_000,
            max_episode_steps: 1_000_000,
        }
    }

    pub fn is_valid(&self) -> (r: bool)
        ensures
            r == self.wf(),
    {
        0 < self.alpha_num && self.alpha_num <= self.alpha_den && 0 < self.gamma_num
            && self.gamma_num <= self.gamma_den && 0 < self.epsilon_den && self.epsilon_num
            <= self.epsilon_den
    }
}

/// The Bellman target `reward + gamma * next_max`, in estimate units and kept
/// within the estimate range.
pub open spec fn bellman_target(reward: int, next_max: int, gamma_num: nat, gamma_den: nat) -> int {
    clamp_q(reward * SCALE + shrink(next_max, gamma_num, gamma_den))
}

/// `q_old + alpha * (target - q_old)`.
pub open spec fn td_value(q_old: int, target: int, alpha_num: nat, alpha_den: nat) -> int {
    q_old + shrink(target - q_old, alpha_num, alpha_den)
}

pub open spec fn learned_value(
    q_old: int,
    reward: int,
    next_max: int,
    cfg: TrainConfig,
) -> int {
    td_value(
        q_old,
        bellman_target(reward, next_max, cfg.gamma_num as nat, cfg.gamma_den as nat),
        cfg.alpha_num as nat,
        cfg.alpha_den as nat,
    )
}

proof fn lemma_shrink_bounds(x: int, num: nat, den: nat)
    requires
        0 < den,
        num <= den,
    ensures
        x >= 0 ==> 0 <= shrink(x, num, den) <= x,
        x < 0 ==> x <= shrink(x, num, den) <= 0,
{
    let m = if x >= 0 { x } else { -x };
    assert(m * num <= m * den) by (nonlinear_arith)
        requires
            m >= 0,
            num <= den,
    ;
    assert(0 <= m * num) by (nonlinear_arith)
        requires
            m >= 0,
    ;
    lemma_div_is_ordered(m * num, m * den, den as int);
    lemma_div_by_multiple(m, den as int);
    lemma_div_pos_is_pos(m * num, den as int);
}

/// `shrink` on a value of bounded size.
fn shrink_exec(x: i64, num: u32, den: u32) -> (r: i64)
    requires
        0 < den,
        num <= den,
        -4 * Q_LIMIT <= x <= 4 * Q_LIMIT,
    ensures
        r == shrink(x as int, num as nat, den as nat),
{
    proof {
        lemma_shrink_bounds(x as int, num as nat, den as nat);
    }
    let ghost mag: int = if x >= 0 { x as int } else { -x };
    assert(mag * num <= 4 * Q_LIMIT * u32::MAX) by (nonlinear_arith)
        requires
            0 <= mag <= 4 * Q_LIMIT,
            num <= u32::MAX,
    ;
    if x >= 0 {
        let p: u128 = (x as u128) * (num as u128) / (den as u128);
        p as i64
    } else {
        let m: u128 = (-x) as u128;
        let p: u128 = m * (num as u128) / (den as u128);
        -(p as i64)
    }
}

/// One temporal-difference step on a single estimate: the estimate moves a
/// fraction alpha of the way toward `reward + gamma * next_max`.
pub fn td_update(q_old: i64, reward: i64, next_max: i64, cfg: &TrainConfig) -> (r: i64)
    requires
        cfg.wf(),
        -Q_LIMIT <= q_old <= Q_LIMIT,
        -Q_LIMIT <= next_max <= Q_LIMIT,
        -REWARD_LIMIT <= reward <= REWARD_LIMIT,
    ensures
        r == learned_value(q_old as int, reward as int, next_max as int, *cfg),
        -Q_LIMIT <= r <= Q_LIMIT,
{
    let discounted = shrink_exec(next_max, cfg.gamma_num, cfg.gamma_den);
    proof {
        lemma_shrink_bounds(next_max as int, cfg.gamma_num as nat, cfg.gamma_den as nat);
    }
    let raw = reward * SCALE + discounted;
    let target = if raw > Q_LIMIT {
        Q_LIMIT
    } else if raw < -Q_LIMIT {
        -Q_LIMIT
    } else {
        raw
    };
    let step = shrink_exec(target - q_old, cfg.alpha_num, cfg.alpha_den);
    proof {
        lemma_shrink_bounds(target - q_old, cfg.alpha_num as nat, cfg.alpha_den as nat);
    }
    q_old + step
}

/// The estimates after learning from taking action `a` in state `s`: that one
/// estimate moves toward the Bellman target of the state entered, whose value
/// is its largest estimate before the update.
pub open spec fn learned_at(v: Seq<i64>, g: Grid, cfg: TrainConfig, s: nat, a: nat) -> Seq<i64> {
    let next = g.next_state(s, a);
    v.update(
        (s * NUM_ACTIONS as nat + a) as int,
        learned_value(q_of(v, s, a), g.reward_at(next) as int, max_q_of(v, next), cfg) as i64,
    )
}

/// The estimates and the state after learning along the actions `acts`,
/// taken one after another from state `s`.
pub open spec fn learned_along(
    v: Seq<i64>,
    g: Grid,
    cfg: TrainConfig,
    s: nat,
    acts: Seq<nat>,
) -> (Seq<i64>, nat)
    decreases acts.len(),
{
    if acts.len() == 0 {
        (v, s)
    } else {
        let (v0, s0) = learned_along(v, g, cfg, s, acts.drop_last());
        (learned_at(v0, g, cfg, s0, acts.last()), g.next_state(s0, acts.last()))
    }
}

/// The state reached after the first `i` moves of `acts` from the start.
pub open spec fn state_after(v: Seq<i64>, g: Grid, cfg: TrainConfig, acts: Seq<nat>, i: int) -> nat {
    learned_along(v, g, cfg, g.start as nat, acts.take(i)).1
}

/// The estimates before the move at index `i` of `acts` from the start.
pub open spec fn values_before(
    v: Seq<i64>,
    g: Grid,
    cfg: TrainConfig,
    acts: Seq<nat>,
    i: int,
) -> Seq<i64> {
    learned_along(v, g, cfg, g.start as nat, acts.take(i)).0
}

/// One episode from the start, starting with estimates `v`, took the actions
/// `acts` and left the estimates `w`, with outcome `r`: `Some(k)` where the
/// goal is first entered by the `k`-th move, `None` where the cap of moves
/// passed without entering it. Without exploration every action is the
/// greedy one of the estimates at the time.
pub open spec fn episode_outcome(
    v: Seq<i64>,
    g: Grid,
    cfg: TrainConfig,
    acts: Seq<nat>,
    w: Seq<i64>,
    r: Option<usize>,
) -> bool {
    &&& forall|i: int| 0 <= i < acts.len() ==> #[trigger] acts[i] < NUM_ACTIONS
    &&& w == learned_along(v, g, cfg, g.start as nat, acts).0
    &&& forall|i: int|
        0 <= i < acts.len() ==> g.kind(#[trigger] state_after(v, g, cfg, acts, i)) != Cell::Goal
    &&& r matches Some(k) ==> acts.len() == k && g.kind(state_after(v, g, cfg, acts, k as int))
        == Cell::Goal
    &&& r is None ==> acts.len() == cfg.max_episode_steps && g.kind(
        state_after(v, g, cfg, acts, acts.len() as int),
    ) != Cell::Goal
    &&& cfg.epsilon_num == 0 ==> forall|i: int|
        0 <= i < acts.len() ==> #[trigger] acts[i] == best_of(
            values_before(v, g, cfg, acts, i),
            state_after(v, g, cfg, acts, i),
        )
}

/// An episode from estimates `v` reached the goal within the cap and left `w`.
pub open spec fn good_episode(v: Seq<i64>, g: Grid, cfg: TrainConfig, w: Seq<i64>) -> bool {
    exists|acts: Seq<nat>, k: usize| episode_outcome(v, g, cfg, acts, w, Some(k))
}

/// `tabs` are the estimates of a zero table and after each of `n` episodes
/// that reached the goal, in order.
pub open spec fn trained_from_zero(g: Grid, cfg: TrainConfig, n: nat, tabs: Seq<Seq<i64>>) -> bool {
    &&& tabs.len() == n + 1
    &&& tabs[0].len() == g.num_states() * NUM_ACTIONS
    &&& forall|i: int| 0 <= i < tabs[0].len() ==> #[trigger] tabs[0][i] == 0
    &&& forall|i: int| 0 <= i < n ==> good_episode(#[trigger] tabs[i], g, cfg, tabs[i + 1])
}

/// Takes `action` in `state`, updates that action's estimate toward the
/// Bellman target of the state entered, and returns that state.
pub fn learn_step(
    table: &mut ValueTable,
    grid: &Grid,
    cfg: &TrainConfig,
    state: usize,
    action: usize,
) -> (next: usize)
    requires
        old(table).wf(),
        old(table).num_states() == grid.num_states(),
        grid.wf(),
        cfg.wf(),
        state < grid.num_states(),
        action < NUM_ACTIONS,
    ensures
        next == grid.next_state(state as nat, action as nat),
        next < grid.num_states(),
        final(table).wf(),
        final(table).num_states() == old(table).num_states(),
        final(table).values@ == learned_at(
            old(table).values@,
            *grid,
            *cfg,
            state as nat,
            action as nat,
        ),
{
    let (next, reward) = crate::grid::get_next_state_and_reward(state, action, grid);
    let next_max = table.max_estimate(next);
    let q_old = table.estimate(state, action);
    let q_new = td_update(q_old, reward, next_max, cfg);
    table.update(state, action, q_new);
    next
}

/// One epsilon-greedy move: the drawn action where the step explores, else
/// the greedy action of `state`; then a learning step on it.
pub fn episode_step(
    table: &mut ValueTable,
    grid: &Grid,
    cfg: &TrainConfig,
    state: usize,
    explore: bool,
    drawn: usize,
) -> (next: usize)
    requires
        old(table).wf(),
        old(table).num_states() == grid.num_states(),
        grid.wf(),
        cfg.wf(),
        state < grid.num_states(),
        drawn < NUM_ACTIONS,
    ensures
        ({
            let a = if explore { drawn as nat } else { old(table).best(state as nat) };
            &&& next == grid.next_state(state as nat, a)
            &&& final(table).values@ == learned_at(old(table).values@, *grid, *cfg, state as nat, a)
        }),
        next < grid.num_states(),
        final(table).wf(),
        final(table).num_states() == old(table).num_states(),
{
    let action = if explore {
        drawn
    } else {
        table.best_action(state)
    };
    learn_step(table, grid, cfg, state, action)
}

proof fn lemma_take_push(acts: Seq<nat>, a: nat)
    ensures
        forall|i: int| 0 <= i <= acts.len() ==> #[trigger] acts.push(a).take(i) == acts.take(i),
        acts.push(a).take(acts.len() as int + 1) == acts.push(a),
        acts.push(a).drop_last() == acts,
        acts.take(acts.len() as int) == acts,
{
    assert forall|i: int| 0 <= i <= acts.len() implies #[trigger] acts.push(a).take(i) == acts.take(
        i,
    ) by {
        assert(acts.push(a).take(i) =~= acts.take(i));
    }
    assert(acts.push(a).take(acts.len() as int + 1) =~= acts.push(a));
    assert(acts.push(a).drop_last() =~= acts);
    assert(acts.take(acts.len() as int) =~= acts);
}

/// Runs one episode from the start state, a move at a time with
/// `episode_step`, until the goal is entered. Returns the number of moves, or
/// `None` where the goal was not entered within `cfg.max_episode_steps`
/// moves.
pub fn run_episode(table: &mut ValueTable, grid: &Grid, cfg: &TrainConfig, rng: &mut StdRng) -> (r:
    Option<usize>)
    requires
        old(table).wf(),
        old(table).num_states() == grid.num_states(),
        grid.wf(),
        cfg.wf(),
    ensures
        final(table).wf(),
        final(table).num_states() == old(table).num_states(),
        r matches Some(k) ==> 1 <= k <= cfg.max_episode_steps,
        exists|acts: Seq<nat>|
            episode_outcome(old(table).values@, *grid, *cfg, acts, final(table).values@, r),
{
    let ghost v0 = table.values@;
    let ghost mut acts: Seq<nat> = Seq::empty();
    let mut state = grid.start;
    let mut steps: usize = 0;
    proof {
        assert(acts.take(0) =~= acts);
    }
    while grid.cells[state] != Cell::Goal
        invariant
            table.wf(),
            table.num_states() == grid.num_states(),
            grid.wf(),
            cfg.wf(),
            state < grid.num_states(),
            steps <= cfg.max_episode_steps,
            steps == 0 ==> state == grid.start,
            old(table).num_states() == grid.num_states(),
            v0 == old(table).values@,
            acts.len() == steps,
            (table.values@, state as nat) == learned_along(
                v0,
                *grid,
                *cfg,
                grid.start as nat,
                acts,
            ),
            forall|i: int| 0 <= i < acts.len() ==> #[trigger] acts[i] < NUM_ACTIONS,
            forall|i: int|
                0 <= i < acts.len() ==> grid.kind(#[trigger] state_after(v0, *grid, *cfg, acts, i))
                    != Cell::Goal,
            cfg.epsilon_num == 0 ==> forall|i: int|
                0 <= i < acts.len() ==> #[trigger] acts[i] == best_of(
                    values_before(v0, *grid, *cfg, acts, i),
                    state_after(v0, *grid, *cfg, acts, i),
                ),
        decreases cfg.max_episode_steps - steps,
    {
        proof {
            lemma_take_push(acts, 0);
            assert(state_after(v0, *grid, *cfg, acts, acts.len() as int) == state);
        }
        if steps == cfg.max_episode_steps {
            assert(episode_outcome(v0, *grid, *cfg, acts, table.values@, None));
            return None;
        }
        let explore = draw_ratio(rng, cfg.epsilon_num, cfg.epsilon_den);
        let drawn = if explore {
            draw_below(rng, NUM_ACTIONS)
        } else {
            0
        };
        let ghost before = table.values@;
        let ghost prev = state as nat;
        let ghost old_acts = acts;
        state = episode_step(table, grid, cfg, state, explore, drawn);
        let ghost a: nat = if explore { drawn as nat } else { best_of(before, prev) };
        proof {
            acts = old_acts.push(a);
            lemma_take_push(old_acts, a);
            assert forall|i: int| 0 <= i < old_acts.len() implies #[trigger] state_after(
                v0,
                *grid,
                *cfg,
                acts,
                i,
            ) == state_after(v0, *grid, *cfg, old_acts, i) && values_before(
                v0,
                *grid,
                *cfg,
                acts,
                i,
            ) == values_before(v0, *grid, *cfg, old_acts, i) by {}
            assert(state_after(v0, *grid, *cfg, acts, old_acts.len() as int) == prev);
            assert(values_before(v0, *grid, *cfg, acts, old_acts.len() as int) == before);
            assert(acts[old_acts.len() as int] == a);
            assert forall|i: int| 0 <= i < acts.len() implies #[trigger] acts[i] < NUM_ACTIONS by {
                if i < old_acts.len() {
                    assert(acts[i] == old_acts[i]);
                }
            }
            assert forall|i: int| 0 <= i < acts.len() implies grid.kind(
                #[trigger] state_after(v0, *grid, *cfg, acts, i),
            ) != Cell::Goal by {
                if i < old_acts.len() {
                    assert(state_after(v0, *grid, *cfg, acts, i) == state_after(
                        v0,
                        *grid,
                        *cfg,
                        old_acts,
                        i,
                    ));
                }
            }
            if cfg.epsilon_num == 0 {
                assert forall|i: int| 0 <= i < acts.len() implies #[trigger] acts[i] == best_of(
                    values_before(v0, *grid, *cfg, acts, i),
                    state_after(v0, *grid, *cfg, acts, i),
                ) by {
                    if i < old_acts.len() {
                        assert(acts[i] == old_acts[i]);
                        assert(state_after(v0, *grid, *cfg, acts, i) == state_after(
                            v0,
                            *grid,
                            *cfg,
                            old_acts,
                            i,
                        ));
                        assert(values_before(v0, *grid, *cfg, acts, i) == values_before(
                            v0,
                            *grid,
                            *cfg,
                            old_acts,
                            i,
                        ));
                    }
                }
            }
        }
        steps = steps + 1;
    }
    proof {
        lemma_take_push(acts, 0);
        assert(state_after(v0, *grid, *cfg, acts, acts.len() as int) == state);
        assert(episode_outcome(v0, *grid, *cfg, acts, table.values@, Some(steps)));
    }
    Some(steps)
}

/// Trains a fresh table on `grid` for `cfg.episodes` episodes. On success
/// the table is the zero table after `cfg.episodes` episodes that each reached
/// the goal; on failure the episodes before the one reported reached the goal
/// and that one ran out of moves.
pub fn train(grid: &Grid, cfg: &TrainConfig, rng: &mut StdRng) -> (r: Result<ValueTable, TrainError>)
    requires
        grid.wf(),
        cfg.wf(),
        grid.num_states() * NUM_ACTIONS <= usize::MAX,
    ensures
        r matches Ok(t) ==> t.wf() && t.num_states() == grid.num_states(),
        r matches Ok(t) ==> exists|tabs: Seq<Seq<i64>>|
            trained_from_zero(*grid, *cfg, cfg.episodes as nat, tabs) && tabs.last()
                == t.values@,
        cfg.episodes == 0 ==> (r matches Ok(t) && forall|i: int|
            0 <= i < t.values@.len() ==> #[trigger] t.values@[i] == 0),
        r matches Err(TrainError::EpisodeStepLimit { episode }) ==> episode < cfg.episodes
            && exists|tabs: Seq<Seq<i64>>, acts: Seq<nat>, w: Seq<i64>|
            trained_from_zero(*grid, *cfg, episode as nat, tabs) && episode_outcome(
                tabs.last(),
                *grid,
                *cfg,
                acts,
                w,
                None,
            ),
{
    let mut table = ValueTable::new(grid.size * grid.size);
    let ghost mut tabs: Seq<Seq<i64>> = seq![table.values@];
    let mut e: usize = 0;
    while e < cfg.episodes
        invariant
            table.wf(),
            table.num_states() == grid.num_states(),
            grid.wf(),
            cfg.wf(),
            e <= cfg.episodes,
            cfg.episodes == 0 ==> forall|i: int|
                0 <= i < table.values@.len() ==> #[trigger] table.values@[i] == 0,
            trained_from_zero(*grid, *cfg, e as nat, tabs),
            tabs.last() == table.values@,
        decreases cfg.episodes - e,
    {
        let ghost before = table.values@;
        match run_episode(&mut table, grid, cfg, rng) {
            Some(k) => {
                proof {
                    let acts = choose|acts: Seq<nat>|
                        episode_outcome(before, *grid, *cfg, acts, table.values@, Some(k));
                    assert(good_episode(before, *grid, *cfg, table.values@));
                    let old_tabs = tabs;
                    tabs = old_tabs.push(table.values@);
                    assert forall|i: int| 0 <= i < e + 1 implies good_episode(
                        #[trigger] tabs[i],
                        *grid,
                        *cfg,
                        tabs[i + 1],
                    ) by {
                        if i < e {
                            assert(tabs[i] == old_tabs[i]);
                            assert(tabs[i + 1] == old_tabs[i + 1]);
                            assert(good_episode(old_tabs[i], *grid, *cfg, old_tabs[i + 1]));
                        } else {
                            assert(tabs[i] == before);
                        }
                    }
                }
            },
            None => {
                proof {
                    let acts = choose|acts: Seq<nat>|
                        episode_outcome(before, *grid, *cfg, acts, table.values@, None);
                    assert(trained_from_zero(*grid, *cfg, e as nat, tabs) && episode_outcome(
                        tabs.last(),
                        *grid,
                        *cfg,
                        acts,
                        table.values@,
                        None,
                    ));
                }
                return Err(TrainError::EpisodeStepLimit { episode: e });
            },
        }
        e = e + 1;
    }
    Ok(table)
}

pub open spec fn abs(x: int) -> int {
    if x >= 0 { x } else { -x }
}

/// One update moves an estimate toward its target by the fraction alpha =
/// `alpha_num / alpha_den` of the gap, never past it: the new gap is
/// `(1 - alpha)` times the old one, plus the remainder that rounding to whole
/// estimate units leaves, and exactly `(1 - alpha)` times it where
/// `alpha * gap` is a whole number of units.
pub proof fn lemma_update_contracts(q_old: int, target: int, alpha_num: nat, alpha_den: nat)
    requires
        0 < alpha_num < alpha_den,
    ensures
        ({
            let gap = abs(target - q_old);
            let new_gap = abs(td_value(q_old, target, alpha_num, alpha_den) - target);
            &&& alpha_den * new_gap == (alpha_den - alpha_num) * gap + (gap * alpha_num) % (
            alpha_den as int)
            &&& (gap * alpha_num) % (alpha_den as int) == 0 ==> alpha_den * new_gap == (alpha_den
                - alpha_num) * gap
            &&& new_gap <= gap
            &&& (target - q_old) * (td_value(q_old, target, alpha_num, alpha_den) - target) <= 0
        }),
{
    let d = target - q_old;
    let m = abs(d);
    let an = alpha_num as int;
    let ad = alpha_den as int;
    let sh = m * an / ad;
    let rem = (m * an) % ad;
    lemma_fundamental_div_mod(m * an, ad);
    lemma_mod_pos_bound(m * an, ad);
    lemma_shrink_bounds(d, alpha_num, alpha_den);
    assert(ad * (m - sh) == (ad - an) * m + rem) by (nonlinear_arith)
        requires
            m * an == ad * sh + rem,
    ;
    let v = td_value(q_old, target, alpha_num, alpha_den);
    if d >= 0 {
        assert(v - target == sh - m);
    } else {
        assert(v - target == m - sh);
    }
    assert(d * (v - target) <= 0) by (nonlinear_arith)
        requires
            d >= 0 ==> v - target <= 0,
            d < 0 ==> v - target >= 0,
    ;
}

} // verus!
