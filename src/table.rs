use crate::grid::NUM_ACTIONS;
use vstd::prelude::*;

verus! {

/// Largest magnitude an estimate may reach. Estimates are fixed-point
/// numbers: an estimate `v` stands for `v / SCALE` reward units.
pub const Q_LIMIT: i64 = 1_000_000_000_000_000;

/// Number of estimate units in one reward unit.
pub const SCALE: i64 = 1_000_000;

pub open spec fn max4(a: int, b: int, c: int, d: int) -> int {
    let ab = if a >= b { a } else { b };
    let cd = if c >= d { c } else { d };
    if ab >= cd { ab } else { cd }
}

/// The lowest index whose value equals the maximum of the four.
pub open spec fn first_argmax4(a: int, b: int, c: int, d: int) -> nat {
    let m = max4(a, b, c, d);
    if a == m { 0 } else if b == m { 1 } else if c == m { 2 } else { 3 }
}

/// The estimate of action `a` in state `s` in the stored estimates `v`.
pub open spec fn q_of(v: Seq<i64>, s: nat, a: nat) -> int {
    v[(s * NUM_ACTIONS as nat + a) as int] as int
}

pub open spec fn max_q_of(v: Seq<i64>, s: nat) -> int {
    max4(q_of(v, s, 0), q_of(v, s, 1), q_of(v, s, 2), q_of(v, s, 3))
}

/// The greedy action of state `s`: the lowest index of a largest estimate.
pub open spec fn best_of(v: Seq<i64>, s: nat) -> nat {
    first_argmax4(q_of(v, s, 0), q_of(v, s, 1), q_of(v, s, 2), q_of(v, s, 3))
}

/// One estimate per (state, action) pair, stored state by state: the
/// estimate of action `a` in state `s` is at `s * NUM_ACTIONS + a`.
#[derive(Debug)]
pub struct ValueTable {
    pub values: Vec<i64>,
}

proof fn lemma_slot_in_range(len: nat, s: nat, a: nat)
    requires
        len % 4 == 0,
        s < len / 4,
        a < 4,
    ensures
        s * 4 + a < len,
{
    assert(s * 4 + a < len) by (nonlinear_arith)
        requires
            len % 4 == 0,
            s < len / 4,
            a < 4,
    ;
}

impl ValueTable {
    pub open spec fn num_states(&self) -> nat {
        self.values@.len() / NUM_ACTIONS as nat
    }

    pub open spec fn wf(&self) -> bool {
        &&& self.values@.len() % NUM_ACTIONS as nat == 0
        &&& self.values@.len() <= usize::MAX
        &&& forall|i: int| 0 <= i < self.values@.len() ==> -Q_LIMIT <= #[trigger] self.values@[i] <= Q_LIMIT
    }

    pub open spec fn q(&self, s: nat, a: nat) -> int {
        q_of(self.values@, s, a)
    }

    pub open spec fn max_q(&self, s: nat) -> int {
        max_q_of(self.values@, s)
    }

    pub open spec fn best(&self, s: nat) -> nat {
        best_of(self.values@, s)
    }

    /// A table of `num_states` states with every estimate zero.
    pub fn new(num_states: usize) -> (r: ValueTable)
        requires
            num_states * NUM_ACTIONS <= usize::MAX,
        ensures
            r.wf(),
            r.num_states() == num_states,
            r.values@.len() == num_states * NUM_ACTIONS,
            forall|i: int| 0 <= i < r.values@.len() ==> #[trigger] r.values@[i] == 0,
    {
        let len = num_states * NUM_ACTIONS;
        let mut values: Vec<i64> = Vec::new();
        let mut i: usize = 0;
        while i < len
            invariant
                i <= len,
                values@.len() == i,
                forall|j: int| 0 <= j < i ==> #[trigger] values@[j] == 0,
            decreases len - i,
        {
            values.push(0);
            i = i + 1;
        }
        ValueTable { values }
    }

    /// The current estimate of `action` in `state`.
    pub fn estimate(&self, state: usize, action: usize) -> (r: i64)
        requires
            self.wf(),
            state < self.num_states(),
            action < NUM_ACTIONS,
        ensures
            r == self.q(state as nat, action as nat),
    {
        proof {
            lemma_slot_in_range(self.values@.len(), state as nat, action as nat);
        }
        self.values[state * NUM_ACTIONS + action]
    }

    /// Replaces the estimate of `action` in `state`; the others stay.
    pub fn update(&mut self, state: usize, action: usize, new_value: i64)
        requires
            old(self).wf(),
            state < old(self).num_states(),
            action < NUM_ACTIONS,
            -Q_LIMIT <= new_value <= Q_LIMIT,
        ensures
            final(self).wf(),
            final(self).values@ == old(self).values@.update(
                (state * NUM_ACTIONS + action) as int,
                new_value,
            ),
            final(self).num_states() == old(self).num_states(),
    {
        proof {
            lemma_slot_in_range(self.values@.len(), state as nat, action as nat);
        }
        self.values.set(state * NUM_ACTIONS + action, new_value);
    }

    /// The action with the largest estimate in `state`; among equal
    /// estimates the lowest action index wins.
    pub fn best_action(&self, state: usize) -> (r: usize)
        requires
            self.wf(),
            state < self.num_states(),
        ensures
            r == self.best(state as nat),
            r < NUM_ACTIONS,
            forall|a: nat| a < NUM_ACTIONS ==> self.q(state as nat, a) <= self.q(
                state as nat,
                r as nat,
            ),
            forall|a: nat| a < r ==> self.q(state as nat, a) < self.q(state as nat, r as nat),
    {
        proof {
            lemma_slot_in_range(self.values@.len(), state as nat, 3);
        }
        let base = state * NUM_ACTIONS;
        let mut best: usize = 0;
        let mut best_value = self.values[base];
        let mut a: usize = 1;
        while a < NUM_ACTIONS
            invariant
                self.wf(),
                state < self.num_states(),
                base == state * NUM_ACTIONS,
                1 <= a <= NUM_ACTIONS,
                best < a,
                best_value == self.q(state as nat, best as nat),
                forall|b: nat| b < a ==> self.q(state as nat, b) <= best_value,
                forall|b: nat| b < best ==> self.q(state as nat, b) < best_value,
            decreases NUM_ACTIONS - a,
        {
            proof {
                lemma_slot_in_range(self.values@.len(), state as nat, a as nat);
            }
            let v = self.values[base + a];
            if v > best_value {
                best = a;
                best_value = v;
            }
            a = a + 1;
        }
        proof {
            let v = self.values@;
            let st = state as nat;
            assert(self.q(st, 0) == q_of(v, st, 0));
            assert(self.q(st, 1) == q_of(v, st, 1));
            assert(self.q(st, 2) == q_of(v, st, 2));
            assert(self.q(st, 3) == q_of(v, st, 3));
        }
        best
    }

    /// The largest of the four estimates of `state`.
    pub fn max_estimate(&self, state: usize) -> (r: i64)
        requires
            self.wf(),
            state < self.num_states(),
        ensures
            r == self.max_q(state as nat),
            -Q_LIMIT <= r <= Q_LIMIT,
    {
        let a = self.best_action(state);
        proof {
            lemma_slot_in_range(self.values@.len(), state as nat, a as nat);
        }
        self.values[state * NUM_ACTIONS + a]
    }
}

} // verus!
