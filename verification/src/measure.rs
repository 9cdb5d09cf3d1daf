//! Why every run ends: a number that each transition makes smaller.
//!
//! The measure reads the state as a number with one base-21 digit per cell,
//! the first cell being the most significant. The digit of an empty cell of
//! the puzzle before the cursor tells how many digits are still untried
//! there; the digit under the cursor is one less while moving forward and zero
//! while backtracking; cells after the cursor count nothing. Each transition
//! lowers the digit of one cell and leaves the digits of all cells before it
//! as they were. The search space of 81 cells with 9 digits each bounds the
//! measure, and so the length of every run.

use vstd::prelude::*;
use crate::candidate::candidate_from_is_first;
use crate::grid::raster;
use crate::soundness::retreat_target_is_nearest;
use crate::state::{retreat_target, SolverState, GAME_STATE};

verus! {

/// `1` when the digit `d` is in the set, else `0`.
pub open spec fn is_marked(tried: Set<int>, d: int) -> int {
    if tried.contains(d) {
        1
    } else {
        0
    }
}

/// How many of the digits from 1 to 9 are in the set.
pub open spec fn count_tried(tried: Set<int>) -> int {
    is_marked(tried, 1) + is_marked(tried, 2) + is_marked(tried, 3) + is_marked(tried, 4) + is_marked(
        tried,
        5,
    ) + is_marked(tried, 6) + is_marked(tried, 7) + is_marked(tried, 8) + is_marked(tried, 9)
}

impl SolverState {
    /// What the cell at raster position `i` contributes to the measure, a
    /// number from 0 to 20.
    pub open spec fn digit(self, i: int) -> int {
        let r = i / 9;
        let c = i % 9;
        if self.given.contains((r, c)) {
            if i == self.position() {
                1
            } else {
                0
            }
        } else if i < self.position() {
            2 * (9 - count_tried(self.visited[(r, c)])) + 2
        } else if i == self.position() && !self.backtrack {
            2 * (9 - count_tried(self.visited[(r, c)])) + 1
        } else {
            0
        }
    }

    /// The number that the digits of the first `n` cells spell in base 21.
    pub open spec fn weight(self, n: nat) -> int
        decreases n,
    {
        if n == 0 {
            0
        } else {
            21 * self.weight((n - 1) as nat) + self.digit(n - 1)
        }
    }

    /// The measure of a state: the number that its 81 digits spell, followed
    /// by one binary digit that is set while the run goes on.
    pub open spec fn measure(self) -> nat {
        (2 * self.weight(81) + if self.state == GAME_STATE::InProgress {
            1int
        } else {
            0int
        }) as nat
    }
}

/// The number of states that a run could tell apart by the digits of its
/// first `n` cells: 21 to the power of `n`.
pub open spec fn search_space(n: nat) -> nat
    decreases n,
{
    if n == 0 {
        1
    } else {
        21 * search_space((n - 1) as nat)
    }
}

/// A weight is never negative.
proof fn weight_is_natural(s: SolverState, n: nat)
    ensures
        0 <= s.weight(n),
    decreases n,
{
    if n > 0 {
        weight_is_natural(s, (n - 1) as nat);
    }
}

/// The measure of a run that goes on is not zero.
pub proof fn measure_of_running_state(s: SolverState)
    requires
        s.state == GAME_STATE::InProgress,
    ensures
        s.measure() >= 1,
{
    weight_is_natural(s, 81);
}

/// A weight stays below the size of the search space.
proof fn weight_is_bounded(s: SolverState, n: nat)
    ensures
        s.weight(n) < search_space(n),
    decreases n,
{
    if n > 0 {
        weight_is_bounded(s, (n - 1) as nat);
    }
}

/// The measure of every state, and with it the length of every run, is
/// bounded by the search space of 81 cells.
pub proof fn measure_is_bounded(s: SolverState)
    ensures
        s.measure() < 2 * search_space(81),
{
    weight_is_natural(s, 81);
    weight_is_bounded(s, 81);
}

/// States with the same digits have the same weight.
proof fn weight_of_equal_digits(a: SolverState, b: SolverState, n: nat)
    requires
        forall|i: int| 0 <= i < n ==> a.digit(i) == b.digit(i),
    ensures
        a.weight(n) == b.weight(n),
    decreases n,
{
    if n > 0 {
        weight_of_equal_digits(a, b, (n - 1) as nat);
    }
}

/// Lowering one digit while keeping all digits before it lowers the weight,
/// whatever becomes of the digits after it.
proof fn weight_of_lower_digit(a: SolverState, b: SolverState, j: int, n: nat)
    requires
        0 <= j < n,
        forall|i: int| 0 <= i < j ==> a.digit(i) == b.digit(i),
        b.digit(j) < a.digit(j),
    ensures
        b.weight(n) < a.weight(n),
    decreases n,
{
    if n == j + 1 {
        weight_of_equal_digits(a, b, j as nat);
    } else {
        weight_of_lower_digit(a, b, j, (n - 1) as nat);
    }
}

/// Each transition of a run that goes on lowers the measure: no run takes
/// more transitions than the measure of the state it starts in.
pub proof fn step_lowers_measure(s: SolverState, order: Seq<int>)
    requires
        s.inv(),
        s.state == GAME_STATE::InProgress,
    ensures
        s.step(order).measure() < s.measure(),
{
    let n = s.step(order);
    let (r, c) = s.cursor;
    let p = s.position();
    weight_is_natural(s, 81);
    weight_is_natural(n, 81);
    if !s.backtrack {
        if r > 8 {
            weight_of_equal_digits(s, n, 81);
        } else if s.given.contains((r, c)) {
            weight_of_lower_digit(s, n, p, 81);
        } else {
            candidate_from_is_first(order, 0, s.visited[(r, c)], s.grid, r, c);
            weight_of_lower_digit(s, n, p, 81);
        }
    } else {
        retreat_target_is_nearest(s.given, r, c);
        match retreat_target(s.given, r, c) {
            Some(t) => {
                weight_of_lower_digit(s, n, raster(t.0, t.1), 81);
            },
            None => {
                weight_of_equal_digits(s, n, 81);
            },
        }
    }
}

} // verus!

