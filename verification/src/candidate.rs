//! The candidate generator: which digit to try next at a cell.
//!
//! A candidate for a cell is a digit that has not been tried there during the
//! current descent and that clashes with nothing in the cell's row, column and
//! box. The generator walks a preference order of digits and proposes the
//! first candidate it meets. Walking the digits in ascending order makes the
//! search reproducible; walking a random permutation makes it vary from run to
//! run.

use rand::seq::SliceRandom;
use vstd::prelude::*;
use crate::grid::{grid_view, in_grid, put, set_cell, values_of, Board, Grid};
use crate::validator::{is_digit_permutation, is_valid_cell, valid_cell};

verus! {

/// The digits that nine flags mark: digit `d` is in the set when flag `d - 1`
/// is raised.
pub open spec fn digits_of(seen: [bool; 9]) -> Set<int> {
    Set::new(|d: int| 1 <= d <= 9 && seen[d - 1])
}

/// `v` is a digit that was not tried yet at `(r, c)` and that leaves the row,
/// the column and the box of `(r, c)` free of repeats when written there.
pub open spec fn is_candidate(tried: Set<int>, b: Board, r: int, c: int, v: int) -> bool {
    &&& 1 <= v <= 9
    &&& !tried.contains(v)
    &&& valid_cell(put(b, r, c, v), r, c)
}

/// The first candidate among the entries of `order` from position `from` on.
pub open spec fn candidate_from(
    order: Seq<int>,
    from: int,
    tried: Set<int>,
    b: Board,
    r: int,
    c: int,
) -> Option<int>
    decreases order.len() - from,
{
    if from < 0 || from >= order.len() {
        None
    } else if is_candidate(tried, b, r, c, order[from]) {
        Some(order[from])
    } else {
        candidate_from(order, from + 1, tried, b, r, c)
    }
}

/// The candidate that stands first in `order`, if `order` holds one.
pub open spec fn first_candidate(order: Seq<int>, tried: Set<int>, b: Board, r: int, c: int)
    -> Option<int> {
    candidate_from(order, 0, tried, b, r, c)
}

/// The digits from 1 to 9 in ascending order.
pub open spec fn ascending() -> Seq<int> {
    Seq::new(9, |k: int| k + 1)
}

/// What `candidate_from` returns is a candidate that stands in `order` at or
/// after `from` with no candidate between `from` and it; it returns nothing
/// only when no entry from `from` on is a candidate.
pub proof fn candidate_from_is_first(
    order: Seq<int>,
    from: int,
    tried: Set<int>,
    b: Board,
    r: int,
    c: int,
)
    requires
        0 <= from,
    ensures
        match candidate_from(order, from, tried, b, r, c) {
            Some(v) => exists|k: int|
                from <= k < order.len() && #[trigger] order[k] == v && is_candidate(tried, b, r, c, v)
                    && forall|n: int| from <= n < k ==> !is_candidate(tried, b, r, c, #[trigger] order[n]),
            None => forall|n: int|
                from <= n < order.len() ==> !is_candidate(tried, b, r, c, #[trigger] order[n]),
        },
    decreases order.len() - from,
{
    if from < order.len() && !is_candidate(tried, b, r, c, order[from]) {
        candidate_from_is_first(order, from + 1, tried, b, r, c);
    }
}

/// With a permutation of the digits as the order, the generator proposes a
/// candidate whenever the cell has one: it comes back empty-handed only when
/// every digit was tried already or clashes.
pub proof fn first_candidate_is_exhaustive(
    order: Seq<int>,
    tried: Set<int>,
    b: Board,
    r: int,
    c: int,
)
    requires
        is_digit_permutation(order),
    ensures
        first_candidate(order, tried, b, r, c) matches Some(v) ==> is_candidate(tried, b, r, c, v),
        first_candidate(order, tried, b, r, c) is None ==> forall|d: int|
            !#[trigger] is_candidate(tried, b, r, c, d),
{
    candidate_from_is_first(order, 0, tried, b, r, c);
    if first_candidate(order, tried, b, r, c) is None {
        assert forall|d: int| !#[trigger] is_candidate(tried, b, r, c, d) by {
            if 1 <= d <= 9 {
                assert(order.contains(d));
            }
        }
    }
}

/// The digits in ascending order are a permutation of the digits.
pub proof fn ascending_is_permutation()
    ensures
        is_digit_permutation(ascending()),
{
    assert forall|d: int| 1 <= d <= 9 implies ascending().contains(d) by {
        assert(ascending()[d - 1] == d);
    }
}

/// In ascending order the generator proposes the least candidate.
pub proof fn ascending_candidate_is_least(tried: Set<int>, b: Board, r: int, c: int)
    ensures
        first_candidate(ascending(), tried, b, r, c) matches Some(v) ==> is_candidate(tried, b, r, c, v)
            && forall|d: int| d < v ==> !#[trigger] is_candidate(tried, b, r, c, d),
        first_candidate(ascending(), tried, b, r, c) is None ==> forall|d: int|
            !#[trigger] is_candidate(tried, b, r, c, d),
{
    let order = ascending();
    ascending_is_permutation();
    first_candidate_is_exhaustive(order, tried, b, r, c);
    candidate_from_is_first(order, 0, tried, b, r, c);
    if let Some(v) = first_candidate(order, tried, b, r, c) {
        assert forall|d: int| d < v implies !#[trigger] is_candidate(tried, b, r, c, d) by {
            if 1 <= d {
                assert(order[d - 1] == d);
            }
        }
    }
}

/// The digits from 1 to 9 in ascending order.
pub fn ascending_order() -> (order: [i32; 9])
    ensures
        values_of(order) == ascending(),
{
    [1, 2, 3, 4, 5, 6, 7, 8, 9]
}

/// Rearranges the nine entries at random.
///
/// Calls `rand::seq::SliceRandom::shuffle` with the generator that
/// `rand::thread_rng` hands out. The contract claims that the call only moves
/// entries: afterwards the array holds the entries it held before, each as
/// often as before. Nothing is claimed about which arrangement comes out. The
/// call fails only where the operating system cannot seed the generator.
#[verifier::external_body]
fn shuffle_entries(order: &mut [i32; 9])
    ensures
        final(order)@.to_multiset() == old(order)@.to_multiset(),
{
    order.shuffle(&mut rand::thread_rng());
}

/// The digits from 1 to 9 in an order drawn at random.
pub fn random_order() -> (order: [i32; 9])
    ensures
        is_digit_permutation(values_of(order)),
{
    let mut order: [i32; 9] = ascending_order();
    let ghost before = order;
    shuffle_entries(&mut order);
    proof {
        let a = before@;
        let o = order@;
        assert forall|k: int| 0 <= k < 9 implies #[trigger] a[k] == k + 1 by {
            assert(values_of(before)[k] == k + 1);
        }
        a.to_multiset_ensures();
        o.to_multiset_ensures();
        a.lemma_multiset_has_no_duplicates();
        o.lemma_multiset_has_no_duplicates_conv();
        assert forall|k: int| 0 <= k < 9 implies 1 <= #[trigger] values_of(order)[k] <= 9 by {
            assert(o.to_multiset().count(o[k]) > 0);
        }
        assert forall|d: int| 1 <= d <= 9 implies values_of(order).contains(d) by {
            assert(a[d - 1] == d as i32);
            assert(a.to_multiset().count(d as i32) > 0);
            let k = choose|k: int| 0 <= k < 9 && o[k] == d as i32;
            assert(values_of(order)[k] == d);
        }
    }
    order
}

/// Proposes a digit for the empty cell `(i, j)`: the first entry of `order`
/// that is a digit from 1 to 9, is not marked in `set` and clashes with
/// nothing in the row, the column and the box of the cell.
///
/// The digit is tested on a copy of `grid`; neither `grid` nor `set` changes.
pub fn get_unvisited_coord(set: &[bool; 9], i: i32, j: i32, grid: &Grid, order: &[i32; 9]) -> (found:
    Option<i32>)
    requires
        in_grid(i as int, j as int),
    ensures
        first_candidate(values_of(*order), digits_of(*set), grid_view(*grid), i as int, j as int)
            == match found {
            Some(v) => Some(v as int),
            None => None::<int>,
        },
{
    let ghost o = values_of(*order);
    let ghost tried = digits_of(*set);
    let ghost b = grid_view(*grid);
    let mut k: usize = 0;
    while k < 9
        invariant
            k <= 9,
            in_grid(i as int, j as int),
            o == values_of(*order),
            tried == digits_of(*set),
            b == grid_view(*grid),
            first_candidate(o, tried, b, i as int, j as int) == candidate_from(
                o,
                k as int,
                tried,
                b,
                i as int,
                j as int,
            ),
        decreases 9 - k,
    {
        let n: i32 = order[k];
        if 1 <= n && n <= 9 && !set[(n - 1) as usize] {
            let mut g: Grid = *grid;
            set_cell(&mut g, i as usize, j as usize, n);
            if is_valid_cell(i, j, &g) {
                return Some(n);
            }
        }
        k += 1;
    }
    None
}

} // verus!
