//! 2-opt moves: reversing the segment `route[i..j]` replaces the edges
//! `(route[i-1], route[i])` and `(route[j-1], route[j])` by
//! `(route[i-1], route[j-1])` and `(route[i], route[j])`, position `i - 1`
//! wrapping around to the end of the route when `i` is 0.
use vstd::prelude::*;
use crate::tour::{is_tour, lemma_reversed_segment_is_tour, reverse_segment, reversed_segment};

verus! {

/// The cities at the four positions a 2-opt move between positions `i` and
/// `j` compares.
#[derive(Clone, Copy, Debug, PartialEq, Eq)]
pub struct MoveCities {
    /// City before position `i` (cyclically).
    pub before_start: usize,
    /// City at position `i`.
    pub start: usize,
    /// City at position `j - 1`.
    pub before_end: usize,
    /// City at position `j`.
    pub end: usize,
}

/// Position before `i` on a cyclic route of length `n`.
pub open spec fn cyclic_pred(n: int, i: int) -> int {
    if i == 0 { n - 1 } else { i - 1 }
}

/// Orders two drawn positions; the move exists when they are at least two
/// apart, and is then given smaller position first.
pub fn ordered_move(a: usize, b: usize) -> (m: Option<(usize, usize)>)
    ensures
        m is Some <==> (if a < b { a + 1 < b } else { b + 1 < a }),
        m matches Some(p) ==> p.0 == (if a < b { a } else { b }) && p.1 == (if a < b { b } else { a }),
{
    let i = if a < b { a } else { b };
    let j = if a < b { b } else { a };
    if j - i > 1 {
        Some((i, j))
    } else {
        None
    }
}

/// The cities a 2-opt move between positions `i < j` of `route` compares.
pub fn move_cities(route: &Vec<usize>, i: usize, j: usize) -> (c: MoveCities)
    requires
        i < j < route.len(),
    ensures
        c.before_start == route@[cyclic_pred(route.len() as int, i as int)],
        c.start == route@[i as int],
        c.before_end == route@[j - 1],
        c.end == route@[j as int],
{
    let n = route.len();
    let i2 = if i == 0 { n - 1 } else { i - 1 };
    MoveCities { before_start: route[i2], start: route[i], before_end: route[j - 1], end: route[j] }
}

/// Applies the 2-opt move between positions `i` and `j`: reverses `route[i..j]`.
/// A tour stays a tour of the same cities.
pub fn apply_move(route: &mut Vec<usize>, i: usize, j: usize)
    requires
        i <= j <= old(route).len(),
    ensures
        final(route)@ == reversed_segment(old(route)@, i as int, j as int),
        final(route)@.len() == old(route)@.len(),
        forall|k: int| i <= k < j ==> #[trigger] final(route)@[k] == old(route)@[i + j - 1 - k],
        forall|k: int| 0 <= k < old(route)@.len() && !(i <= k < j) ==> #[trigger] final(route)@[k] == old(route)@[k],
        forall|n: nat| is_tour(old(route)@, n) ==> is_tour(final(route)@, n),
{
    let ghost before = route@;
    reverse_segment(route, i, j);
    proof {
        assert forall|n: nat| is_tour(before, n) implies is_tour(route@, n) by {
            lemma_reversed_segment_is_tour(before, n, i as int, j as int);
        }
    }
}

} // verus!
