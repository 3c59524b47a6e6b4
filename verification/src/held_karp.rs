//! Route recovery for the Held-Karp dynamic program over subsets of cities.
//!
//! The dynamic program fills `backtrack[current][unvisited]` with the city to
//! move to from `current` when the cities in the bit set `unvisited` remain.
//! Filling the table compares floating-point path lengths and stays with the
//! caller; walking the table from city 0 is the logic here.
use vstd::prelude::*;
use crate::tour::{is_tour, lemma_distinct_indices_len, lemma_tour_contains, Route};

verus! {

/// Bit `k` of `u` is set.
pub open spec fn has_bit(u: usize, k: usize) -> bool {
    (u >> k) & 1usize == 1usize
}

/// The bit set of all cities `0..n`.
pub open spec fn all_cities_mask(n: usize) -> usize {
    ((1usize << n) - 1) as usize
}

/// `backtrack` is an `n x 2^n` table for `1 <= n` cities.
pub open spec fn is_backtrack_table(backtrack: Seq<Vec<usize>>) -> bool {
    let n = backtrack.len() as usize;
    &&& 1 <= backtrack.len() < usize::BITS
    &&& forall|c: int| 0 <= c < n ==> (#[trigger] backtrack[c]).len() == (1usize << n)
}

/// The entry for city `c` and unvisited-set `u` names a city of `u`.
pub open spec fn is_valid_step(backtrack: Seq<Vec<usize>>, c: usize, u: usize) -> bool {
    &&& backtrack[c as int]@[u as int] < backtrack.len()
    &&& has_bit(u, backtrack[c as int]@[u as int])
}

/// For every city `c` and every non-empty set `u` of cities not holding `c`,
/// the table names a city of `u`: what the dynamic program fills in when all
/// path lengths are finite.
pub open spec fn is_complete_backtrack(backtrack: Seq<Vec<usize>>) -> bool {
    let n = backtrack.len() as usize;
    &&& is_backtrack_table(backtrack)
    &&& forall|c: usize, u: usize|
            #![trigger backtrack[c as int]@[u as int]]
            c < n && 0 < u < (1usize << n) && !has_bit(u, c) ==> is_valid_step(backtrack, c, u)
}

/// The walk through the table after `k` moves: the route so far and the set
/// of cities left unvisited. It starts at city 0 with every other city
/// unvisited; each move goes to the entry for the current city and the
/// unvisited set, and toggles that city's bit.
pub open spec fn walk(backtrack: Seq<Vec<usize>>, k: nat) -> (Seq<usize>, usize)
    decreases k,
{
    if k == 0 {
        (seq![0usize], all_cities_mask(backtrack.len() as usize) ^ (1usize << 0usize))
    } else {
        let prev = walk(backtrack, (k - 1) as nat);
        let next = backtrack[prev.0.last() as int]@[prev.1 as int];
        (prev.0.push(next), prev.1 ^ (1usize << next))
    }
}

/// The move after `k` moves can be made: the table has an entry for the
/// current city and the unvisited set, and that entry is a bit position.
pub open spec fn can_move(backtrack: Seq<Vec<usize>>, k: nat) -> bool {
    let s = walk(backtrack, k);
    &&& s.0.last() < backtrack.len()
    &&& s.1 < backtrack[s.0.last() as int].len()
    &&& backtrack[s.0.last() as int]@[s.1 as int] < usize::BITS
}

/// The walk ends after `k` moves: every earlier state leaves a city unvisited
/// and allows its move, and after `k` moves no city is left.
pub open spec fn walk_ends_at(backtrack: Seq<Vec<usize>>, k: nat) -> bool {
    &&& forall|j: nat| j < k ==> (#[trigger] walk(backtrack, j)).1 != 0 && can_move(backtrack, j)
    &&& walk(backtrack, k).1 == 0
}

/// Moves the walk is followed for: the number of (city, unvisited set) states.
pub open spec fn walk_limit(backtrack: Seq<Vec<usize>>) -> int {
    backtrack.len() * ((1usize << (backtrack.len() as usize)) as int)
}

/// The cities left unvisited after the first `t` moves of `route`: every city
/// but 0 at the start, each move toggling the bit of the city it goes to.
pub open spec fn unvisited_after_moves(n: usize, route: Seq<usize>, t: int) -> usize
    decreases t,
{
    if t <= 0 {
        ((((1usize << n) - 1) as usize) ^ 1usize)
    } else {
        unvisited_after_moves(n, route, t - 1) ^ (1usize << route[t])
    }
}

proof fn lemma_first_bit_mask()
    by (bit_vector)
    ensures
        1usize << 0usize == 1usize,
{
}

proof fn lemma_walk_prefix(backtrack: Seq<Vec<usize>>, k: nat, t: nat)
    requires
        t <= k,
    ensures
        walk(backtrack, k).0.len() == k + 1,
        walk(backtrack, k).0.take((t + 1) as int) == walk(backtrack, t).0,
    decreases k,
{
    if k > 0 {
        let j = (k - 1) as nat;
        lemma_walk_prefix(backtrack, j, if t <= j { t } else { j });
        let prev = walk(backtrack, j).0;
        assert(walk(backtrack, k).0 == prev.push(backtrack[prev.last() as int]@[walk(backtrack, j).1 as int]));
        if t <= j {
            assert(walk(backtrack, k).0.take((t + 1) as int) =~= prev.take((t + 1) as int));
        } else {
            assert(walk(backtrack, k).0.take((t + 1) as int) =~= walk(backtrack, k).0);
        }
    } else {
        assert(walk(backtrack, 0).0.take(1) =~= walk(backtrack, 0).0);
    }
}

/// A walk that ends moves by the table: it starts at city 0, each move goes
/// to the table's entry for the city just reached and the cities still
/// unvisited, and only after the last move is no city left.
pub proof fn lemma_walk_moves_by_table(backtrack: Seq<Vec<usize>>, k: nat)
    requires
        walk_ends_at(backtrack, k),
    ensures
        walk(backtrack, k).0.len() == k + 1,
        walk(backtrack, k).0[0] == 0,
        forall|t: int| 0 <= t < k ==> #[trigger] unvisited_after_moves(backtrack.len() as usize, walk(backtrack, k).0, t) != 0,
        forall|t: int| 0 <= t < k ==> #[trigger] walk(backtrack, k).0[t + 1] == backtrack[walk(backtrack, k).0[t] as int]@[unvisited_after_moves(
                backtrack.len() as usize,
                walk(backtrack, k).0,
                t,
            ) as int],
        unvisited_after_moves(backtrack.len() as usize, walk(backtrack, k).0, k as int) == 0,
{
    let route = walk(backtrack, k).0;
    let n = backtrack.len() as usize;
    lemma_walk_prefix(backtrack, k, 0);
    lemma_first_bit_mask();
    assert(route[0] == walk(backtrack, 0).0[0]);
    lemma_walk_masks(backtrack, k, k);
    assert forall|t: int| 0 <= t < k implies #[trigger] unvisited_after_moves(backtrack.len() as usize, walk(backtrack, k).0, t) != 0 by {
        lemma_walk_masks(backtrack, k, t as nat);
        assert(walk(backtrack, t as nat).1 != 0);
    }
    assert forall|t: int| 0 <= t < k implies #[trigger] walk(backtrack, k).0[t + 1] == backtrack[walk(backtrack, k).0[t] as int]@[unvisited_after_moves(
            backtrack.len() as usize,
            walk(backtrack, k).0,
            t,
        ) as int] by {
        lemma_walk_masks(backtrack, k, t as nat);
        lemma_walk_prefix(backtrack, k, t as nat);
        lemma_walk_prefix(backtrack, k, (t + 1) as nat);
        let p = walk(backtrack, t as nat);
        assert(walk(backtrack, (t + 1) as nat).0 == p.0.push(backtrack[p.0.last() as int]@[p.1 as int]));
        assert(route[t] == route.take((t + 1) as int)[t]);
        assert(route[t + 1] == route.take((t + 2) as int)[t + 1]);
        assert(walk(backtrack, t as nat).1 != 0);
    }
}

proof fn lemma_walk_masks(backtrack: Seq<Vec<usize>>, k: nat, t: nat)
    requires
        t <= k,
    ensures
        walk(backtrack, t).1 == unvisited_after_moves(backtrack.len() as usize, walk(backtrack, k).0, t as int),
    decreases t,
{
    lemma_first_bit_mask();
    let n = backtrack.len() as usize;
    if t > 0 {
        lemma_walk_masks(backtrack, k, (t - 1) as nat);
        lemma_walk_prefix(backtrack, k, t);
        lemma_walk_prefix(backtrack, (t - 1) as nat, 0);
        let p = walk(backtrack, (t - 1) as nat);
        let next = backtrack[p.0.last() as int]@[p.1 as int];
        assert(walk(backtrack, t) == (p.0.push(next), p.1 ^ (1usize << next)));
        assert(walk(backtrack, k).0[t as int] == walk(backtrack, k).0.take((t + 1) as int)[t as int]);
        assert(walk(backtrack, t).0[t as int] == next);
    }
}

/// A walk ends after at most one number of moves.
pub proof fn lemma_walk_end_unique(backtrack: Seq<Vec<usize>>, k1: nat, k2: nat)
    requires
        walk_ends_at(backtrack, k1),
        walk_ends_at(backtrack, k2),
    ensures
        k1 == k2,
{
    if k1 < k2 {
        assert(walk(backtrack, k1).1 != 0);
    } else if k2 < k1 {
        assert(walk(backtrack, k2).1 != 0);
    }
}

proof fn lemma_toggle_bit(u: usize, k: usize, j: usize)
    by (bit_vector)
    requires
        k < usize::BITS,
        j < usize::BITS,
    ensures
        has_bit(u ^ (1usize << k), j) == (if j == k { !has_bit(u, j) } else { has_bit(u, j) }),
{
}

proof fn lemma_clear_bit_decreases(u: usize, k: usize)
    by (bit_vector)
    requires
        k < usize::BITS,
        has_bit(u, k),
    ensures
        (u ^ (1usize << k)) < u,
{
}

proof fn lemma_all_cities_mask_bit(n: usize, j: usize)
    by (bit_vector)
    requires
        n < usize::BITS,
        j < usize::BITS,
    ensures
        has_bit(((1usize << n) - 1) as usize, j) == (j < n),
        (((1usize << n) - 1) as usize) < (1usize << n),
        1usize <= (1usize << n),
{
}

proof fn lemma_empty_mask_bit(j: usize)
    by (bit_vector)
    ensures
        !has_bit(0usize, j),
{
}

proof fn lemma_low_bit(u: usize)
    by (bit_vector)
    requires
        u & 1usize == 1usize,
    ensures
        has_bit(u, 0),
{
}

proof fn lemma_shift_down(u: usize, b: usize)
    by (bit_vector)
    requires
        u != 0,
        u & 1usize != 1usize,
        b + 1 < usize::BITS,
    ensures
        (u >> 1usize) != 0,
        (u >> 1usize) < u,
        !has_bit(u >> 1usize, (usize::BITS - 1) as usize),
        has_bit(u >> 1usize, b) == has_bit(u, (b + 1) as usize),
{
}

proof fn lemma_nonzero_has_bit(u: usize) -> (b: usize)
    requires
        u != 0,
    ensures
        b < usize::BITS,
        has_bit(u, b),
    decreases u,
{
    if u & 1usize == 1usize {
        lemma_low_bit(u);
        0
    } else {
        lemma_shift_down(u, 0);
        let c = lemma_nonzero_has_bit(u >> 1usize);
        assert(c + 1 < usize::BITS);
        lemma_shift_down(u, c);
        (c + 1) as usize
    }
}

/// Along a complete table, the first `j + 1` cities of the walk are distinct,
/// the unvisited set holds exactly the cities not yet on the route, and every
/// earlier move could be made.
proof fn lemma_complete_walk(backtrack: Seq<Vec<usize>>, j: nat)
    requires
        is_complete_backtrack(backtrack),
        j < backtrack.len(),
    ensures
        walk(backtrack, j).0.len() == j + 1,
        walk(backtrack, j).0[0] == 0,
        walk(backtrack, j).0.no_duplicates(),
        forall|t: int| 0 <= t < walk(backtrack, j).0.len() ==> (#[trigger] walk(backtrack, j).0[t]) < backtrack.len(),
        forall|b: usize| b < usize::BITS ==> (has_bit(walk(backtrack, j).1, b) <==> (b < backtrack.len()
            && !walk(backtrack, j).0.contains(b))),
        walk(backtrack, j).1 < (1usize << (backtrack.len() as usize)),
        forall|i: nat| i < j ==> (#[trigger] walk(backtrack, i)).1 != 0 && can_move(backtrack, i),
    decreases j,
{
    let n = backtrack.len() as usize;
    lemma_all_cities_mask_bit(n, 0);
    if j == 0 {
        let s = walk(backtrack, 0);
        let first = all_cities_mask(n);
        lemma_clear_bit_decreases(first, 0);
        assert forall|b: usize| b < usize::BITS implies (has_bit(s.1, b) <==> (b < n && !s.0.contains(b))) by {
            lemma_toggle_bit(first, 0, b);
            lemma_all_cities_mask_bit(n, b);
            if b == 0 {
                assert(s.0[0] == 0);
            }
        }
    } else {
        let k = (j - 1) as nat;
        lemma_complete_walk(backtrack, k);
        let p = walk(backtrack, k);
        let r = p.0;
        let u = p.1;
        let cur = r.last();
        // some city is still missing, so the unvisited set is not empty
        if forall|c: usize| (c as nat) < n ==> #[trigger] r.contains(c) {
            lemma_distinct_indices_len(r, n as nat);
            assert(false);
        }
        let c = choose|c: usize| (c as nat) < n && !(#[trigger] r.contains(c));
        assert(has_bit(u, c));
        if u == 0 {
            lemma_empty_mask_bit(c);
        }
        assert(r.contains(cur)) by {
            assert(r[r.len() - 1] == cur);
        }
        assert(!has_bit(u, cur));
        assert(is_valid_step(backtrack, cur, u));
        let next = backtrack[cur as int]@[u as int];
        assert(can_move(backtrack, k));
        let s = walk(backtrack, j);
        assert(s.0 == r.push(next));
        assert(s.1 == u ^ (1usize << next));
        lemma_clear_bit_decreases(u, next);
        assert forall|b: usize| b < usize::BITS implies (has_bit(s.1, b) <==> (b < n && !s.0.contains(b))) by {
            lemma_toggle_bit(u, next, b);
            if s.0.contains(b) && b != next {
                let w = choose|w: int| 0 <= w < s.0.len() && s.0[w] == b;
                assert(w < r.len());
                assert(r[w] == b);
            }
            if r.contains(b) {
                let w = choose|w: int| 0 <= w < r.len() && r[w] == b;
                assert(s.0[w] == b);
            }
            if b == next {
                assert(s.0[r.len() as int] == b);
            }
        }
        assert(!r.contains(next));
        assert forall|i: nat| i < j implies (#[trigger] walk(backtrack, i)).1 != 0 && can_move(backtrack, i) by {
            if i == k {
            }
        }
    }
}

/// Along a complete table the walk ends after `n - 1` moves, with a tour.
pub proof fn lemma_complete_walk_is_tour(backtrack: Seq<Vec<usize>>)
    requires
        is_complete_backtrack(backtrack),
    ensures
        walk_ends_at(backtrack, (backtrack.len() - 1) as nat),
        is_tour(walk(backtrack, (backtrack.len() - 1) as nat).0, backtrack.len() as nat),
{
    let n = backtrack.len();
    let k = (n - 1) as nat;
    lemma_complete_walk(backtrack, k);
    let s = walk(backtrack, k);
    assert(is_tour(s.0, n as nat));
    if s.1 != 0 {
        let b = lemma_nonzero_has_bit(s.1);
        lemma_tour_contains(s.0, n as nat, b);
        assert(false);
    }
}

/// Follows the walk through the table from city 0, as the route recovery of
/// the Held-Karp program does: from the current city, move to its entry for
/// the unvisited set and toggle that city's bit, until no city is left.
/// `Some` with the route when the walk ends within `walk_limit` moves;
/// `None` when it does not: it reaches an entry the table does not have, an
/// entry that is no bit position, or runs on. Along a complete table (the one
/// the program fills when all path lengths are finite) the walk ends with a
/// tour.
pub fn held_karp_route(backtrack: &Vec<Vec<usize>>) -> (res: Option<Route>)
    requires
        is_backtrack_table(backtrack@),
    ensures
        res matches Some(route) ==> exists|k: nat|
            k <= walk_limit(backtrack@) && walk_ends_at(backtrack@, k) && route@ == #[trigger] walk(backtrack@, k).0,
        res matches Some(route) ==> route@.len() >= 1 && route@[0] == 0 && unvisited_after_moves(
            backtrack.len(),
            route@,
            route.len() - 1,
        ) == 0,
        res matches Some(route) ==> forall|t: int| 0 <= t < route.len() - 1 ==> #[trigger] unvisited_after_moves(
            backtrack.len(),
            route@,
            t,
        ) != 0,
        res matches Some(route) ==> forall|t: int| 0 <= t < route.len() - 1 ==> #[trigger] route@[t + 1]
            == backtrack@[route@[t] as int]@[unvisited_after_moves(backtrack.len(), route@, t) as int],
        res is None ==> forall|k: nat| k <= walk_limit(backtrack@) ==> !#[trigger] walk_ends_at(backtrack@, k),
        is_complete_backtrack(backtrack@) ==> (res matches Some(route) && is_tour(route@, backtrack.len() as nat)
            && route@ == walk(backtrack@, (backtrack.len() - 1) as nat).0),
{
    let n = backtrack.len();
    proof {
        lemma_all_cities_mask_bit(n, 0);
    }
    let full: usize = 1usize << n;
    assert((n as u128) * (full as u128) <= u128::MAX) by (nonlinear_arith)
        requires
            n <= usize::MAX,
            full <= usize::MAX,
            usize::MAX < 0x1_0000_0000_0000_0000,
    ;
    let limit: u128 = (n as u128) * (full as u128);
    let mut current: usize = 0;
    let mut unvisited: usize = (full - 1) ^ (1usize << current);
    let mut route: Vec<usize> = Vec::new();
    route.push(current);
    let mut steps: u128 = 0;
    assert(route@ =~= seq![0usize]);
    proof {
        if is_complete_backtrack(backtrack@) {
            lemma_complete_walk_is_tour(backtrack@);
            assert(n - 1 <= limit) by (nonlinear_arith)
                requires
                    limit == n * full,
                    full >= 1,
                    n >= 1,
            ;
        }
    }
    while unvisited != 0
        invariant
            n == backtrack.len(),
            is_backtrack_table(backtrack@),
            full == (1usize << n),
            limit == walk_limit(backtrack@),
            steps <= limit,
            route@ == walk(backtrack@, steps as nat).0,
            unvisited == walk(backtrack@, steps as nat).1,
            current == route@.last(),
            forall|j: nat| j < steps ==> (#[trigger] walk(backtrack@, j)).1 != 0 && can_move(backtrack@, j),
            is_complete_backtrack(backtrack@) ==> walk_ends_at(backtrack@, (n - 1) as nat) && n - 1 <= limit,
        decreases limit - steps,
    {
        if steps >= limit || current >= n || unvisited >= backtrack[current].len() {
            proof {
                assert forall|k: nat| k <= walk_limit(backtrack@) implies !#[trigger] walk_ends_at(backtrack@, k) by {
                    if k > steps {
                        assert(!can_move(backtrack@, steps as nat));
                    }
                }
            }
            return None;
        }
        let next = backtrack[current][unvisited];
        if next >= usize::BITS as usize {
            proof {
                assert forall|k: nat| k <= walk_limit(backtrack@) implies !#[trigger] walk_ends_at(backtrack@, k) by {
                    if k > steps {
                        assert(!can_move(backtrack@, steps as nat));
                    }
                }
            }
            return None;
        }
        let ghost before = steps as nat;
        assert(can_move(backtrack@, before));
        route.push(next);
        current = next;
        unvisited = unvisited ^ (1usize << next);
        steps = steps + 1;
        assert(walk(backtrack@, steps as nat) == (walk(backtrack@, before).0.push(next), walk(backtrack@, before).1 ^ (1usize << next)));
    }
    proof {
        assert(walk_ends_at(backtrack@, steps as nat));
        lemma_walk_moves_by_table(backtrack@, steps as nat);
        if is_complete_backtrack(backtrack@) {
            lemma_walk_end_unique(backtrack@, steps as nat, (n - 1) as nat);
            lemma_complete_walk_is_tour(backtrack@);
        }
    }
    Some(route)
}

} // verus!
