//! Nearest-neighbour tour construction.
//!
//! Distances enter as integer keys whose order is the order of the distances
//! (for non-negative floating-point distances, their bit patterns), so the
//! construction compares keys only.
use vstd::prelude::*;
use crate::tour::{is_tour, lemma_distinct_indices_len, Route};

verus! {

/// `keys` is an `n x n` matrix: `keys[a][b]` orders the distance from `a` to `b`.
pub open spec fn is_key_matrix(keys: Seq<Vec<u64>>) -> bool {
    forall|a: int| 0 <= a < keys.len() ==> (#[trigger] keys[a]).len() == keys.len()
}

/// `c` is the city a nearest-neighbour step takes from `from` when the cities in
/// `visited` are already on the route: an unvisited city at the least key,
/// the lowest index among those at that key.
pub open spec fn is_nearest_step(keys: Seq<Vec<u64>>, from: usize, visited: Seq<usize>, c: usize) -> bool {
    &&& c < keys.len()
    &&& !visited.contains(c)
    &&& forall|x: usize| #![trigger keys[from as int]@[x as int]]
            x < keys.len() && !visited.contains(x) ==> keys[from as int]@[c as int] <= keys[from as int]@[x as int]
    &&& forall|x: usize| #![trigger keys[from as int]@[x as int]]
            x < c && !visited.contains(x) ==> keys[from as int]@[c as int] < keys[from as int]@[x as int]
}

/// `route` starts at city 0 and each later city is the nearest-neighbour step
/// from the one before it.
pub open spec fn is_greedy_route(keys: Seq<Vec<u64>>, route: Seq<usize>) -> bool {
    &&& route.len() >= 1
    &&& route[0] == 0
    &&& forall|t: int| #![trigger route[t]]
            1 <= t < route.len() ==> is_nearest_step(keys, route[t - 1], route.take(t), route[t])
}

/// The nearest-neighbour step is unique.
pub proof fn lemma_nearest_step_unique(keys: Seq<Vec<u64>>, from: usize, visited: Seq<usize>, c1: usize, c2: usize)
    requires
        is_nearest_step(keys, from, visited, c1),
        is_nearest_step(keys, from, visited, c2),
    ensures
        c1 == c2,
{
    if c1 < c2 {
        assert(keys[from as int]@[c2 as int] < keys[from as int]@[c1 as int]);
        assert(keys[from as int]@[c1 as int] <= keys[from as int]@[c2 as int]);
    } else if c2 < c1 {
        assert(keys[from as int]@[c1 as int] < keys[from as int]@[c2 as int]);
        assert(keys[from as int]@[c2 as int] <= keys[from as int]@[c1 as int]);
    }
}

/// The keys determine the nearest-neighbour route: two such routes of the
/// same length are equal.
pub proof fn lemma_greedy_route_unique(keys: Seq<Vec<u64>>, r1: Seq<usize>, r2: Seq<usize>)
    requires
        is_greedy_route(keys, r1),
        is_greedy_route(keys, r2),
        r1.len() == r2.len(),
    ensures
        r1 == r2,
{
    lemma_greedy_prefixes_equal(keys, r1, r2, r1.len() as int);
    assert(r1 =~= r1.take(r1.len() as int));
    assert(r2 =~= r2.take(r2.len() as int));
}

proof fn lemma_greedy_prefixes_equal(keys: Seq<Vec<u64>>, r1: Seq<usize>, r2: Seq<usize>, t: int)
    requires
        is_greedy_route(keys, r1),
        is_greedy_route(keys, r2),
        r1.len() == r2.len(),
        1 <= t <= r1.len(),
    ensures
        r1.take(t) == r2.take(t),
    decreases t,
{
    if t == 1 {
        assert(r1.take(1) =~= r2.take(1)) by {
            assert(r1[0] == r2[0]);
        }
    } else {
        let s = t - 1;
        lemma_greedy_prefixes_equal(keys, r1, r2, s);
        assert(r1[s - 1] == r1.take(s)[s - 1]);
        assert(r2[s - 1] == r2.take(s)[s - 1]);
        assert(is_nearest_step(keys, r1[s - 1], r1.take(s), r1[s]));
        assert(is_nearest_step(keys, r2[s - 1], r2.take(s), r2[s]));
        lemma_nearest_step_unique(keys, r1[s - 1], r1.take(s), r1[s], r2[s]);
        assert(r1.take(t) =~= r1.take(s).push(r1[s]));
        assert(r2.take(t) =~= r2.take(s).push(r2[s]));
    }
}

/// Index of the unvisited entry of `row` with the least key (lowest index on
/// ties), or `None` when every entry is visited.
pub fn nearest_unvisited(row: &Vec<u64>, visited: &Vec<bool>) -> (res: Option<usize>)
    requires
        row.len() == visited.len(),
    ensures
        res is None <==> forall|x: int| 0 <= x < visited.len() ==> visited@[x],
        res matches Some(c) ==> {
            &&& c < row.len()
            &&& !visited@[c as int]
            &&& forall|x: int| 0 <= x < row.len() && !visited@[x] ==> row@[c as int] <= row@[x]
            &&& forall|x: int| 0 <= x < c && !visited@[x] ==> row@[c as int] < row@[x]
        },
{
    let mut best: Option<usize> = None;
    let mut i: usize = 0;
    while i < row.len()
        invariant
            i <= row.len(),
            row.len() == visited.len(),
            best is None <==> forall|x: int| 0 <= x < i ==> visited@[x],
            best matches Some(c) ==> {
                &&& c < i
                &&& !visited@[c as int]
                &&& forall|x: int| 0 <= x < i && !visited@[x] ==> row@[c as int] <= row@[x]
                &&& forall|x: int| 0 <= x < c && !visited@[x] ==> row@[c as int] < row@[x]
            },
        decreases row.len() - i,
    {
        if !visited[i] {
            match best {
                None => {
                    best = Some(i);
                },
                Some(c) => {
                    if row[i] < row[c] {
                        best = Some(i);
                    }
                },
            }
        }
        i = i + 1;
    }
    best
}

/// Builds a route from city 0 by always moving to the nearest unvisited city.
/// With no cities the route is `[0]`.
pub fn greedy(keys: &Vec<Vec<u64>>) -> (route: Route)
    requires
        is_key_matrix(keys@),
    ensures
        keys.len() == 0 ==> route@ == seq![0usize],
        keys.len() > 0 ==> is_tour(route@, keys.len() as nat),
        is_greedy_route(keys@, route@),
{
    let n = keys.len();
    let mut route: Vec<usize> = Vec::new();
    route.push(0);
    if n == 0 {
        assert(route@ =~= seq![0usize]);
        return route;
    }
    let mut visited: Vec<bool> = Vec::new();
    let mut k: usize = 0;
    while k < n
        invariant
            k <= n,
            visited.len() == k,
            forall|x: int| 0 <= x < k ==> visited@[x] == (x == 0),
        decreases n - k,
    {
        visited.push(k == 0);
        k = k + 1;
    }
    let mut current: usize = 0;
    assert(route@.take(1) =~= route@);
    assert forall|x: int| 0 <= x < n implies visited@[x] == route@.contains(x as usize) by {
        if x == 0 {
            assert(route@[0] == 0);
        }
    }
    loop
        invariant
            n == keys.len(),
            n > 0,
            is_key_matrix(keys@),
            visited.len() == n,
            route.len() >= 1,
            route.len() <= n,
            current == route@.last(),
            route@.no_duplicates(),
            forall|t: int| 0 <= t < route.len() ==> (#[trigger] route@[t]) < n,
            forall|x: int| 0 <= x < n ==> visited@[x] == route@.contains(x as usize),
            is_greedy_route(keys@, route@),
        decreases n - route.len(),
    {
        match nearest_unvisited(&keys[current], &visited) {
            None => {
                proof {
                    assert forall|x: usize| (x as nat) < n implies #[trigger] route@.contains(x) by {
                        assert(visited@[x as int]);
                    }
                    lemma_distinct_indices_len(route@, n as nat);
                }
                return route;
            },
            Some(c) => {
                let ghost prev = route@;
                proof {
                    assert forall|x: usize| x < n && !prev.contains(x) implies keys@[current as int]@[c as int]
                        <= keys@[current as int]@[x as int] by {
                        assert(!visited@[x as int]);
                    }
                    assert forall|x: usize| x < c && !prev.contains(x) implies keys@[current as int]@[c as int]
                        < keys@[current as int]@[x as int] by {
                        assert(!visited@[x as int]);
                    }
                    assert(is_nearest_step(keys@, current, prev, c));
                }
                route.push(c);
                visited.set(c, true);
                current = c;
                proof {
                    assert(route@.take(prev.len() as int) =~= prev);
                    assert forall|t: int| #![trigger route@[t]] 1 <= t < route.len() implies is_nearest_step(
                        keys@,
                        route@[t - 1],
                        route@.take(t),
                        route@[t],
                    ) by {
                        if t < prev.len() {
                            assert(route@.take(t) =~= prev.take(t));
                            assert(prev[t] == route@[t]);
                        }
                    }
                    assert forall|x: int| 0 <= x < n implies visited@[x] == route@.contains(x as usize) by {
                        if x == c {
                            assert(route@[prev.len() as int] == c);
                        } else if prev.contains(x as usize) {
                            let w = choose|w: int| 0 <= w < prev.len() && prev[w] == x as usize;
                            assert(route@[w] == x as usize);
                        } else {
                            if route@.contains(x as usize) {
                                let w = choose|w: int| 0 <= w < route.len() && route@[w] == x as usize;
                                assert(w < prev.len());
                                assert(prev[w] == x as usize);
                            }
                        }
                    }
                    lemma_distinct_indices_len(route@, n as nat);
                }
            },
        }
    }
}

} // verus!
