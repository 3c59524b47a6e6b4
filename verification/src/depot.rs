//! Post-processing of a closed tour returned by a solver: rotating it so that
//! it starts at the depot (city 0), and listing the legs whose distances make
//! up the reported length.
use vstd::prelude::*;
use itertools::Itertools;
use crate::tour::is_tour;

verus! {

/// Whether `city` is the depot.
pub fn is_depot(city: usize) -> (b: bool)
    ensures
        b == (city == 0),
{
    city == 0
}

/// `k` is the first position of the depot in `route`.
pub open spec fn is_first_depot(route: Seq<usize>, k: int) -> bool {
    &&& 0 <= k < route.len()
    &&& route[k] == 0
    &&& forall|j: int| 0 <= j < k ==> route[j] != 0
}

/// Position of the first depot in `route`, found with
/// `itertools::Itertools::find_position`, which returns the position of the
/// first element satisfying the predicate, or `None` when none does.
#[verifier::external_body]
fn first_depot_position(route: &Vec<usize>) -> (pos: Option<usize>)
    ensures
        pos matches Some(k) ==> is_first_depot(route@, k as int),
        pos is None ==> !route@.contains(0usize),
{
    route.iter().find_position(|&&c| is_depot(c)).map(|(k, _)| k)
}

/// Rotates a closed tour (whose last entry repeats its first) into an open
/// route starting at the depot: drops the closing entry, then moves the
/// cities before the first depot to the end.
pub fn rotate_to_depot(closed: Vec<usize>) -> (route: Vec<usize>)
    requires
        closed.len() >= 1,
        closed@.drop_last().contains(0usize),
    ensures
        exists|k: int|
            is_first_depot(closed@.drop_last(), k) && route@ == closed@.drop_last().subrange(
                k,
                closed.len() - 1,
            ) + closed@.drop_last().subrange(0, k),
{
    let mut rest = closed;
    let ghost closed_view = rest@;
    rest.pop();
    let ghost open = rest@;
    assert(open == closed_view.drop_last());
    match first_depot_position(&rest) {
        Some(k) => {
            let mut route = rest.split_off(k);
            route.append(&mut rest);
            assert(is_first_depot(open, k as int));
            route
        },
        None => {
            proof {
                assert(false);
            }
            rest
        },
    }
}

/// Rotating a tour to start at its depot gives a tour of the same cities that
/// starts at the depot.
pub proof fn lemma_rotated_tour(route: Seq<usize>, n: nat, k: int)
    requires
        is_tour(route, n),
        is_first_depot(route, k),
    ensures
        is_tour(route.subrange(k, route.len() as int) + route.subrange(0, k), n),
        (route.subrange(k, route.len() as int) + route.subrange(0, k))[0] == 0,
{
    let len = route.len() as int;
    let r = route.subrange(k, len) + route.subrange(0, k);
    assert forall|t: int| 0 <= t < len implies #[trigger] r[t] == route[if t < len - k { t + k } else { t - (len - k) }] by {
    }
    assert forall|a: int, b: int| 0 <= a < len && 0 <= b < len && a != b implies r[a] != r[b] by {
        assert(r[a] == route[if a < len - k { a + k } else { a - (len - k) }]);
        assert(r[b] == route[if b < len - k { b + k } else { b - (len - k) }]);
    }
    assert forall|t: int| 0 <= t < len implies (#[trigger] r[t]) < n by {
        assert(r[t] == route[if t < len - k { t + k } else { t - (len - k) }]);
    }
}

/// The legs whose distances the depot-route solver adds up for a closed
/// tour `route`: the consecutive legs ending at positions `1..last`, then the
/// leg from position `last` back to position 0. (The leg from `last - 1` to
/// `last` is not among them.)
pub open spec fn summed_legs(route: Seq<usize>, last: int) -> Seq<(usize, usize)> {
    Seq::new(if last >= 1 { (last - 1) as nat } else { 0 }, |t: int| (route[t], route[t + 1])).push(
        (route[last], route[0]),
    )
}

/// The summed legs are, in order, the leg from position `t - 1` to `t` for
/// each `1 <= t < last`, whatever cities stand there, then the leg from
/// position `last` back to position 0.
pub proof fn lemma_summed_legs_positions(route: Seq<usize>, last: int)
    requires
        0 <= last < route.len(),
    ensures
        summed_legs(route, last).len() == if last >= 1 { last } else { 1 },
        forall|t: int| 1 <= t < last ==> #[trigger] summed_legs(route, last)[t - 1] == (route[t - 1], route[t]),
        summed_legs(route, last)[summed_legs(route, last).len() - 1] == (route[last], route[0]),
{
}

/// Lists the legs that [`summed_legs`] describes.
pub fn tour_legs(route: &Vec<usize>, last: usize) -> (legs: Vec<(usize, usize)>)
    requires
        last < route.len(),
    ensures
        legs@ == summed_legs(route@, last as int),
        legs.len() == if last >= 1 { last as int } else { 1 },
        forall|t: int| 1 <= t < last ==> #[trigger] legs@[t - 1] == (route@[t - 1], route@[t]),
        legs@[legs.len() - 1] == (route@[last as int], route@[0]),
{
    let mut legs: Vec<(usize, usize)> = Vec::new();
    let mut i: usize = 1;
    while i < last
        invariant
            1 <= i,
            i <= (if last == 0 { 1 } else { last }),
            last < route.len(),
            legs.len() == i - 1,
            forall|t: int| 0 <= t < legs.len() ==> #[trigger] legs@[t] == (route@[t], route@[t + 1]),
        decreases last - i,
    {
        legs.push((route[i - 1], route[i]));
        i = i + 1;
    }
    let ghost body = legs@;
    assert(body.len() == if last >= 1 { last - 1 } else { 0 });
    legs.push((route[last], route[0]));
    let ghost expected = summed_legs(route@, last as int);
    assert(expected.len() == legs.len());
    assert forall|t: int| 0 <= t < legs.len() implies legs@[t] == expected[t] by {
        if t < body.len() {
            assert(legs@[t] == body[t]);
        }
    }
    assert(legs@ =~= expected);
    legs
}

} // verus!
